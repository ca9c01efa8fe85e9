use std::path::PathBuf;
use terax::cli::{
    build_request, client_socket, end_run, end_with, request_line, run, socket_path, try_run_cli,
    CliRequest, Outcome,
};
use terax::inputsource::{current_language, InputEvent, InputWatch};
use terax::paths::LocalPath;
use terax::server::{cli_respond, pending, reply_line, Pending, Taken};

fn s(t: &str) -> String {
    t.to_string()
}

fn args(v: &[&str]) -> Vec<String> {
    v.iter().map(|t| t.to_string()).collect()
}

fn complaint(code: i32, err: &str) -> Outcome {
    Outcome { code, out: None, err: Some(s(err)) }
}

#[test]
fn command_lines_are_read() {
    assert_eq!(build_request(&args(&["list", "--junk"])), Ok(CliRequest::List));
    let none = CliRequest::NewTerminal { cwd: None, title: None, run: s("") };
    assert_eq!(build_request(&args(&["new-terminal"])), Ok(none.clone()));
    assert_eq!(
        build_request(&args(&[
            "new-terminal", "--cwd", "/w", "--title", "--", "--", "agent", "do X", "--cwd",
        ])),
        Ok(CliRequest::NewTerminal {
            cwd: Some(s("/w")),
            title: Some(s("--")),
            run: s("agent do X --cwd"),
        })
    );
    assert_eq!(build_request(&args(&["new-terminal", "--cwd"])), Ok(none.clone()));
    let twice = ["new-terminal", "--cwd", "/a", "--cwd"];
    assert_eq!(build_request(&args(&twice)), Ok(none.clone()));
    assert_eq!(build_request(&args(&["new-terminal", "--title"])), Ok(none));
    assert_eq!(
        build_request(&args(&["new-terminal", "-x"])),
        Err(s("unknown argument: -x"))
    );
    assert_eq!(build_request(&args(&["open"])), Err(s("unknown command: open")));
}

#[test]
fn only_subcommands_run_the_command() {
    assert_eq!(try_run_cli(&args(&[])), None);
    assert_eq!(try_run_cli(&args(&["--version"])), None);
    assert_eq!(try_run_cli(&args(&["list"])), Some(Ok(s("{\"cmd\":\"list\"}\n"))));
    assert_eq!(
        try_run_cli(&args(&["new-terminal", "x"])),
        Some(Err(complaint(2, "terax: unknown argument: x")))
    );
    assert_eq!(run(&args(&["open"])), Err(complaint(2, "terax: unknown command: open")));
}

#[test]
fn requests_are_sent_as_one_line_of_json() {
    let line = request_line(CliRequest::NewTerminal {
        cwd: Some(s("/a \"b\"\n")),
        title: None,
        run: s("echo \u{1f600}\\"),
    });
    assert!(line.ends_with('\n') && line.matches('\n').count() == 1);
    let value: serde_json::Value = serde_json::from_str(&line).unwrap();
    assert_eq!(value["cmd"], "new-terminal");
    assert_eq!(value["cwd"], "/a \"b\"\n");
    assert!(value["title"].is_null());
    assert_eq!(value["run"], "echo \u{1f600}\\");
    assert_eq!(value.as_object().map(|o| o.len()), Some(4));
}

#[test]
fn replies_end_a_run() {
    let end = |line: &str| end_run(Ok(s(line)));
    let quiet = Outcome { code: 0, out: None, err: None };
    let says = |t: &str| Outcome { code: 0, out: Some(s(t)), err: None };
    assert_eq!(end("{\"output\":\"a\\nb\"}\n"), says("a\nb"));
    assert_eq!(end("{\"output\":\"\"}\n"), quiet);
    assert_eq!(end("{}"), quiet);
    assert_eq!(end("[1]"), quiet);
    assert_eq!(end("{\"error\":null,\"output\":\"x\"}"), says("x"));
    assert_eq!(end("{\"output\":\"x\",\"error\":\"bad\"}"), complaint(1, "terax: bad"));
    assert_eq!(end("nonsense"), complaint(1, "terax: malformed reply from Terax"));
    assert_eq!(end(""), complaint(1, "terax: malformed reply from Terax"));
    assert_eq!(
        end_run(Err(s("refused"))),
        complaint(
            1,
            "terax: cannot reach Terax (refused). \
             Is the app running, and are you in a Terax terminal?"
        )
    );
    assert_eq!(end_with(None), complaint(1, "terax: malformed reply from Terax"));
    assert_eq!(end_with(Some(vec![(s("output"), Some(s("o")))])), says("o"));
}

#[test]
fn the_socket_stands_in_the_temporary_directory() {
    let temp = || PathBuf::from("/tmp");
    let socket = LocalPath { dir: Some(temp()), parts: args(&["terax-cli.sock"]) };
    assert_eq!(socket_path(temp()), socket);
    assert_eq!(client_socket(None, temp()), socket);
    let named = LocalPath { dir: None, parts: args(&["/x"]) };
    assert_eq!(client_socket(Some(s("/x")), temp()), named);
}

#[test]
fn the_frontend_is_told_the_name_and_the_request() {
    let taken = Taken { id: s("4-1"), request: s("{\"cmd\":\"list\"}") };
    assert_eq!(taken.event(), "{\"id\":\"4-1\",\"request\":{\"cmd\":\"list\"}}");
    let odd = Taken { id: s("\"\n"), request: s("[1, null]") };
    let value: serde_json::Value = serde_json::from_str(&odd.event()).unwrap();
    assert_eq!(value["id"], "\"\n");
    assert_eq!(value["request"][0], 1);
    assert_eq!(value.as_object().map(|o| o.len()), Some(2));
}

#[test]
fn requests_wait_for_one_answer() {
    let mut p: Pending<u8> = pending(41);
    let line = request_line(CliRequest::List);
    let first = p.handle(&line, 1);
    assert_eq!(first, Some(Taken { id: s("41-0"), request: s("{\"cmd\":\"list\"}") }));
    assert_eq!(p.handle(" \n", 9), None);
    let second = p.handle(" {oops \n", 2);
    assert_eq!(second, Some(Taken { id: s("41-1"), request: s("{}") }));
    assert_eq!(p.take_on("[1]\n", true, 3).map(|t| t.request), Some(s("[1]")));
    assert_eq!(p.respond("41-0", s("r")), Some((1, s("r"))));
    assert_eq!(p.respond("41-0", s("r")), None);
    assert_eq!(cli_respond(&mut p, "41-1", s("q")), Some((2, s("q"))));
    assert_eq!(p.respond("41-9", s("r")), None);
    assert_eq!(p.respond("41-2", s("t")), Some((3, s("t"))));
}

#[test]
fn requests_are_given_up_with_an_error() {
    let mut p: Pending<u8> = pending(1);
    p.handle("{}", 1);
    p.handle("{}", 2);
    let late = p.give_up("1-0", true);
    assert_eq!(late, "{\"error\":\"Terax did not respond in time\"}");
    let closed = p.give_up("1-1", false);
    assert_eq!(closed, "{\"error\":\"Terax UI not ready\"}");
    assert_eq!(p.respond("1-0", s("x")), None);
    assert_eq!(
        end_run(Ok(reply_line(late))),
        complaint(1, "terax: Terax did not respond in time")
    );
    assert_eq!(end_run(Ok(reply_line(closed))), complaint(1, "terax: Terax UI not ready"));
}

#[test]
fn the_input_source_is_watched_once() {
    let mut w = InputWatch::new();
    assert_eq!(w.emit(true, None), None);
    assert!(w.start());
    assert!(!w.start());
    assert_eq!(w.emit(true, None), Some(InputEvent { lang: s("en"), initial: true }));
    let ko = InputEvent { lang: s("ko"), initial: false };
    assert_eq!(w.emit(false, Some(s("ko"))), Some(ko));
    assert_eq!(current_language(Some(s("zh-Hans"))), "zh-Hans");
}
