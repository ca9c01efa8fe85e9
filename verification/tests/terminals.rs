use terax::connect::ConnectionInfo;
use terax::remote::{Attrs, Reply, Request, Step};
use terax::terminal::{
    build_terminal_command, detect_remote_shell, make_command, upload_integration, BuildTerminal,
    Scripts, TerminalCommand,
};

fn s(t: &str) -> String {
    t.to_string()
}

fn scripts() -> Scripts {
    Scripts {
        bashrc: s("B"),
        zshenv: s("E"),
        zprofile: s("P"),
        zshrc: s("R"),
        zlogin: s("L"),
        fish_init: s("F"),
    }
}

fn info() -> ConnectionInfo {
    ConnectionInfo {
        id: s("ann@box:2200"),
        label: s("x"),
        host: s("box"),
        port: 2200,
        user: s("ann"),
        home: s("/h"),
    }
}

fn words(t: &TerminalCommand) -> Vec<String> {
    t.command.get_argv().iter().map(|a| a.to_string_lossy().into_owned()).collect()
}

fn build(
    mut answer: impl FnMut(&Request) -> Reply,
) -> (Result<Vec<String>, String>, Vec<Request>) {
    let mut asked = Vec::new();
    let mut step = build_terminal_command(&info(), Some(s("/w")), scripts());
    loop {
        match step {
            Step::Ask { request, state } => {
                let reply = answer(&request);
                asked.push(request);
                step = BuildTerminal::resume(state, reply);
            }
            Step::Finish(r) => return (r.map(|t| words(&t)), asked),
        }
    }
}

fn there() -> Reply {
    Reply::Attrs(Attrs { is_dir: true, is_symlink: false, size: None, mtime: None })
}

fn with_shell(shell: &'static str) -> impl FnMut(&Request) -> Reply {
    move |q| match q {
        Request::Exec(_) => Reply::Output(s(shell)),
        Request::Stat(_) => there(),
        _ => Reply::Done,
    }
}

fn write(path: &str, content: &str) -> Request {
    Request::Write { path: s(path), content: s(content) }
}

#[test]
fn the_command_names_the_host_and_the_terminal() {
    let t = make_command("ann", "box", 22, "exec x -i");
    let want = [
        "ssh", "-tt", "-p", "22", "-o", "ServerAliveInterval=30", "ann@box", "exec x -i",
    ];
    assert_eq!(words(&t), want);
    let mut env: Vec<(&str, &str)> = t.command.iter_extra_env_as_str().collect();
    env.sort();
    assert_eq!(env, [("COLORTERM", "truecolor"), ("TERM", "xterm-256color")]);
}

#[test]
fn the_shell_is_the_first_line_that_is_not_blank() {
    assert_eq!(detect_remote_shell("\n  /usr/bin/zsh \n/bin/sh\n"), "/usr/bin/zsh");
    assert_eq!(detect_remote_shell(" \n\n"), "/bin/bash");
    assert_eq!(detect_remote_shell(""), "/bin/bash");
}

#[test]
fn zsh_gets_four_scripts_before_its_command() {
    let (r, asked) = build(with_shell("/bin/zsh\n"));
    let dir = "/h/.cache/terax/shell-integration/zsh";
    let command = r.unwrap();
    assert_eq!(command.last(), Some(&format!("ZDOTDIR={dir} exec zsh -l")));
    assert_eq!(command[3], "2200");
    assert_eq!(
        asked[asked.len() - 4..],
        [
            write(&format!("{dir}/.zshenv"), "E"),
            write(&format!("{dir}/.zprofile"), "P"),
            write(&format!("{dir}/.zshrc"), "R"),
            write(&format!("{dir}/.zlogin"), "L"),
        ]
    );
    assert_eq!(
        asked[0],
        Request::Exec(s("getent passwd \"$(id -un)\" 2>/dev/null | cut -d: -f7 | tail -n1; \
                         echo \"${SHELL:-}\""))
    );
    assert_eq!(asked[1], Request::Stat(s("/")));
    assert_eq!(asked.len(), 11);
}

#[test]
fn a_host_that_does_not_answer_is_taken_to_have_bash() {
    let (r, asked) = build(|q| match q {
        Request::Exec(_) => Reply::Failed(s("ssh: exec failed: x")),
        Request::Stat(_) => there(),
        _ => Reply::Done,
    });
    let file = "/h/.cache/terax/shell-integration/bash/bashrc";
    assert_eq!(r.unwrap().last(), Some(&format!("exec bash --rcfile {file} -i")));
    assert_eq!(asked.last(), Some(&write(file, "B")));
}

#[test]
fn fish_reads_its_script_from_its_own_directory() {
    let (r, asked) = build(with_shell("/usr/bin/fish"));
    assert_eq!(r.unwrap().last(), Some(&s("exec fish -i")));
    assert_eq!(asked.last(), Some(&write("/h/.config/fish/conf.d/terax.fish", "F")));
}

#[test]
fn other_shells_run_without_scripts() {
    let (r, asked) = build(with_shell("/bin/ksh"));
    assert_eq!(r.unwrap().last(), Some(&s("exec /bin/ksh -i")));
    assert_eq!(asked.len(), 1);
    let bare = upload_integration("/h", "", scripts());
    assert_eq!((bare.command.as_str(), bare.dir), ("exec $SHELL -i", None));
}

#[test]
fn uploads_that_fail_are_explained() {
    let at = "/h/.cache/terax/shell-integration/bash/bashrc";
    let (r, _) = build(|q| match q {
        Request::Exec(_) => Reply::Output(s("bash")),
        Request::Stat(_) => there(),
        _ => Reply::Failed(s("denied")),
    });
    assert_eq!(r, Err(format!("ssh: upload {at}: denied")));
    let (r, _) = build(|q| match q {
        Request::Exec(_) => Reply::Output(s("bash")),
        Request::Stat(_) => there(),
        _ => Reply::Broken(s("full")),
    });
    assert_eq!(r, Err(format!("ssh: write {at}: full")));
    let (r, _) = build(|q| match q {
        Request::Exec(_) => Reply::Output(s("bash")),
        _ => Reply::Failed(s("denied")),
    });
    assert_eq!(r, Err(s("ssh: mkdir / failed: denied")));
    let (r, _) = build(|_| Reply::Done);
    assert_eq!(r, Err(s("ssh: unexpected reply")));
}
