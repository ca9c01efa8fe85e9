use terax::connect::{
    effective_port, establish, establish_in, Answer, Call, ConnectionInfo, Establish, SshAuth,
    SshConnectRequest,
};
use std::path::PathBuf;
use terax::manager::{
    ssh_connect, ssh_disconnect, ssh_home, ssh_list_connections, Connection, SshManager,
};
use terax::paths::LocalPath;
use terax::pins::{judge, load_known_hosts, pin_host, pin_name_of, save_known_hosts, Trust};
use terax::remote::Step;

fn s(t: &str) -> String {
    t.to_string()
}

fn request(auth: SshAuth) -> SshConnectRequest {
    SshConnectRequest { host: s("box"), port: None, user: s("ann"), auth, label: None }
}

fn password() -> SshAuth {
    SshAuth::Password { password: s("pw") }
}

fn pins_file() -> LocalPath {
    LocalPath {
        dir: Some(PathBuf::from("/cfg")),
        parts: vec![s("terax"), s("ssh_known_hosts.json")],
    }
}

/// Opens a connection to a host that shows `hash` and has `pins` on file.
fn open(
    req: SshConnectRequest,
    hash: Option<Vec<u8>>,
    pins: Option<Vec<u8>>,
    over: impl Fn(&Call) -> Option<Answer>,
) -> (Result<ConnectionInfo, String>, Vec<Call>) {
    let mut asked = Vec::new();
    let mut step = establish_in(
        req,
        Some(PathBuf::from("/home/me")),
        &Some(PathBuf::from("/cfg")),
    );
    loop {
        match step {
            Step::Ask { request, state } => {
                let answer = over(&request).unwrap_or_else(|| match &request {
                    Call::HostKey => Answer::HostKey(hash.clone()),
                    Call::LoadPins(_) => {
                        Answer::Pins { bytes: pins.clone(), shown: s("/cfg/pins.json") }
                    }
                    Call::Authenticated => Answer::Authenticated(true),
                    Call::Home => Answer::Path(s("/home\\ann")),
                    _ => Answer::Done,
                });
                asked.push(request);
                step = Establish::resume(state, answer);
            }
            Step::Finish(r) => return (r, asked),
        }
    }
}

fn saved(calls: &[Call]) -> Option<Vec<u8>> {
    calls.iter().find_map(|c| match c {
        Call::SavePins { content, .. } => Some(content.clone()),
        _ => None,
    })
}

#[test]
fn a_new_host_is_pinned_before_credentials_are_shown() {
    let (r, calls) = open(request(password()), Some(vec![0xab, 0x01]), None, |_| None);
    let info = ConnectionInfo {
        id: s("ann@box:22"),
        label: s("ann@box"),
        host: s("box"),
        port: 22,
        user: s("ann"),
        home: s("/home/ann"),
    };
    assert_eq!(r, Ok(info));
    let content = saved(&calls).unwrap();
    assert_eq!(String::from_utf8(content.clone()).unwrap(), "{\n  \"box:22\": \"ab01\"\n}");
    assert_eq!(
        calls,
        vec![
            Call::Dial(s("box:22")),
            Call::Open,
            Call::Handshake,
            Call::HostKey,
            Call::LoadPins(pins_file()),
            Call::SavePins {
                path: pins_file(),
                content,
                name: s("box:22"),
                fingerprint: s("ab01"),
            },
            Call::Password { user: s("ann"), password: s("pw") },
            Call::Authenticated,
            Call::Sftp,
            Call::Home,
        ]
    );
}

#[test]
fn a_pinned_host_is_known_again_and_a_changed_one_is_refused() {
    let (_, calls) = open(request(password()), Some(vec![7]), None, |_| None);
    let pins = saved(&calls);
    let (r, calls) = open(request(password()), Some(vec![7]), pins.clone(), |_| None);
    assert!(r.is_ok() && saved(&calls).is_none() && calls.len() == 9);
    let (r, calls) = open(request(password()), Some(vec![8]), pins, |_| None);
    assert_eq!(
        r,
        Err(s("ssh: host key for box:22 has CHANGED (possible man-in-the-middle). \
               If you trust this change, remove the entry from /cfg/pins.json."))
    );
    assert_eq!(calls.len(), 5);
}

#[test]
fn pins_of_other_hosts_are_kept() {
    let old = r#"{"box:2222":"00","q\"x:1":"é"}"#.as_bytes().to_vec();
    let (_, calls) = open(request(SshAuth::Agent), Some(vec![7]), Some(old), |_| None);
    let pins = load_known_hosts(saved(&calls));
    assert_eq!(
        pins,
        vec![(s("box:22"), s("07")), (s("box:2222"), s("00")), (s("q\"x:1"), s("é"))]
    );
}

#[test]
fn unreadable_pins_count_as_none() {
    assert!(load_known_hosts(None).is_empty());
    assert!(load_known_hosts(Some(b"not json".to_vec())).is_empty());
    assert!(load_known_hosts(Some(b"{\"a\": 1}".to_vec())).is_empty());
    assert!(load_known_hosts(Some(b"[]".to_vec())).is_empty());
    assert!(load_known_hosts(Some(b"{}".to_vec())).is_empty());
}

#[test]
fn pins_are_read_as_they_were_written() {
    let pins = vec![(s("b:1"), s("x\n\"\\")), (s("a:2"), s("\u{1f600}"))];
    let back = load_known_hosts(save_known_hosts(&pins).ok());
    assert_eq!(back, vec![pins[1].clone(), pins[0].clone()]);
    assert_eq!(judge(&back, "b:1", "x\n\"\\"), Trust::Known);
    assert_eq!(judge(&back, "b:1", "x"), Trust::Changed);
    assert_eq!(judge(&back, "b:2", "x"), Trust::New);
    assert_eq!(pin_host(back, "b:2", "x").len(), 3);
    assert_eq!(pin_name_of("::1", 22), "::1:22");
}

#[test]
fn every_step_can_fail() {
    let fail = |at: fn(&Call) -> bool| {
        open(request(password()), Some(vec![7]), None, move |c| {
            if at(c) {
                Some(Answer::Failed(s("oops")))
            } else {
                None
            }
        })
    };
    let say = |at: fn(&Call) -> bool| fail(at).0.unwrap_err();
    assert_eq!(say(|c| matches!(c, Call::Dial(_))), "ssh: cannot reach box:22: oops");
    assert_eq!(say(|c| matches!(c, Call::Open)), "ssh: session init failed: oops");
    assert_eq!(say(|c| matches!(c, Call::Handshake)), "ssh: handshake failed: oops");
    assert_eq!(say(|c| matches!(c, Call::SavePins { .. })), "oops");
    assert_eq!(say(|c| matches!(c, Call::Password { .. })), "ssh: password auth failed: oops");
    assert_eq!(say(|c| matches!(c, Call::Sftp)), "ssh: SFTP subsystem unavailable: oops");
    let info = fail(|c| matches!(c, Call::Home)).0.unwrap();
    assert_eq!(info.home, "/home/ann");
    let (r, _) = open(request(password()), None, None, |_| None);
    assert_eq!(r, Err(s("ssh: host did not present a key")));
    let (r, _) = open(request(password()), Some(vec![1]), None, |c| match c {
        Call::Authenticated => Some(Answer::Authenticated(false)),
        _ => None,
    });
    assert_eq!(r, Err(s("ssh: authentication failed")));
    let (r, calls) = open(request(password()), Some(vec![1]), None, |c| match c {
        Call::Open => Some(Answer::Path(s("?"))),
        _ => None,
    });
    assert_eq!((r, calls.len()), (Err(s("ssh: unexpected reply")), 2));
}

#[test]
fn each_way_of_authenticating_is_named() {
    let go = |auth: SshAuth| {
        open(request(auth), Some(vec![1]), None, |c| match c {
            Call::Agent { .. } | Call::KeyFile { .. } => Some(Answer::Failed(s("no"))),
            _ => None,
        })
    };
    let (r, calls) = go(SshAuth::Agent);
    assert_eq!(r, Err(s("ssh: agent auth failed: no")));
    assert_eq!(calls.last(), Some(&Call::Agent { user: s("ann") }));
    let (r, calls) = go(SshAuth::Key { path: s("/k"), passphrase: Some(s("p")) });
    assert_eq!(r, Err(s("ssh: key auth failed: no")));
    let path = LocalPath { dir: None, parts: vec![s("/k")] };
    let want = Call::KeyFile { user: s("ann"), path, passphrase: Some(s("p")) };
    assert_eq!(calls.last(), Some(&want));
    let (_, calls) = go(SshAuth::Key { path: s("~/k"), passphrase: None });
    let path = LocalPath { dir: Some(PathBuf::from("/home/me")), parts: vec![s("k")] };
    let want = Call::KeyFile { user: s("ann"), path, passphrase: None };
    assert_eq!(calls.last(), Some(&want));
}

#[test]
fn labels_and_ports_are_taken_over() {
    let mut req = request(SshAuth::Agent);
    req.port = Some(2200);
    req.label = Some(s(" Box "));
    let (r, _) = open(req.clone(), Some(vec![1]), None, |_| None);
    let info = r.unwrap();
    assert_eq!((info.label.as_str(), info.id.as_str()), (" Box ", "ann@box:2200"));
    req.label = Some(s(" \t"));
    let (r, _) = open(req, Some(vec![1]), None, |_| None);
    assert_eq!(r.unwrap().label, "ann@box");
    assert_eq!((effective_port(None), effective_port(Some(0))), (22, 0));
}

#[test]
fn connections_use_the_directories_of_the_user() {
    let Step::Ask { request: call, state } = establish(request(SshAuth::Agent)) else {
        panic!("nothing to do");
    };
    assert_eq!(call, Call::Dial(s("box:22")));
    assert_eq!(state.home, dirs::home_dir());
    assert_eq!(state.pins_path, terax::paths::known_hosts_path());
}

fn connection(id: &str, label: &str) -> Connection<u32> {
    let info = ConnectionInfo {
        id: s(id),
        label: s(label),
        host: s("h"),
        port: 22,
        user: s("u"),
        home: format!("/home/{id}"),
    };
    Connection { info, handle: 1 }
}

#[test]
fn connections_are_kept_by_name() {
    let mut m: SshManager<u32> = SshManager::new();
    let info = ssh_connect(&mut m, Ok(connection("a", "Zed"))).unwrap();
    assert_eq!((info.id.as_str(), info.label.as_str()), ("a", "Zed"));
    ssh_connect(&mut m, Ok(connection("b", "alpha"))).unwrap();
    assert_eq!(ssh_connect(&mut m, Err(s("ssh: no"))), Err(s("ssh: no")));
    assert_eq!(m.ids(), vec![s("a"), s("b")]);
    assert_eq!(ssh_home(&m, "a"), Ok(s("/home/a")));
    assert_eq!(m.get_conn("b").map(|c| c.handle), Ok(1));
    let labels = |m: &SshManager<u32>, out: &[String]| -> Vec<String> {
        let list = ssh_list_connections(m, &out.to_vec()).unwrap();
        list.into_iter().map(|i| i.label).collect()
    };
    assert_eq!(labels(&m, &[]), vec![s("alpha"), s("Zed")]);
    assert_eq!(labels(&m, &[s("b")]), vec![s("Zed")]);
    let ids: Vec<String> = {
        let list = ssh_list_connections(&m, &vec![]).unwrap();
        list.into_iter().map(|i| i.id).collect()
    };
    assert_eq!(ids, vec![s("b"), s("a")]);
    ssh_connect(&mut m, Ok(connection("a", "Abel"))).unwrap();
    assert_eq!(labels(&m, &[]), vec![s("Abel"), s("alpha")]);
    assert_eq!(ssh_disconnect(&mut m, "a"), Ok(()));
    assert_eq!(ssh_disconnect(&mut m, "a"), Ok(()));
    assert_eq!(ssh_home(&m, "a"), Err(s("ssh: not connected: a")));
    assert_eq!(m.get_conn("x").err(), Some(s("ssh: not connected: x")));
    assert_eq!(ssh_home(&m, "b"), Ok(s("/home/b")));
}
