use terax::files::{
    canonicalize, classify, create_file, read_file, rename, stat, write_file, Canonicalize,
    CreateFile, FileStat, ReadFile, ReadResult, Rename, StatFile, StatKind, WriteFile,
    BINARY_SNIFF_BYTES, MAX_READ_BYTES,
};
use terax::folders::{create_dir, delete, mkdir_p, CreateDir, Delete, MakeDirs, DIR_MODE};
use terax::remote::{exec_failed, Attrs, Entry, ExecStage, Reply, Request, Step};

fn drive<S, T>(
    first: Step<S, T>,
    resume: impl Fn(S, Reply) -> Step<S, T>,
    mut answer: impl FnMut(&Request) -> Reply,
) -> (Result<T, String>, Vec<Request>) {
    let mut asked = Vec::new();
    let mut step = first;
    loop {
        match step {
            Step::Ask { request, state } => {
                let reply = answer(&request);
                asked.push(request);
                step = resume(state, reply);
            }
            Step::Finish(r) => return (r, asked),
        }
    }
}

fn s(t: &str) -> String {
    t.to_string()
}

fn attrs(is_dir: bool, is_symlink: bool, size: u64) -> Attrs {
    Attrs { is_dir, is_symlink, size: Some(size), mtime: Some(5) }
}

fn entry(name: &str, a: Attrs) -> Entry {
    Entry { name: Some(s(name)), attrs: a }
}

#[test]
fn reading_a_text_file() {
    let (r, asked) = drive(read_file("/f"), ReadFile::resume, |q| match q {
        Request::Stat(_) => Reply::Attrs(attrs(false, false, 6)),
        _ => Reply::Bytes("héllo".as_bytes().to_vec()),
    });
    assert_eq!(r, Ok(ReadResult::Text { content: s("héllo"), size: 6 }));
    assert_eq!(asked, vec![Request::Stat(s("/f")), Request::Read(s("/f"))]);
}

#[test]
fn reading_gives_back_what_was_written() {
    let mut stored: Vec<u8> = Vec::new();
    let text = "one\r\ntwo\u{1f600}";
    let (r, asked) = drive(write_file("/f", text), WriteFile::resume, |q| {
        if let Request::Write { content, .. } = q {
            stored = content.as_bytes().to_vec();
        }
        Reply::Done
    });
    assert_eq!(r, Ok(()));
    assert_eq!(asked, vec![Request::Write { path: s("/f"), content: s(text) }]);
    let size = stored.len() as u64;
    let (r, _) = drive(read_file("/f"), ReadFile::resume, |q| match q {
        Request::Stat(_) => Reply::Attrs(attrs(false, false, size)),
        _ => Reply::Bytes(stored.clone()),
    });
    assert_eq!(r, Ok(ReadResult::Text { content: s(text), size }));
}

#[test]
fn reading_too_large_a_file_stops_at_its_size() {
    let answer = |size| {
        drive(read_file("/f"), ReadFile::resume, move |q| match q {
            Request::Stat(_) => Reply::Attrs(attrs(false, false, size)),
            _ => Reply::Bytes(vec![b'x']),
        })
    };
    let (r, asked) = answer(MAX_READ_BYTES + 1);
    let want = ReadResult::TooLarge { size: 10_485_761, limit: 10_485_760 };
    assert_eq!((r, asked.len()), (Ok(want), 1));
    let (r, asked) = answer(MAX_READ_BYTES);
    let want = ReadResult::Text { content: s("x"), size: 10_485_760 };
    assert_eq!((r, asked.len()), (Ok(want), 2));
}

#[test]
fn binary_files_are_told_from_text() {
    assert_eq!(classify(vec![b'a', 0, b'b'], 3), ReadResult::Binary { size: 3 });
    assert_eq!(classify(vec![0xff, 0xfe], 2), ReadResult::Binary { size: 2 });
    assert_eq!(classify(vec![], 0), ReadResult::Text { content: s(""), size: 0 });
    let mut late = vec![b'a'; BINARY_SNIFF_BYTES];
    late.push(0);
    let content = String::from_utf8(late.clone()).unwrap();
    assert_eq!(classify(late, 9), ReadResult::Text { content, size: 9 });
    let mut early = vec![b'a'; BINARY_SNIFF_BYTES];
    early[BINARY_SNIFF_BYTES - 1] = 0;
    assert_eq!(classify(early, 9), ReadResult::Binary { size: 9 });
}

#[test]
fn a_missing_size_counts_as_zero() {
    let (r, _) = drive(read_file("/f"), ReadFile::resume, |q| match q {
        Request::Stat(_) => Reply::Attrs(Attrs {
            is_dir: false,
            is_symlink: false,
            size: None,
            mtime: None,
        }),
        _ => Reply::Bytes(b"x".to_vec()),
    });
    assert_eq!(r, Ok(ReadResult::Text { content: s("x"), size: 0 }));
}

#[test]
fn errors_of_the_host_are_passed_on() {
    let fail = |_: &Request| Reply::Failed(s("no such file"));
    assert_eq!(drive(read_file("/f"), ReadFile::resume, fail).0, Err(s("no such file")));
    assert_eq!(drive(write_file("/f", ""), WriteFile::resume, fail).0, Err(s("no such file")));
    assert_eq!(drive(stat("/f"), StatFile::resume, fail).0, Err(s("no such file")));
    assert_eq!(
        drive(canonicalize("/f"), Canonicalize::resume, fail).0,
        Err(s("no such file"))
    );
    assert_eq!(drive(delete("/f"), Delete::resume, fail).0, Err(s("no such file")));
    let broken = |q: &Request| match q {
        Request::Stat(_) => Reply::Attrs(attrs(false, false, 1)),
        _ => Reply::Broken(s("connection lost")),
    };
    assert_eq!(drive(read_file("/f"), ReadFile::resume, broken).0, Err(s("connection lost")));
    assert_eq!(
        drive(write_file("/f", "x"), WriteFile::resume, broken).0,
        Err(s("connection lost"))
    );
}

#[test]
fn replies_that_fit_no_request_end_an_operation() {
    let odd = |_: &Request| Reply::Output(s("?"));
    let want: Result<(), String> = Err(s("ssh: unexpected reply"));
    assert_eq!(drive(write_file("/f", ""), WriteFile::resume, odd).0, want);
    assert_eq!(drive(mkdir_p("/f"), MakeDirs::resume, odd).0, want);
    assert_eq!(drive(delete("/f"), Delete::resume, odd).0, want);
}

#[test]
fn commands_that_fail_are_explained() {
    let e = || s("timed out");
    let say = |t: &str| Reply::Failed(s(t));
    assert_eq!(exec_failed(ExecStage::Channel, e()), say("ssh: open channel failed: timed out"));
    assert_eq!(exec_failed(ExecStage::Command, e()), say("ssh: exec failed: timed out"));
    assert_eq!(exec_failed(ExecStage::Output, e()), say("timed out"));
}

#[test]
fn attributes_of_files() {
    let look = |a: Attrs| drive(stat("/f"), StatFile::resume, move |_| Reply::Attrs(a));
    let (r, asked) = look(attrs(false, true, 7));
    assert_eq!(r, Ok(FileStat { size: 7, mtime: 5000, kind: StatKind::Symlink }));
    assert_eq!(asked, vec![Request::Lstat(s("/f"))]);
    assert_eq!(look(attrs(true, false, 7)).0.unwrap().kind, StatKind::Dir);
    let plain = Attrs { is_dir: false, is_symlink: false, size: None, mtime: Some(u64::MAX) };
    assert_eq!(
        look(plain).0,
        Ok(FileStat { size: 0, mtime: u64::MAX, kind: StatKind::File })
    );
    let bare = Attrs { mtime: None, ..plain };
    assert_eq!(look(bare).0.unwrap().mtime, 0);
}

#[test]
fn canonical_paths_come_from_the_host() {
    let (r, asked) =
        drive(canonicalize("."), Canonicalize::resume, |_| Reply::Path(s("/C:\\home")));
    assert_eq!(r, Ok(s("/C:/home")));
    assert_eq!(asked, vec![Request::Realpath(s("."))]);
}

#[test]
fn files_are_created_where_nothing_stands() {
    let (r, asked) = drive(create_file("/f"), CreateFile::resume, |q| match q {
        Request::Stat(_) => Reply::Failed(s("missing")),
        _ => Reply::Done,
    });
    assert_eq!(r, Ok(()));
    assert_eq!(asked, vec![Request::Stat(s("/f")), Request::Create(s("/f"))]);
    let there = |_: &Request| Reply::Attrs(attrs(false, false, 0));
    assert_eq!(
        drive(create_file("/f"), CreateFile::resume, there).0,
        Err(s("already exists: /f"))
    );
    assert_eq!(
        drive(create_dir("/d"), CreateDir::resume, there).0,
        Err(s("already exists: /d"))
    );
}

#[test]
fn missing_directories_are_made_outermost_first() {
    let (r, asked) = drive(create_dir("/a/b/c"), CreateDir::resume, |q| match q {
        Request::Stat(p) if p == "/" || p == "/a" => Reply::Attrs(attrs(true, false, 0)),
        Request::Stat(_) => Reply::Failed(s("missing")),
        _ => Reply::Done,
    });
    assert_eq!(r, Ok(()));
    let made = |p: &str| Request::Mkdir { path: s(p), mode: 0o755 };
    assert_eq!(
        asked,
        vec![
            Request::Stat(s("/a/b/c")),
            Request::Stat(s("/")),
            Request::Stat(s("/a")),
            Request::Stat(s("/a/b")),
            made("/a/b"),
            Request::Stat(s("/a/b/c")),
            made("/a/b/c"),
        ]
    );
    assert_eq!(DIR_MODE, 0o755);
}

#[test]
fn a_directory_that_cannot_be_made_ends_it() {
    let (r, asked) = drive(mkdir_p("a/b"), MakeDirs::resume, |_| Reply::Failed(s("denied")));
    assert_eq!(r, Err(s("ssh: mkdir a failed: denied")));
    assert_eq!(asked.len(), 2);
    assert_eq!(drive(mkdir_p(""), MakeDirs::resume, |_| Reply::Done), (Ok(()), vec![]));
}

#[test]
fn renaming_needs_a_source_and_a_free_target() {
    let go = |from: bool, to: bool| {
        drive(rename("/a", "/b"), Rename::resume, move |q| match q {
            Request::Lstat(p) if (p == "/a" && from) || (p == "/b" && to) => {
                Reply::Attrs(attrs(false, false, 0))
            }
            Request::Lstat(_) => Reply::Failed(s("missing")),
            _ => Reply::Done,
        })
    };
    let (r, asked) = go(true, false);
    assert_eq!(r, Ok(()));
    assert_eq!(
        asked,
        vec![
            Request::Lstat(s("/a")),
            Request::Lstat(s("/b")),
            Request::Rename { from: s("/a"), to: s("/b") },
        ]
    );
    assert_eq!(go(false, false).0, Err(s("not found: /a")));
    assert_eq!(go(true, true).0, Err(s("already exists: /b")));
}

#[test]
fn trees_are_removed_from_the_inside_out() {
    let (r, asked) = drive(delete("/d"), Delete::resume, |q| match q {
        Request::Lstat(_) => Reply::Attrs(attrs(true, false, 0)),
        Request::List(p) if p == "/d" => Reply::Entries(vec![
            entry(".", attrs(true, false, 0)),
            entry("..", attrs(true, false, 0)),
            entry("sub", attrs(true, false, 0)),
            Entry { name: None, attrs: attrs(false, false, 0) },
            entry("link", attrs(false, true, 0)),
            entry("f", attrs(false, false, 0)),
        ]),
        Request::List(_) => Reply::Entries(vec![entry("g", attrs(false, false, 0))]),
        _ => Reply::Done,
    });
    assert_eq!(r, Ok(()));
    assert_eq!(
        asked,
        vec![
            Request::Lstat(s("/d")),
            Request::List(s("/d")),
            Request::List(s("/d/sub")),
            Request::Unlink(s("/d/sub/g")),
            Request::Rmdir(s("/d/sub")),
            Request::Unlink(s("/d/link")),
            Request::Unlink(s("/d/f")),
            Request::Rmdir(s("/d")),
        ]
    );
}

#[test]
fn removal_leaves_neighbours_alone() {
    for root in ["/d", "/d/"] {
        let (r, asked) = drive(delete(root), Delete::resume, |q| match q {
            Request::Lstat(_) => Reply::Attrs(attrs(true, false, 0)),
            Request::List(p) if p == root => Reply::Entries(vec![
                entry("../d2", attrs(true, false, 0)),
                entry("2", attrs(true, false, 0)),
                entry("x", attrs(false, false, 0)),
            ]),
            Request::List(_) => Reply::Entries(vec![]),
            _ => Reply::Done,
        });
        assert_eq!(r, Ok(()));
        for q in &asked {
            let (Request::Lstat(p) | Request::List(p) | Request::Unlink(p) | Request::Rmdir(p)) = q
            else {
                panic!("{q:?}");
            };
            assert!(p == root || p.starts_with("/d/"));
        }
        assert!(asked.contains(&Request::Unlink(s("/d/x"))));
    }
}

#[test]
fn links_to_directories_are_removed_as_links() {
    let (r, asked) = drive(delete("/l"), Delete::resume, |q| match q {
        Request::Lstat(_) => Reply::Attrs(attrs(false, true, 0)),
        _ => Reply::Done,
    });
    assert_eq!(r, Ok(()));
    assert_eq!(asked, vec![Request::Lstat(s("/l")), Request::Unlink(s("/l"))]);
}

#[test]
fn removal_stops_at_the_first_failure() {
    let (r, asked) = drive(delete("/d"), Delete::resume, |q| match q {
        Request::Lstat(_) => Reply::Attrs(attrs(true, false, 0)),
        Request::List(_) => Reply::Entries(vec![
            entry("f", attrs(false, false, 0)),
            entry("g", attrs(false, false, 0)),
        ]),
        _ => Reply::Failed(s("denied")),
    });
    assert_eq!(r, Err(s("denied")));
    assert_eq!(asked.len(), 3);
}
