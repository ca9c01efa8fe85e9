use terax::grep::{grep, parse_hit, parse_output, write_command, Grep, GrepHit};
use terax::listing::{
    list_subdirs, read_dir, show_dir, show_subdirs, DirEntry, EntryKind, ListSubdirs, ReadDir,
};
use terax::pattern::{defuse, level, nesting_of};
use terax::remote::{Attrs, Entry, Reply, Request, Step};
use terax::search::{
    glob, glob_with, list_files, search, search_with, GlobHit, GlobSearch, ListFiles, Search, SearchHit,
};
use terax::walk::{Walk, MAX_SCANNED};

fn drive<S, T>(
    first: Step<S, T>,
    resume: impl Fn(S, Reply) -> Step<S, T>,
    mut answer: impl FnMut(&Request) -> Reply,
) -> (Result<T, String>, Vec<Request>) {
    let mut asked = Vec::new();
    let mut step = first;
    loop {
        match step {
            Step::Ask { request, state } => {
                let reply = answer(&request);
                asked.push(request);
                step = resume(state, reply);
            }
            Step::Finish(r) => return (r, asked),
        }
    }
}

fn s(t: &str) -> String {
    t.to_string()
}

fn texts(v: &[&str]) -> Vec<String> {
    v.iter().map(|t| t.to_string()).collect()
}

fn kind(name: &str, is_dir: bool, is_symlink: bool) -> Entry {
    let attrs = Attrs { is_dir, is_symlink, size: Some(1), mtime: Some(2) };
    Entry { name: Some(s(name)), attrs }
}

fn file(name: &str) -> Entry {
    kind(name, false, false)
}

fn dir(name: &str) -> Entry {
    kind(name, true, false)
}

fn tree(request: &Request) -> Reply {
    let Request::List(path) = request else {
        return Reply::Failed(s("no"));
    };
    match path.as_str() {
        "/r" => Reply::Entries(vec![
            dir("."),
            dir(".."),
            file("B.txt"),
            dir("src"),
            dir("node_modules"),
            dir(".hid"),
            file(".env"),
            kind("loop", false, true),
            Entry { name: None, attrs: file("x").attrs },
            file("a.rs"),
            dir("closed"),
        ]),
        "/r/src" => Reply::Entries(vec![file("main.rs"), dir("deep"), file("Alib.RS")]),
        "/r/src/deep" => Reply::Entries(vec![file("z.rs")]),
        "/r/.hid" => Reply::Entries(vec![file("h.rs")]),
        _ => Reply::Failed(s("denied")),
    }
}

#[test]
fn files_are_listed_in_caseless_order() {
    let (r, asked) = drive(list_files("/r", 100, 10, false), ListFiles::resume, tree);
    let r = r.unwrap();
    let want = ["a.rs", "B.txt", "loop", "src/Alib.RS", "src/deep/z.rs", "src/main.rs"];
    assert_eq!(r.files, texts(&want));
    assert!(!r.truncated);
    let dirs = ["/r", "/r/src", "/r/src/deep", "/r/closed"];
    let want: Vec<Request> = dirs.iter().map(|d| Request::List(s(d))).collect();
    assert_eq!(asked, want);
}

#[test]
fn hidden_files_are_listed_where_asked_for() {
    let (r, _) = drive(list_files("/r", 100, 10, true), ListFiles::resume, tree);
    let files = r.unwrap().files;
    assert!(files.contains(&s(".env")) && files.contains(&s(".hid/h.rs")));
    assert_eq!(files.len(), 8);
}

#[test]
fn listing_stops_at_the_limit_and_the_depth() {
    let (r, asked) = drive(list_files("/r", 2, 10, false), ListFiles::resume, tree);
    let r = r.unwrap();
    assert_eq!(r.files, texts(&["B.txt", "src/main.rs"]));
    assert!(r.truncated);
    assert_eq!(asked.len(), 2);
    let (r, _) = drive(list_files("/r", 0, 10, false), ListFiles::resume, tree);
    assert_eq!(r.unwrap().files, texts(&["B.txt"]));
    let (r, asked) = drive(list_files("/r", 100, 0, false), ListFiles::resume, tree);
    assert_eq!(r.unwrap().files, texts(&["a.rs", "B.txt", "loop"]));
    assert_eq!(asked.len(), 1);
    let (r, _) = drive(list_files("/r", 100, 1, false), ListFiles::resume, tree);
    assert_eq!(r.unwrap().files.len(), 5);
}

#[test]
fn results_that_are_not_truncated_are_complete() {
    let all = texts(&["a.rs", "B.txt", "loop", "src/Alib.RS", "src/deep/z.rs", "src/main.rs"]);
    for limit in 0..9 {
        let (r, _) = drive(list_files("/r", limit, 10, false), ListFiles::resume, tree);
        let r = r.unwrap();
        assert_eq!(r.truncated, limit <= 6);
        assert_eq!(r.files.len(), limit.clamp(1, 6));
        assert!(r.truncated || r.files == all);
        let (r, _) = drive(search("/r", "RS", limit, false), Search::resume, tree);
        let r = r.unwrap();
        assert_eq!((r.truncated, r.hits.len()), (limit <= 4, limit.clamp(1, 4)));
        let (r, _) = drive(glob("**/*.rs", "/r", limit), GlobSearch::resume, tree);
        let r = r.unwrap();
        let found: Vec<String> = r.hits.iter().map(|h| h.rel.clone()).collect();
        let all = texts(&["src/main.rs", "src/deep/z.rs", ".hid/h.rs", "a.rs"]);
        assert!(all.starts_with(&found));
        assert_eq!((r.truncated, found.len()), (limit <= 4, limit.clamp(1, 4)));
    }
}

#[test]
fn a_root_that_cannot_be_listed_is_empty() {
    let (r, _) = drive(list_files("/no", 10, 10, false), ListFiles::resume, tree);
    let r = r.unwrap();
    assert!(r.files.is_empty() && !r.truncated);
}

#[test]
fn a_walk_looks_at_a_bounded_number_of_entries() {
    let many = |n: usize| {
        drive(list_files("/", usize::MAX, 3, false), ListFiles::resume, move |_| {
            Reply::Entries((0..n).map(|i| file(&i.to_string())).collect())
        })
    };
    let r = many(MAX_SCANNED).0.unwrap();
    assert_eq!((r.files.len(), r.truncated), (50_000, false));
    let r = many(MAX_SCANNED + 1).0.unwrap();
    assert_eq!((r.files.len(), r.truncated), (50_000, true));
}

#[test]
fn searching_goes_by_the_path_and_ranks_names_first() {
    let (r, _) = drive(search("/r", "  RS ", 100, false), Search::resume, tree);
    let r = r.unwrap();
    let rels: Vec<&str> = r.hits.iter().map(|h| h.rel.as_str()).collect();
    assert_eq!(rels, ["a.rs", "src/main.rs", "src/Alib.RS", "src/deep/z.rs"]);
    assert_eq!(
        r.hits[0],
        SearchHit { path: s("/r/a.rs"), rel: s("a.rs"), name: s("a.rs"), is_dir: false }
    );
    assert!(!r.truncated);
    let (r, _) = drive(search("/r", "src", 100, false), Search::resume, tree);
    let rels: Vec<String> = r.unwrap().hits.into_iter().map(|h| h.rel).collect();
    let want = ["src", "src/deep", "src/main.rs", "src/Alib.RS", "src/deep/z.rs"];
    assert_eq!(rels, texts(&want));
}

#[test]
fn searching_lowers_case_beyond_ascii() {
    let (r, _) = drive(search("/r", "ÄÖ", 10, false), Search::resume, |_| {
        Reply::Entries(vec![file("xäöx"), file("XÄÖX"), file("ao")])
    });
    assert_eq!(r.unwrap().hits.len(), 2);
}

#[test]
fn searching_ignores_case_and_space_around() {
    let go = |q: &str| drive(search("/r", q, 100, false), Search::resume, tree).0.unwrap();
    assert_eq!(go("main.rs"), go("\u{3000} MAIN.rS\t\n"));
    assert_eq!(go("main.rs").hits.len(), 1);
    let (r, _) = drive(search_with("/r", s("main.rs"), 100, false), Search::resume, tree);
    assert_eq!(r.unwrap(), go("main.rs"));
    let (r, asked) = drive(search_with("/r", s(""), 100, false), Search::resume, tree);
    assert!(r.unwrap().hits.is_empty() && asked.is_empty());
    let (r, _) = drive(search_with("/r", s("MAIN"), 100, false), Search::resume, tree);
    assert!(r.unwrap().hits.is_empty());
}

#[test]
fn searching_for_nothing_finds_nothing() {
    let (r, asked) = drive(search("/r", " \t ", 10, true), Search::resume, tree);
    let r = r.unwrap();
    assert!(r.hits.is_empty() && !r.truncated && asked.is_empty());
    let (r, _) = drive(search("/r", "rs", 1, false), Search::resume, tree);
    let r = r.unwrap();
    assert!(r.hits.len() == 1 && r.truncated);
}

#[test]
fn patterns_match_files_in_walk_order() {
    let (r, _) = drive(glob("**/*.rs", "/r", 100), GlobSearch::resume, tree);
    let r = r.unwrap();
    let rels: Vec<&str> = r.hits.iter().map(|h| h.rel.as_str()).collect();
    assert_eq!(rels, ["src/main.rs", "src/deep/z.rs", ".hid/h.rs", "a.rs"]);
    assert_eq!(r.hits[0], GlobHit { path: s("/r/src/main.rs"), rel: s("src/main.rs") });
    assert!(!r.truncated);
    let (r, _) = drive(glob("*.{txt,env}", "/r", 1), GlobSearch::resume, tree);
    let r = r.unwrap();
    assert!(r.hits.len() == 1 && r.hits[0].rel == "B.txt" && r.truncated);
    let (r, _) = drive(glob("src", "/r", 10), GlobSearch::resume, tree);
    assert!(r.unwrap().hits.is_empty());
}

fn find(pattern: &str) -> Result<Vec<String>, String> {
    let (r, _) = drive(glob(pattern, "/r", 100), GlobSearch::resume, tree);
    r.map(|g| g.hits.into_iter().map(|h| h.rel).collect())
}

#[test]
fn patterns_that_cannot_be_read_are_refused() {
    let (r, asked) = drive(glob("", "/r", 10), GlobSearch::resume, tree);
    assert_eq!((r, asked.len()), (Err(s("empty pattern")), 0));
    let (r, asked) = drive(glob("[z-a]", "/r", 10), GlobSearch::resume, tree);
    let want = globset::Glob::new("[z-a]").unwrap_err().to_string();
    assert_eq!((r, asked.len()), (Err(format!("bad glob: {want}")), 0));
    for odd in ["a{", "a}", "[a", "\\", &"{".repeat(5000), &format!("{}[", "a".repeat(5000))] {
        let want = globset::Glob::new(odd).unwrap_err().to_string();
        assert_eq!(find(odd), Err(format!("bad glob: {want}")));
    }
}

#[test]
fn compiled_patterns_are_matched() {
    let compile = |p: &str| {
        let glob = globset::Glob::new(p).unwrap();
        globset::GlobSetBuilder::new().add(glob).build().unwrap()
    };
    let first = glob_with("a*", "/r", 9, Ok(compile("a*")));
    let (r, _) = drive(first, GlobSearch::resume, tree);
    let hit = GlobHit { path: s("/r/a.rs"), rel: s("a.rs") };
    assert_eq!(r.unwrap().hits, vec![hit]);
    let (r, _) = drive(glob_with("x", "/r", 1, Err(s("odd"))), GlobSearch::resume, tree);
    assert_eq!(r, Err(s("bad glob: odd")));
    let (r, _) = drive(glob_with("", "/r", 1, Err(s("odd"))), GlobSearch::resume, tree);
    assert_eq!(r, Err(s("empty pattern")));
}

#[test]
fn patterns_match_what_their_own_matcher_matches() {
    let all = ["B.txt", "loop", "src/main.rs", "src/deep/z.rs", "src/Alib.RS", ".hid/h.rs", ".env"];
    let patterns = [
        "*", "**", "*.rs", "**/*.rs", "src/**", "**/main.rs", "src/*.rs", "src/main.rs", "*/deep/*",
        "{src,.hid}/**/*.{rs,RS}", "[a-m]*", "[!s]*", "?.txt", "**/z.rs", "src/deep/**/z.rs", "*o*",
        "B.t{x,y}t", "{,src}", "**/.env", ".*", "[{]*", "src/m[a]in.rs", "\\*", "[α-ω]*", "[]]",
    ];
    for p in patterns {
        let matcher = globset::Glob::new(p).unwrap().compile_matcher();
        let found = find(p).unwrap();
        for rel in all {
            let hit = found.contains(&s(rel));
            assert_eq!(hit, matcher.is_match(rel), "{p} {rel}");
        }
    }
}

#[test]
fn nesting_counts_alternates_that_close() {
    assert_eq!(nesting_of(""), 0);
    assert_eq!(nesting_of("{a,b}{c}"), 1);
    assert_eq!(nesting_of("{a,{b,{c}},{d}}"), 3);
    assert_eq!(nesting_of("{{{"), 0);
    assert_eq!(nesting_of("{{{a}"), 1);
    assert_eq!(nesting_of("a}{b}"), 0);
    assert_eq!(nesting_of("[{]{a}[}]"), 1);
    assert_eq!(nesting_of("{[]}]}{[!]}]}{[^]}]}"), 1);
    let escaped = if std::path::is_separator('\\') { 2 } else { 1 };
    assert_eq!(nesting_of("\\{{a}\\}"), escaped);
}

#[test]
fn long_patterns_and_many_alternates_are_matched() {
    assert_eq!(find(&"a".repeat(4097)), Ok(vec![]));
    assert_eq!(find(&"{,a,b}".repeat(65)), Ok(vec![]));
    assert_eq!(find(&format!("B{}", "{.,t,x}".repeat(4))), Ok(vec![s("B.txt")]));
    assert_eq!(find(&"[{]".repeat(2000)), Ok(vec![]));
    assert_eq!(find(&"{a,b}".repeat(2000)), Ok(vec![]));
    let mut deep = s("*");
    for _ in 0..64 {
        deep = format!("x*{{[ab]?,**/{deep},c}}");
    }
    assert_eq!(find(&deep), Ok(vec![]));
}

fn nested(n: usize, inner: &str) -> String {
    format!("{}{inner}{}", "{".repeat(n), "}".repeat(n))
}

#[test]
fn patterns_that_nest_too_deep_are_refused() {
    assert_eq!(find(&nested(200, "a.rs")), Ok(vec![s("a.rs")]));
    let refused = find(&nested(1000, "a")).unwrap_err();
    assert!(refused.starts_with("bad glob: ") && refused != "bad glob: pattern is too large");
    for n in [1001, 200_000] {
        assert_eq!(find(&nested(n, "a")), Err(s("bad glob: pattern is too large")));
    }
}

#[test]
fn empty_alternates_nest_as_deep_as_they_like() {
    assert_eq!(find(&nested(1000, "")), Ok(vec![]));
    for n in [1001, 1100] {
        let deep = nested(n, "");
        let matcher = globset::Glob::new(&deep).unwrap().compile_matcher();
        assert!(matcher.is_match("") && !matcher.is_match("a.rs"));
        assert_eq!(find(&deep), Ok(vec![]));
        for pattern in [
            format!("a{deep}.rs"),
            format!("{{{deep},a}}{deep}.r{{{deep},s}}"),
            format!("**/{deep}a.rs"),
            format!("{deep}**/a.rs"),
            format!("{{,{deep}}}[a]{{{deep},x,{deep}}}*"),
        ] {
            let matcher = globset::Glob::new(&pattern).unwrap().compile_matcher();
            let all = find("**").unwrap();
            assert!(!all.is_empty());
            let expected: Vec<String> = all.into_iter().filter(|f| matcher.is_match(f)).collect();
            assert_eq!(find(&pattern), Ok(expected));
        }
    }
    assert_eq!(find(&format!("a{}.rs", nested(200_000, ","))), Ok(vec![s("a.rs")]));
}

#[test]
fn deep_patterns_that_are_wrong_are_told_why() {
    for n in [1001, 2500] {
        for pattern in [
            format!("{}}}", nested(n, "a")),
            format!("{{{}", nested(n, "a")),
            format!("{}[", nested(n, "")),
            format!("{}[z-a]", nested(n, "a")),
            nested(n, "[z-a]"),
            nested(n, "[}-{]{[z-a]"),
            format!("{}\\", nested(n, "{[!}]x},a")),
            format!("}}[z-a]{}", nested(n, "")),
        ] {
            let expected = match globset::Glob::new(&pattern) {
                Err(e) => Err(format!("bad glob: {e}")),
                Ok(_) => Err(s("bad glob: pattern is too large")),
            };
            assert_eq!(find(&pattern), expected);
        }
    }
    let deep = format!("{}}}", nested(1001, ""));
    assert_eq!(
        find(&deep),
        Err(format!(
            "bad glob: error parsing glob '{deep}': unopened alternate group; missing '{{' (maybe escape '}}' with '[}}]'?)"
        ))
    );
}

#[test]
fn levelled_patterns_keep_one_pair_of_braces() {
    assert_eq!(level(""), "");
    assert_eq!(level("{{},{,{}}}"), "{}");
    assert_eq!(level("a{{}}b,{{{,}},c}"), "a{}b,{{},c}");
    assert_eq!(level("{{{}"), "{{{}");
    assert_eq!(level("{{}}}{{}}"), "{}}{{}}");
    assert_eq!(level("{{[{}]}}{[]}]{{}}}"), "{{[{}]}}{[]}]{}}");
}

#[test]
fn defused_patterns_keep_the_braces_that_stand_alone() {
    assert_eq!(defuse(""), "");
    assert_eq!(defuse("{a,{b}}"), ",a,,b,,");
    assert_eq!(defuse("{{a}"), "{,a,");
    assert_eq!(defuse("{a}}{b}"), ",a,}{b}");
    assert_eq!(defuse("{[{}]}[!}]{"), ",[{}],[!}]{");
    for pattern in ["{a,{b}}", "{{a}", "{a}}{b}", "{[z-a]}", "{[{}]}[!}]{"] {
        let kind = |p: &str| globset::Glob::new(p).err().map(|e| e.kind().to_string());
        assert_eq!(kind(&defuse(pattern)), kind(pattern));
        assert_eq!(nesting_of(&defuse(pattern)), 0);
    }
}

#[test]
fn patterns_that_compile_too_large_are_refused() {
    let huge = format!("{}?", "a".repeat(3_000_000));
    let refused = find(&huge).unwrap_err();
    assert!(refused.starts_with("bad glob: "));
}

#[test]
fn odd_replies_end_a_walk() {
    let odd = |_: &Request| Reply::Done;
    let (r, _) = drive(list_files("/r", 1, 1, true), ListFiles::resume, odd);
    assert_eq!(r.err(), Some(s("ssh: unexpected reply")));
    let plan = terax::walk::Plan {
        root: s("/r"),
        max_depth: 0,
        show_hidden: false,
        limit: 9,
        want: terax::walk::Want::Files,
    };
    let (r, _) = drive(Walk::start(plan), Walk::resume, tree);
    assert_eq!(r.unwrap().scanned, 11);
}

#[test]
fn directories_come_first_in_a_listing() {
    let list = vec![
        file("b"),
        dir("."),
        dir(".."),
        kind("link", false, true),
        dir("Zdir"),
        file("A"),
        Entry { name: None, attrs: file("x").attrs },
        dir("adir"),
        file(".hid"),
    ];
    let reply = list.clone();
    let (r, asked) = drive(read_dir("/d", false), ReadDir::resume, move |_| {
        Reply::Entries(reply.clone())
    });
    let shown = r.unwrap();
    let names: Vec<&str> = shown.iter().map(|e| e.name.as_str()).collect();
    assert_eq!(names, ["adir", "Zdir", "link", "A", "b"]);
    assert_eq!(
        shown[2],
        DirEntry { name: s("link"), kind: EntryKind::Symlink, size: 1, mtime: 2000 }
    );
    assert_eq!(asked, vec![Request::List(s("/d"))]);
    assert_eq!(show_dir(&list, true).len(), 6);
    assert_eq!(show_dir(&list, true)[3].name, ".hid");
}

#[test]
fn directories_are_named_as_they_are_shown() {
    let link = kind("link", false, true);
    let list = vec![dir("Zdir"), dir("."), link, file("f"), dir(".h"), dir("a"), dir("zdir")];
    assert_eq!(show_subdirs(&list, false), texts(&["a", "Zdir", "zdir"]));
    assert_eq!(show_subdirs(&list, true), texts(&[".h", "a", "Zdir", "zdir"]));
    for hidden in [false, true] {
        let shown = show_dir(&list, hidden);
        let dirs = shown.into_iter().filter(|e| e.kind == EntryKind::Dir);
        let names: Vec<String> = dirs.map(|e| e.name).collect();
        assert_eq!(show_subdirs(&list, hidden), names);
    }
    let (r, asked) = drive(list_subdirs("/d", false), ListSubdirs::resume, |_| {
        Reply::Entries(vec![dir("x")])
    });
    assert_eq!((r, asked), (Ok(texts(&["x"])), vec![Request::List(s("/d"))]));
    let no = |_: &Request| Reply::Failed(s("denied"));
    assert_eq!(drive(list_subdirs("/d", false), ListSubdirs::resume, no).0, Err(s("denied")));
    assert_eq!(drive(read_dir("/d", false), ReadDir::resume, no).0, Err(s("denied")));
}

#[test]
fn the_grep_command_is_quoted() {
    assert_eq!(
        write_command("it's", "/a b", &texts(&["*.rs", "x'y"]), true),
        "grep -rnIE -i --include='*.rs' --include='x'\\''y' -e 'it'\\''s' '/a b'"
    );
    assert_eq!(write_command("-v", "/", &texts(&[]), false), "grep -rnIE -e '-v' '/'");
}

#[test]
fn grep_reads_paths_numbers_and_lines() {
    let out = "/r/a.rs:3:let x: u8;\nBinary file matches\n/r/a.rs:x:no\n/r/b/c:12:\r\n/r/a.rs:9:y\n";
    let (r, asked) = drive(grep("x", "/r", &texts(&[]), false, 10), Grep::resume, |_| {
        Reply::Output(s(out))
    });
    let r = r.unwrap();
    assert_eq!(
        r.hits[0],
        GrepHit { path: s("/r/a.rs"), rel: s("a.rs"), line: 3, text: s("let x: u8;") }
    );
    assert_eq!(r.hits[1], GrepHit { path: s("/r/b/c"), rel: s("b/c"), line: 12, text: s("") });
    assert_eq!((r.hits.len(), r.truncated, r.files_scanned), (3, false, 2));
    assert_eq!(asked, vec![Request::Exec(s("grep -rnIE -e 'x' '/r'"))]);
}

#[test]
fn grep_stops_at_the_limit() {
    let out = "f:1:a\ng:2:b\nh:3:c\n";
    let r = parse_output("/", out, 2);
    assert_eq!((r.hits.len(), r.truncated, r.files_scanned), (2, true, 2));
    let r = parse_output("/", out, 3);
    assert_eq!((r.hits.len(), r.truncated), (3, true));
    let r = parse_output("/", out, 4);
    assert_eq!((r.hits.len(), r.truncated), (3, false));
    let r = parse_output("/", out, 0);
    assert_eq!((r.hits.len(), r.truncated, r.files_scanned), (1, true, 1));
    let r = parse_output("/", "", 0);
    assert_eq!((r.hits.len(), r.truncated, r.files_scanned), (0, false, 0));
}

#[test]
fn grep_lines_read_back() {
    let hit = parse_hit("/r", "/r/p:18446744073709551615:a:b:c").unwrap();
    assert_eq!((hit.line, hit.text.as_str(), hit.rel.as_str()), (u64::MAX, "a:b:c", "p"));
    assert_eq!(parse_hit("/r", "a:1"), None);
    assert_eq!(parse_hit("/r", "nothing"), None);
    assert_eq!(parse_hit("/r", "a:18446744073709551616:x"), None);
}

#[test]
fn grep_refuses_an_empty_pattern_and_passes_errors_on() {
    let (r, asked) = drive(grep("", "/", &texts(&[]), false, 1), Grep::resume, |_| Reply::Done);
    assert_eq!((r.err(), asked.len()), (Some(s("empty pattern")), 0));
    let fail = |_: &Request| Reply::Failed(s("ssh: exec failed: x"));
    let (r, _) = drive(grep("a", "/", &texts(&[]), false, 1), Grep::resume, fail);
    assert_eq!(r.err(), Some(s("ssh: exec failed: x")));
}
