use std::path::PathBuf;
use terax::numbers::{decimal_text, hex_encode, parse_number};
use terax::paths::{
    canon_remote, cli_bin_dir, cli_bin_in, expand_tilde, expand_tilde_in, known_hosts_in,
    known_hosts_path, path_prefixes, LocalPath,
};
use terax::sort::{stable_order, SortKey};
use terax::table::Table;
use terax::text::{
    contains, is_whitespace, join_from, lines, replace_char, same, strip_prefix, tail_after,
    to_chars, trim,
};

fn texts(v: &[&str]) -> Vec<String> {
    v.iter().map(|s| s.to_string()).collect()
}

/// The path that the parts of a local path join to.
fn resolved(path: LocalPath) -> PathBuf {
    let base = path.dir.unwrap_or_default();
    path.parts.iter().fold(base, |p, part| p.join(part))
}

#[test]
fn expand_tilde_leaves_absolute_untouched() {
    assert_eq!(resolved(expand_tilde("/etc/key")), PathBuf::from("/etc/key"));
}

#[test]
fn expand_tilde_puts_the_home_directory_in() {
    let home = Some(PathBuf::from("/home/u"));
    let at = |path: &str, home: &Option<PathBuf>| resolved(expand_tilde_in(path, home));
    assert_eq!(at("~/.ssh/id", &home), PathBuf::from("/home/u/.ssh/id"));
    assert_eq!(at("~/.ssh/id", &Some(PathBuf::from("/"))), PathBuf::from("/.ssh/id"));
    assert_eq!(at("~/.ssh/id", &None), PathBuf::from("~/.ssh/id"));
    assert_eq!(at("~u/.ssh/id", &home), PathBuf::from("~u/.ssh/id"));
    assert_eq!(at("~//etc/key", &home), PathBuf::from("/etc/key"));
    let path = expand_tilde_in("~/k", &home);
    assert_eq!((path.dir.clone(), path.parts.clone()), (home, texts(&["k"])));
    assert_eq!(path.copy(), path);
}

#[test]
fn expand_tilde_asks_for_the_home_directory() {
    match dirs::home_dir() {
        Some(home) => assert_eq!(resolved(expand_tilde("~/x")), home.join("x")),
        None => assert_eq!(resolved(expand_tilde("~/x")), PathBuf::from("~/x")),
    }
}

#[test]
fn pins_stand_in_the_configuration_directory() {
    let config = Some(PathBuf::from("/home/u/.config"));
    let want = PathBuf::from("/home/u/.config/terax/ssh_known_hosts.json");
    assert_eq!(resolved(known_hosts_in(&config)), want);
    let want = PathBuf::from("./terax/ssh_known_hosts.json");
    assert_eq!(resolved(known_hosts_in(&None)), want);
    let base = dirs::config_dir().unwrap_or_else(|| PathBuf::from("."));
    let want = base.join("terax").join("ssh_known_hosts.json");
    assert_eq!(resolved(known_hosts_path()), want);
}

#[test]
fn the_command_stands_in_the_cache_directory() {
    let cache = Some(PathBuf::from("/home/u/.cache"));
    let want = PathBuf::from("/home/u/.cache/terax/bin");
    assert_eq!(cli_bin_in(&cache).map(resolved), Some(want));
    assert_eq!(cli_bin_in(&None), None);
    let want = dirs::cache_dir().map(|c| c.join("terax").join("bin"));
    assert_eq!(cli_bin_dir().map(resolved), want);
}

#[test]
fn remote_paths_lose_backslashes() {
    assert_eq!(canon_remote("C:\\Users\\u"), "C:/Users/u");
    assert_eq!(canon_remote(&canon_remote("a\\b/c")), "a/b/c");
}

#[test]
fn prefixes_lead_to_a_path() {
    assert_eq!(path_prefixes("/a/b/c"), texts(&["/", "/a", "/a/b", "/a/b/c"]));
    assert_eq!(path_prefixes("a/b"), texts(&["a", "a/b"]));
    assert_eq!(path_prefixes("/a//b/./c/"), texts(&["/", "/a", "/a/b", "/a/b/c"]));
    assert_eq!(path_prefixes("./a"), texts(&[".", "./a"]));
    assert_eq!(path_prefixes("/a/../b"), texts(&["/", "/a", "/a/..", "/a/../b"]));
    assert_eq!(path_prefixes(""), texts(&[]));
}

#[test]
fn prefixes_are_those_of_std() {
    for path in ["/a/b", "x/y/z", "./q/../r", "//h//i/", ".", "..", "/"] {
        let mut acc = PathBuf::new();
        let mut want: Vec<String> = Vec::new();
        for comp in std::path::Path::new(path).components() {
            acc.push(comp);
            want.push(acc.to_string_lossy().into_owned());
        }
        assert_eq!(path_prefixes(path), want, "{path}");
    }
}

#[test]
fn numbers_are_written_and_read_in_decimal() {
    for n in [0, 7, 10, 22, 65535, 1_234_567_890, u64::MAX] {
        assert_eq!(decimal_text(n), n.to_string());
        assert_eq!(parse_number(&decimal_text(n)), Some(n));
    }
    for s in ["", "+", "-1", "12a", " 1", "1 ", "18446744073709551616", "+5", "007", "٣"] {
        assert_eq!(parse_number(s), s.parse::<u64>().ok(), "{s:?}");
    }
}

#[test]
fn bytes_are_written_in_hexadecimal() {
    assert_eq!(hex_encode(&[]), "");
    assert_eq!(hex_encode(&[0, 1, 0x0f, 0x10, 0xab, 0xff]), "00010f10abff");
}

#[test]
fn white_space_is_that_of_std() {
    for n in 0..=0x10ffff {
        if let Some(c) = char::from_u32(n) {
            assert_eq!(is_whitespace(c), c.is_whitespace(), "{n:#x}");
        }
    }
}

#[test]
fn texts_are_trimmed_at_both_ends() {
    for s in ["", "  ", "\u{3000}a b\t\r\n", "x", "\u{a0}\u{2003}y"] {
        assert_eq!(trim(s), s.trim());
    }
}

#[test]
fn lines_are_those_of_std() {
    for s in ["", "\n", "a", "a\n", "a\r\nb", "\n\na\r", "a\r\r\nb\n\r\n", "x\ny\n\n"] {
        let want: Vec<String> = s.lines().map(str::to_owned).collect();
        assert_eq!(lines(s), want, "{s:?}");
    }
}

#[test]
fn small_text_operations() {
    assert!(same("é", "é") && !same("a", "b"));
    assert!(contains("straße", "raß") && contains("x", "") && !contains("ab", "ba"));
    assert_eq!(strip_prefix("~/x", "~/"), Some("x".to_string()));
    assert_eq!(strip_prefix("x", "~/"), None);
    assert_eq!(replace_char("a\\b", '\\', '/'), "a/b");
    assert_eq!(tail_after("/usr/bin/zsh", '/'), "zsh");
    assert_eq!(tail_after("zsh", '/'), "zsh");
    assert_eq!(tail_after("zsh/", '/'), "");
    assert_eq!(join_from(&texts(&["a", "b", "c"]), 1, " "), "b c");
    assert_eq!(join_from(&texts(&[]), 0, " "), "");
}

#[test]
fn sorting_is_stable_and_goes_by_rank_weight_and_text() {
    let key = |rank: u8, weight: usize, text: &str| SortKey { rank, weight, text: to_chars(text) };
    let keys = vec![
        key(1, 0, "a"),
        key(0, 2, "a"),
        key(0, 1, "b"),
        key(0, 1, "ab"),
        key(0, 1, "b"),
        key(0, 1, "a"),
    ];
    assert_eq!(stable_order(&keys), vec![5, 3, 2, 4, 1, 0]);
}

#[test]
fn tables_hold_values_by_name() {
    let mut t: Table<u32> = Table::new();
    t.insert("a".to_string(), 1);
    t.insert("b".to_string(), 2);
    t.insert("a".to_string(), 3);
    assert_eq!(t.len(), 2);
    assert_eq!(t.get("a"), Some(&3));
    assert_eq!(t.name(0), "a");
    assert_eq!(t.value(1), &2);
    assert_eq!(t.remove("a"), Some(3));
    assert_eq!(t.remove("a"), None);
    assert_eq!(t.get("a"), None);
    assert_eq!(t.get("b"), Some(&2));
    t.insert("c".to_string(), 4);
    assert_eq!(t.remove("c"), Some(4));
    assert_eq!((t.len(), t.name(0).as_str()), (1, "b"));
}
