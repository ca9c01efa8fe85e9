use terax::paths::{join_remote, rel_remote};
use terax::shell::sh_quote;

#[test]
fn sh_quote_escapes_single_quotes() {
    assert_eq!(sh_quote("a'b"), "'a'\\''b'");
    assert_eq!(sh_quote("plain"), "'plain'");
}

#[test]
fn join_and_rel_are_inverse() {
    assert_eq!(join_remote("/home/u", "src/a.rs"), "/home/u/src/a.rs");
    assert_eq!(join_remote("/home/u/", "src/a.rs"), "/home/u/src/a.rs");
    assert_eq!(rel_remote("/home/u", "/home/u/src/a.rs"), "src/a.rs");
    assert_eq!(rel_remote("/home/u/", "/home/u/src/a.rs"), "src/a.rs");
}

#[test]
fn sh_quote_keeps_everything_else() {
    assert_eq!(sh_quote(""), "''");
    assert_eq!(sh_quote("a b\n$HOME \"x\" \\"), "'a b\n$HOME \"x\" \\'");
    assert_eq!(sh_quote("'"), "''\\'''");
}

#[test]
fn joining_nothing_gives_the_root() {
    assert_eq!(join_remote("/home/u", ""), "/home/u");
    assert_eq!(join_remote("/", "etc"), "/etc");
    assert_eq!(join_remote("", "etc"), "/etc");
}

#[test]
fn paths_outside_the_root_stay_as_they_are() {
    assert_eq!(rel_remote("/home/u", "/etc/passwd"), "/etc/passwd");
    assert_eq!(rel_remote("/", "/etc/passwd"), "etc/passwd");
    assert_eq!(rel_remote("/home/u", "/home/u"), "");
    assert_eq!(rel_remote("/home/u///", "/home/u//x"), "x");
    assert_eq!(rel_remote("/home/u", "/home/user"), "ser");
}
