//! Paths. Those on a remote host are POSIX text: `/` is the only separator.
//! Those on this machine are put together by whoever uses them, since their
//! directories need not be text and their separators are the system's own.
use std::path::PathBuf;
use vstd::prelude::*;
use vstd::string::*;

use crate::text::{
    begins, drop_leading, drop_trailing, ends_with_char, find_char, first_index, from_chars,
    lemma_drop_leading, lemma_drop_trailing, lemma_first_index, lemma_first_index_found, replace_char,
    replaced, same, starts_with_char, strip_prefix, texts, to_chars,
};

verus! {

/// `rel` below `root`: a separator stands between them unless `root` ends
/// with one; an empty `rel` is `root` itself.
pub open spec fn below(root: Seq<char>, rel: Seq<char>) -> Seq<char> {
    if rel.len() == 0 {
        root
    } else if root.len() > 0 && root.last() == '/' {
        root + rel
    } else {
        root.push('/') + rel
    }
}

/// Whether a path is a directory's own or, past a separator, below it.
pub open spec fn at_or_below(path: Seq<char>, dir: Seq<char>) -> bool {
    ||| path == dir
    ||| {
        &&& dir.len() < path.len()
        &&& begins(path, dir)
        &&& dir.len() > 0 && dir.last() == '/' || path[dir.len() as int] == '/'
    }
}

/// What is named from a directory stands there or below.
pub proof fn lemma_below_stays(dir: Seq<char>, rel: Seq<char>)
    ensures
        at_or_below(below(dir, rel), dir),
{
    assert(below(dir, rel).take(dir.len() as int) =~= dir);
}

/// What stands below a directory stands below all that this one is below.
pub proof fn lemma_below_transitive(path: Seq<char>, dir: Seq<char>, root: Seq<char>)
    requires
        at_or_below(path, dir),
        at_or_below(dir, root),
    ensures
        at_or_below(path, root),
{
    if path != dir && dir != root {
        assert(path.take(root.len() as int) =~= dir.take(root.len() as int));
        assert(path[root.len() as int] == path.take(dir.len() as int)[root.len() as int]);
    }
}

/// What `abs` is called from `root`: without `root` (its trailing separators
/// apart) and the separators that follow; all of `abs` where it does not
/// begin with `root`.
pub open spec fn relative(root: Seq<char>, abs: Seq<char>) -> Seq<char> {
    let base = drop_trailing(root, |c: char| c == '/');
    if begins(abs, base) {
        drop_leading(abs.skip(base.len() as int), |c: char| c == '/')
    } else {
        abs
    }
}

/// Joins a remote directory and a path below it.
pub fn join_remote(root: &str, rel: &str) -> (r: String)
    ensures
        r@ == below(root@, rel@),
{
    let mut out = root.to_owned();
    if rel.is_empty() {
        return out;
    }
    if !ends_with_char(root, '/') {
        out.append("/");
        proof {
            reveal_strlit("/");
        }
        assert(out@ =~= root@.push('/'));
    }
    out.append(rel);
    out
}

/// Names a remote path from a directory above it.
pub fn rel_remote(root: &str, abs: &str) -> (r: String)
    ensures
        r@ == relative(root@, abs@),
{
    let slash = '/';
    let ghost p = |c: char| c == '/';
    let v = to_chars(root);
    let mut k: usize = v.len();
    while k > 0 && v[k - 1] == slash
        invariant
            slash == '/',
            k <= v@.len(),
            forall|j: int| k <= j < v@.len() ==> #[trigger] v@[j] == '/',
        decreases k,
    {
        k = k - 1;
    }
    proof {
        lemma_drop_trailing(v@, p, k as int);
    }
    let base = from_chars(&v, 0, k);
    assert(base@ =~= v@.take(k as int));
    match strip_prefix(abs, base.as_str()) {
        None => abs.to_owned(),
        Some(rest) => {
            let w = to_chars(rest.as_str());
            let mut a: usize = 0;
            while a < w.len() && w[a] == slash
                invariant
                    slash == '/',
                    a <= w@.len(),
                    forall|j: int| 0 <= j < a ==> #[trigger] w@[j] == '/',
                decreases w@.len() - a,
            {
                a = a + 1;
            }
            let r = from_chars(&w, a, w.len());
            proof {
                lemma_drop_leading(w@, p, a as int);
                assert(r@ =~= w@.skip(a as int));
            }
            r
        },
    }
}

proof fn lemma_trailing_shape(s: Seq<char>, p: spec_fn(char) -> bool)
    ensures
        drop_trailing(s, p).len() <= s.len(),
        drop_trailing(s, p) == s.take(drop_trailing(s, p).len() as int),
        forall|j: int| drop_trailing(s, p).len() <= j < s.len() ==> p(#[trigger] s[j]),
    decreases s.len(),
{
    if s.len() > 0 && p(s.last()) {
        lemma_trailing_shape(s.drop_last(), p);
        let n = drop_trailing(s, p).len() as int;
        assert(s.drop_last().take(n) =~= s.take(n));
        assert forall|j: int| n <= j < s.len() implies p(#[trigger] s[j]) by {
            if j < s.len() - 1 {
                assert(s.drop_last()[j] == s[j]);
            }
        }
    } else {
        assert(s.take(s.len() as int) =~= s);
    }
}

/// Naming a joined path from its root gives back what was joined, unless that
/// begins with a separator.
pub proof fn relative_undoes_below(root: Seq<char>, rel: Seq<char>)
    requires
        rel.len() > 0 ==> rel[0] != '/',
    ensures
        relative(root, below(root, rel)) == rel,
{
    let p = |c: char| c == '/';
    let base = drop_trailing(root, p);
    let abs = below(root, rel);
    lemma_trailing_shape(root, p);
    assert(abs.take(base.len() as int) =~= base);
    let tail = abs.skip(base.len() as int);
    let k = tail.len() - rel.len();
    assert forall|j: int| 0 <= j < k implies p(#[trigger] tail[j]) by {
        assert(tail[j] == abs[j + base.len()]);
        if j + base.len() < root.len() {
            assert(abs[j + base.len()] == root[j + base.len()]);
        }
    }
    assert(tail.skip(k) =~= rel);
    assert(k < tail.len() ==> tail[k] == rel[0]);
    lemma_drop_leading(tail, p, k);
}

/// Joining a root and the name of a path from that root gives the path back,
/// for each path that joining can make from a name without a leading separator.
pub proof fn below_undoes_relative(root: Seq<char>, abs: Seq<char>, rel: Seq<char>)
    requires
        abs == below(root, rel),
        rel.len() > 0 ==> rel[0] != '/',
    ensures
        below(root, relative(root, abs)) == abs,
{
    relative_undoes_below(root, rel);
}

/// A path that the server reported, with `/` for every backslash.
pub open spec fn canonical(p: Seq<char>) -> Seq<char> {
    replaced(p, '\\', '/')
}

/// Turns every backslash of a reported path into `/`.
pub fn canon_remote(p: &str) -> (r: String)
    ensures
        r@ == canonical(p@),
{
    replace_char(p, '\\', '/')
}

/// A canonical path has no backslash, and canonicalising it again changes nothing.
pub proof fn canonical_is_settled(p: Seq<char>)
    ensures
        !canonical(p).contains('\\'),
        canonical(canonical(p)) == canonical(p),
{
    assert(canonical(canonical(p)) =~= canonical(p));
}

/// The pieces of a path that stand between separators and name something:
/// empty pieces and `.` are left out, but for a `.` that the path begins with.
pub open spec fn components(s: Seq<char>, at_start: bool) -> Seq<Seq<char>>
    decreases s.len(),
    via components_shrinks
{
    if s.len() == 0 {
        Seq::empty()
    } else {
        let n = first_index(s, '/');
        let piece = s.take(n);
        let first = if names_something(piece, at_start) {
            seq![piece]
        } else {
            Seq::empty()
        };
        if n >= s.len() {
            first
        } else {
            first + components(s.skip(n + 1), false)
        }
    }
}

#[via_fn]
proof fn components_shrinks(s: Seq<char>, at_start: bool) {
    lemma_first_index_found(s, '/');
}

/// Whether a piece of a path is a component of it.
pub open spec fn names_something(piece: Seq<char>, at_start: bool) -> bool {
    piece.len() > 0 && (at_start || piece != seq!['.'])
}

/// Every path from `acc` down through `parts`, one component longer each.
pub open spec fn descents(acc: Seq<char>, parts: Seq<Seq<char>>) -> Seq<Seq<char>>
    decreases parts.len(),
{
    if parts.len() == 0 {
        Seq::empty()
    } else {
        let next = extended(acc, parts[0]);
        seq![next] + descents(next, parts.drop_first())
    }
}

/// `acc` with one more component.
pub open spec fn extended(acc: Seq<char>, part: Seq<char>) -> Seq<char> {
    if acc.len() == 0 {
        part
    } else {
        below(acc, part)
    }
}

/// The directories that lead to `path`, the outermost first and `path` itself
/// last; an absolute path starts at the root directory.
pub open spec fn prefixes(path: Seq<char>) -> Seq<Seq<char>> {
    if path.len() > 0 && path[0] == '/' {
        seq![seq!['/']] + descents(seq!['/'], components(path, true))
    } else {
        descents(Seq::empty(), components(path, true))
    }
}

fn path_components(path: &str) -> (r: Vec<String>)
    ensures
        texts(r@) == components(path@, true),
{
    let v = to_chars(path);
    let mut out: Vec<String> = Vec::new();
    let mut at: usize = 0;
    let mut at_start = true;
    assert(v@.skip(0) =~= v@);
    assert(texts(out@) + components(v@.skip(0), true) =~= components(path@, true));
    while at < v.len()
        invariant
            v@ == path@,
            at <= v@.len(),
            texts(out@) + components(v@.skip(at as int), at_start) == components(path@, true),
        decreases v@.len() - at,
    {
        let k = find_char(&v, at, '/');
        let ghost rest = v@.skip(at as int);
        let ghost before = texts(out@);
        let piece = from_chars(&v, at, k);
        assert(piece@ =~= rest.take(k - at));
        let keep = !piece.as_str().is_empty() && (at_start || !same(piece.as_str(), "."));
        proof {
            reveal_strlit(".");
            assert("."@ =~= seq!['.']);
        }
        assert(keep == names_something(piece@, at_start));
        let ghost shown = piece@;
        if keep {
            out.push(piece);
            assert(texts(out@) =~= before.push(shown));
        }
        let ghost first = if keep {
            seq![shown]
        } else {
            Seq::<Seq<char>>::empty()
        };
        assert(texts(out@) =~= before + first);
        if k < v.len() {
            assert(rest.skip(k - at + 1) =~= v@.skip(k + 1));
            assert(before + (first + components(v@.skip(k + 1), false)) =~= texts(out@)
                + components(v@.skip(k + 1), false));
            at = k + 1;
        } else {
            at = k;
            assert(texts(out@) + components(v@.skip(at as int), false) =~= before + first);
        }
        at_start = false;
    }
    assert(texts(out@) + components(v@.skip(at as int), at_start) =~= texts(out@));
    out
}

/// The directories that lead to a path, the outermost first.
pub fn path_prefixes(path: &str) -> (r: Vec<String>)
    ensures
        texts(r@) == prefixes(path@),
{
    let parts = path_components(path);
    let mut out: Vec<String> = Vec::new();
    let mut acc = String::new();
    if starts_with_char(path, '/') {
        acc.append("/");
        out.push(acc.clone());
        proof {
            reveal_strlit("/");
            assert(acc@ =~= seq!['/']);
        }
        assert(texts(out@) =~= seq![seq!['/']]);
    } else {
        assert(texts(out@) =~= Seq::<Seq<char>>::empty());
    }
    let ghost parts_seen = components(path@, true);
    let mut i: usize = 0;
    assert(parts_seen.skip(0) =~= parts_seen);
    assert(texts(out@) + descents(acc@, parts_seen.skip(0)) =~= prefixes(path@));
    while i < parts.len()
        invariant
            parts_seen == components(path@, true),
            texts(parts@) == parts_seen,
            i <= parts@.len(),
            texts(out@) + descents(acc@, parts_seen.skip(i as int)) == prefixes(path@),
        decreases parts@.len() - i,
    {
        let ghost before = texts(out@);
        let ghost left = parts_seen.skip(i as int);
        let part = &parts[i];
        assert(texts(parts@)[i as int] == part@);
        assert(left[0] == part@);
        assert(left.drop_first() =~= parts_seen.skip(i + 1));
        acc = if acc.as_str().is_empty() {
            part.clone()
        } else {
            join_remote(acc.as_str(), part.as_str())
        };
        out.push(acc.clone());
        assert(texts(out@) =~= before.push(acc@));
        assert(before + (seq![acc@] + descents(acc@, parts_seen.skip(i + 1))) =~= texts(out@)
            + descents(acc@, parts_seen.skip(i + 1)));
        i = i + 1;
    }
    assert(texts(out@) + descents(acc@, parts_seen.skip(i as int)) =~= texts(out@));
    out
}

/// `std::path::PathBuf`: a directory of this machine, whose name need not be
/// text. The library only carries it through.
#[verifier::external_type_specification]
#[verifier::external_body]
pub struct ExPathBuf(PathBuf);

/// A path on this machine: a directory, where it starts in one, and what is to
/// be joined to it in turn.
#[derive(Clone, Debug, PartialEq, Eq)]
pub struct LocalPath<L = Vec<String>> {
    pub dir: Option<PathBuf>,
    pub parts: L,
}

/// A path on this machine, as contracts speak of it.
pub type LocalView = LocalPath<Seq<Seq<char>>>;

impl View for LocalPath {
    type V = LocalView;

    open spec fn view(&self) -> LocalView {
        LocalPath { dir: self.dir, parts: texts(self.parts@) }
    }
}

/// Calls `PathBuf::clone`, which copies a path.
#[verifier::external_body]
fn clone_path(p: &PathBuf) -> (r: PathBuf)
    ensures
        r == *p,
{
    p.clone()
}

/// A copy of a directory, where there is one.
pub(crate) fn copy_dir(dir: &Option<PathBuf>) -> (r: Option<PathBuf>)
    ensures
        r == *dir,
{
    match dir {
        Some(d) => Some(clone_path(d)),
        None => None,
    }
}

impl LocalPath {
    /// A copy of the path.
    pub fn copy(&self) -> (r: LocalPath)
        ensures
            r@ == self@,
    {
        let mut parts: Vec<String> = Vec::new();
        let mut i: usize = 0;
        while i < self.parts.len()
            invariant
                i <= self.parts@.len(),
                parts@.len() == i,
                forall|j: int| 0 <= j < i ==> (#[trigger] parts@[j])@ == self.parts@[j]@,
            decreases self.parts@.len() - i,
        {
            parts.push(self.parts[i].clone());
            i = i + 1;
        }
        let r = LocalPath { dir: copy_dir(&self.dir), parts };
        assert(r@.parts =~= self@.parts);
        r
    }
}

/// A path that starts in no directory.
pub open spec fn plain_path(path: Seq<char>) -> LocalView {
    LocalPath { dir: None, parts: seq![path] }
}

/// Makes a path that starts in no directory.
pub fn local_path(path: String) -> (r: LocalPath)
    ensures
        r@ == plain_path(path@),
{
    let mut parts: Vec<String> = Vec::new();
    parts.push(path);
    let r = LocalPath { dir: None, parts };
    assert(r@.parts =~= seq![path@]);
    r
}

/// A path with the home directory in place of a leading `~/`, where there is
/// a home directory.
pub open spec fn tilde_expanded(path: Seq<char>, home: Option<PathBuf>) -> LocalView {
    if begins(path, "~/"@) && home is Some {
        LocalPath { dir: home, parts: seq![path.skip("~/"@.len() as int)] }
    } else {
        plain_path(path)
    }
}

/// Expands a leading `~/` with the given home directory.
pub fn expand_tilde_in(path: &str, home: &Option<PathBuf>) -> (r: LocalPath)
    ensures
        r@ == tilde_expanded(path@, *home),
{
    match (strip_prefix(path, "~/"), home) {
        (Some(rest), Some(_)) => {
            let mut parts: Vec<String> = Vec::new();
            parts.push(rest);
            let r = LocalPath { dir: copy_dir(home), parts };
            assert(r@.parts =~= seq![rest@]);
            r
        },
        _ => local_path(path.to_owned()),
    }
}

/// Calls `dirs::home_dir`. The contract says nothing of the answer, which the
/// environment gives.
#[verifier::external_body]
pub(crate) fn home_dir() -> (r: Option<PathBuf>) {
    dirs::home_dir()
}

/// Calls `dirs::config_dir`. The contract says nothing of the answer, which
/// the environment gives.
#[verifier::external_body]
pub(crate) fn config_dir() -> (r: Option<PathBuf>) {
    dirs::config_dir()
}

/// Calls `dirs::cache_dir`. The contract says nothing of the answer, which the
/// environment gives.
#[verifier::external_body]
fn cache_dir() -> (r: Option<PathBuf>) {
    dirs::cache_dir()
}

/// Expands a leading `~/` with the user's home directory, where there is one.
/// A path without that prefix stays as it is.
pub fn expand_tilde(path: &str) -> (r: LocalPath)
    ensures
        exists|home: Option<PathBuf>| r@ == #[trigger] tilde_expanded(path@, home),
        !begins(path@, "~/"@) ==> r@ == plain_path(path@),
{
    let home = home_dir();
    let r = expand_tilde_in(path, &home);
    assert(r@ == tilde_expanded(path@, home));
    r
}

/// Where the host keys are pinned, below the given configuration directory
/// or else below the current one.
pub open spec fn pins_below(config: Option<PathBuf>) -> LocalView {
    LocalPath {
        dir: config,
        parts: if config is Some {
            seq!["terax"@, "ssh_known_hosts.json"@]
        } else {
            seq!["."@, "terax"@, "ssh_known_hosts.json"@]
        },
    }
}

/// Names the pin file below the given configuration directory.
pub fn known_hosts_in(config: &Option<PathBuf>) -> (r: LocalPath)
    ensures
        r@ == pins_below(*config),
{
    let mut parts: Vec<String> = Vec::new();
    if config.is_none() {
        parts.push(".".to_owned());
    }
    parts.push("terax".to_owned());
    parts.push("ssh_known_hosts.json".to_owned());
    let r = LocalPath { dir: copy_dir(config), parts };
    assert(r@.parts =~= pins_below(*config).parts);
    r
}

/// Names the file in which the host keys are pinned.
pub fn known_hosts_path() -> (r: LocalPath)
    ensures
        exists|config: Option<PathBuf>| r@ == #[trigger] pins_below(config),
{
    let config = config_dir();
    let r = known_hosts_in(&config);
    assert(r@ == pins_below(config));
    r
}

/// The directory for the `terax` command below the given cache directory.
pub open spec fn bin_below(cache: Option<PathBuf>) -> Option<LocalView> {
    match cache {
        Some(c) => Some(LocalPath { dir: cache, parts: seq!["terax"@, "bin"@] }),
        None => None,
    }
}

/// What a path that may be missing is in contracts.
pub open spec fn maybe(p: Option<LocalPath>) -> Option<LocalView> {
    match p {
        Some(l) => Some(l@),
        None => None,
    }
}

/// Names the command directory below the given cache directory.
pub fn cli_bin_in(cache: &Option<PathBuf>) -> (r: Option<LocalPath>)
    ensures
        maybe(r) == bin_below(*cache),
{
    match cache {
        Some(_) => {
            let mut parts: Vec<String> = Vec::new();
            parts.push("terax".to_owned());
            parts.push("bin".to_owned());
            let r = LocalPath { dir: copy_dir(cache), parts };
            assert(r@.parts =~= seq!["terax"@, "bin"@]);
            Some(r)
        },
        None => None,
    }
}

/// Names the directory that holds the `terax` command, where there is a cache
/// directory.
pub fn cli_bin_dir() -> (r: Option<LocalPath>)
    ensures
        exists|cache: Option<PathBuf>| maybe(r) == #[trigger] bin_below(cache),
{
    let cache = cache_dir();
    let r = cli_bin_in(&cache);
    assert(maybe(r) == bin_below(cache));
    r
}

/// Joining keeps both paths whole and puts one separator between them where the
/// first does not end with one; joining nothing changes nothing.
pub proof fn joining_puts_one_separator(root: Seq<char>, rel: Seq<char>)
    ensures
        rel.len() == 0 ==> below(root, rel) == root,
        rel.len() > 0 ==> {
            let path = below(root, rel);
            let at = path.len() - rel.len();
            &&& path.take(root.len() as int) == root
            &&& path.skip(at) == rel
            &&& path[at - 1] == '/'
            &&& at == root.len() || at == root.len() + 1
            &&& at == root.len() <==> root.len() > 0 && root[root.len() - 1] == '/'
        },
{
    let path = below(root, rel);
    assert(path.take(root.len() as int) =~= root);
    assert(path.skip(path.len() - rel.len()) =~= rel);
}

/// Naming a path from a root takes the root off, and the separators behind it,
/// however many end the root; a path that does not begin with the root stays.
pub proof fn naming_takes_the_root_off(
    root: Seq<char>,
    ends: Seq<char>,
    gap: Seq<char>,
    rest: Seq<char>,
    other: Seq<char>,
)
    requires
        root.len() == 0 || root.last() != '/',
        forall|i: int| 0 <= i < ends.len() ==> #[trigger] ends[i] == '/',
        forall|i: int| 0 <= i < gap.len() ==> #[trigger] gap[i] == '/',
        rest.len() == 0 || rest[0] != '/',
        other.len() < root.len() || other.take(root.len() as int) != root,
    ensures
        relative(root + ends, root + gap + rest) == rest,
        relative(root + ends, other) == other,
{
    let p = |c: char| c == '/';
    let full = root + ends;
    let n = root.len() as int;
    assert forall|j: int| n <= j < full.len() implies p(#[trigger] full[j]) by {
        assert(full[j] == ends[j - n]);
    }
    lemma_drop_trailing(full, p, n);
    assert(full.take(n) =~= root);
    let abs = root + gap + rest;
    assert(abs.take(n) =~= root);
    let tail = abs.skip(n);
    let k = gap.len() as int;
    assert forall|j: int| 0 <= j < k implies p(#[trigger] tail[j]) by {
        assert(tail[j] == gap[j]);
    }
    if rest.len() > 0 {
        assert(tail[k] == rest[0]);
    }
    lemma_drop_leading(tail, p, k);
    assert(tail.skip(k) =~= rest);
}

/// A path that the server reports is kept place by place, but for backslashes.
pub proof fn reported_paths_are_kept(p: Seq<char>, i: int)
    requires
        0 <= i < p.len(),
    ensures
        canonical(p).len() == p.len(),
        p[i] == '\\' ==> canonical(p)[i] == '/',
        p[i] != '\\' ==> canonical(p)[i] == p[i],
{
}

proof fn lemma_components_concat(s: Seq<char>, t: Seq<char>, at_start: bool)
    ensures
        components(s + seq!['/'] + t, at_start) == components(s, at_start) + components(t, false),
    decreases s.len(),
{
    reveal_with_fuel(components, 2);
    let all = s + seq!['/'] + t;
    let n = first_index(s, '/');
    lemma_first_index_found(s, '/');
    assert forall|j: int| 0 <= j < n implies #[trigger] all[j] != '/' by {
        assert(all[j] == s[j]);
    }
    assert(all[n] == '/');
    lemma_first_index(all, '/', n);
    assert(all.take(n) =~= s.take(n));
    if n >= s.len() {
        assert(all.skip(n + 1) =~= t);
        assert(s.take(n) =~= s);
        if s.len() == 0 {
            assert(components(all, at_start) =~= components(t, false));
            assert(components(s, at_start) + components(t, false) =~= components(t, false));
        }
    } else {
        let rest = s.skip(n + 1);
        lemma_components_concat(rest, t, false);
        assert(all.skip(n + 1) =~= rest + seq!['/'] + t);
        let first = if names_something(s.take(n), at_start) {
            seq![s.take(n)]
        } else {
            Seq::empty()
        };
        assert(first + (components(rest, false) + components(t, false)) =~= (first + components(
            rest,
            false,
        )) + components(t, false));
    }
}

proof fn lemma_one_component(name: Seq<char>, at_start: bool)
    requires
        !name.contains('/'),
    ensures
        components(name, at_start) == (if names_something(name, at_start) {
            seq![name]
        } else {
            Seq::empty()
        }),
{
    assert forall|j: int| 0 <= j < name.len() implies #[trigger] name[j] != '/' by {
        assert(name.contains(name[j]));
    }
    lemma_first_index(name, '/', name.len() as int);
    assert(name.take(name.len() as int) =~= name);
}

proof fn lemma_descents_push(acc: Seq<char>, parts: Seq<Seq<char>>, part: Seq<char>)
    ensures
        descents(acc, parts).len() == parts.len(),
        descents(acc, parts.push(part)) == descents(acc, parts).push(
            extended(
                if parts.len() == 0 {
                    acc
                } else {
                    descents(acc, parts).last()
                },
                part,
            ),
        ),
    decreases parts.len(),
{
    reveal_with_fuel(descents, 2);
    let more = parts.push(part);
    if parts.len() == 0 {
        assert(more.drop_first() =~= Seq::<Seq<char>>::empty());
        assert(more[0] == part);
    } else {
        let next = extended(acc, parts[0]);
        lemma_descents_push(next, parts.drop_first(), part);
        assert(more.drop_first() =~= parts.drop_first().push(part));
        assert(more[0] == parts[0]);
    }
}

/// The directories that lead to a path: a name by itself is the only one, below
/// the root directory it is the second, and a name below any other directory is
/// one more than lead there. Separators at the end, separators in a row and a
/// dot below a directory add none.
pub proof fn a_name_more_is_a_directory_more(dir: Seq<char>, name: Seq<char>)
    requires
        name.len() > 0,
        !name.contains('/'),
        name != "."@,
        dir.len() > 0,
    ensures
        prefixes(Seq::empty()) == Seq::<Seq<char>>::empty(),
        prefixes("."@) == seq!["."@],
        prefixes("/"@) == seq!["/"@],
        prefixes(name) == seq![name],
        prefixes("/"@ + name) == seq!["/"@, "/"@ + name],
        prefixes(dir).len() > 0,
        prefixes(dir).last() == dir && dir != "/"@ ==> prefixes(dir + "/"@ + name) == prefixes(
            dir,
        ).push(dir + "/"@ + name),
        prefixes(dir + "/"@) == prefixes(dir),
        prefixes(dir + "/"@ + "."@) == prefixes(dir),
        prefixes(dir + "/"@ + "/"@ + name) == prefixes(dir + "/"@ + name),
{
    reveal_strlit("/");
    reveal_strlit(".");
    reveal_with_fuel(components, 2);
    reveal_with_fuel(descents, 3);
    let slash = seq!['/'];
    let dot = seq!['.'];
    let none = Seq::<char>::empty();
    assert("/"@ =~= slash);
    assert("."@ =~= dot);
    assert(!none.contains('/'));
    assert(!dot.contains('/'));
    lemma_one_component(none, true);
    lemma_one_component(none, false);
    lemma_one_component(dot, true);
    lemma_one_component(dot, false);
    lemma_one_component(name, true);
    lemma_one_component(name, false);
    assert(name.contains(name[0]));
    assert(prefixes(name) =~= seq![name]);
    assert(prefixes(dot) =~= seq![dot]);
    // The root directory.
    lemma_components_concat(none, none, true);
    assert(none + slash + none =~= slash);
    assert(components(slash, true) =~= Seq::<Seq<char>>::empty());
    assert(prefixes(slash) =~= seq![slash]);
    lemma_components_concat(none, name, true);
    assert(none + slash + name =~= slash + name);
    assert(components(slash + name, true) =~= seq![name]);
    assert(below(slash, name) =~= slash + name);
    assert(seq![name].drop_first() =~= Seq::<Seq<char>>::empty());
    assert(descents(slash, seq![name]) =~= seq![slash + name]);
    assert(prefixes(slash + name) =~= seq![slash, slash + name]);
    // Any directory.
    lemma_components_concat(dir, none, true);
    assert(dir + slash + none =~= dir + slash);
    assert(components(dir + slash, true) =~= components(dir, true));
    lemma_components_concat(dir, dot, true);
    assert(components(dir + slash + dot, true) =~= components(dir, true));
    lemma_components_concat(dir, name, true);
    lemma_components_concat(dir + slash, name, true);
    let parts = components(dir, true);
    assert(components(dir + slash + name, true) =~= parts.push(name));
    assert((dir + slash)[0] == dir[0] && (dir + slash + dot)[0] == dir[0]);
    assert((dir + slash + name)[0] == dir[0] && (dir + slash + slash + name)[0] == dir[0]);
    let acc = if dir[0] == '/' {
        slash
    } else {
        none
    };
    lemma_descents_push(acc, parts, name);
    if dir[0] != '/' {
        lemma_has_component(dir);
    }
    if prefixes(dir).last() == dir && dir != slash {
        if parts.len() == 0 {
            assert(dir[0] == '/');
            assert(descents(slash, parts) =~= Seq::<Seq<char>>::empty());
            assert(prefixes(dir) =~= seq![slash]);
        }
        let all = descents(acc, parts);
        assert(all.last() == prefixes(dir).last());
        lemma_descents_end(acc, parts);
        lemma_components_are_names(dir, true);
        assert(dir.last() != '/');
        assert(below(dir, name) =~= dir + slash + name);
        assert(prefixes(dir + slash + name) =~= prefixes(dir).push(dir + slash + name));
    }
}

proof fn lemma_has_component(s: Seq<char>)
    requires
        s.len() > 0,
        s[0] != '/',
    ensures
        components(s, true).len() > 0,
{
    lemma_first_index_found(s, '/');
    let n = first_index(s, '/');
    assert(n > 0);
}

proof fn lemma_components_are_names(s: Seq<char>, at_start: bool)
    ensures
        forall|i: int|
            0 <= i < components(s, at_start).len() ==> (#[trigger] components(s, at_start)[i]).len()
                > 0 && !components(s, at_start)[i].contains('/'),
    decreases s.len(),
{
    if s.len() > 0 {
        lemma_first_index_found(s, '/');
        let n = first_index(s, '/');
        let piece = s.take(n);
        assert(!piece.contains('/')) by {
            if piece.contains('/') {
                let j = choose|j: int| 0 <= j < piece.len() && piece[j] == '/';
                assert(s[j] == '/');
            }
        }
        if n < s.len() {
            let rest = s.skip(n + 1);
            lemma_components_are_names(rest, false);
            let all = components(s, at_start);
            let later = components(rest, false);
            let k = all.len() - later.len();
            assert forall|i: int| 0 <= i < all.len() implies (#[trigger] all[i]).len() > 0
                && !all[i].contains('/') by {
                if i >= k {
                    assert(all[i] == later[i - k]);
                }
            }
        }
    }
}

proof fn lemma_descents_end(acc: Seq<char>, parts: Seq<Seq<char>>)
    requires
        parts.len() > 0,
    ensures
        descents(acc, parts).len() == parts.len(),
        parts.last().len() > 0 ==> descents(acc, parts).last().last() == parts.last().last(),
    decreases parts.len(),
{
    let few = parts.drop_last();
    lemma_descents_push(acc, few, parts.last());
    assert(few.push(parts.last()) =~= parts);
}

/// A home directory stands for the tilde of a path that begins with one and a
/// separator. Any other path stays as it is, and so do all without a home
/// directory.
pub proof fn the_tilde_is_the_home_directory(rest: Seq<char>, path: Seq<char>, home: Option<PathBuf>)
    ensures
        home is Some ==> tilde_expanded("~/"@ + rest, home) == (LocalPath {
            dir: home,
            parts: seq![rest],
        }),
        home is None ==> tilde_expanded(path, home) == (LocalPath { dir: None, parts: seq![path] }),
        path.len() < 2 || path[0] != '~' || path[1] != '/' ==> tilde_expanded(path, home) == (
        LocalPath { dir: None, parts: seq![path] }),
{
    reveal_strlit("~/");
    assert(("~/"@ + rest).take(2) =~= "~/"@);
    assert(("~/"@ + rest).skip(2) =~= rest);
    if begins(path, "~/"@) {
        assert(path[0] == path.take(2)[0] && path[1] == path.take(2)[1]);
    }
}

/// The pin file stands in the directory of the app below the configuration
/// directory, or below the current one where there is none, and the directory
/// of the command below the cache directory.
pub proof fn files_of_the_app_have_their_places(base: PathBuf)
    ensures
        pins_below(Some(base)) == (LocalPath {
            dir: Some(base),
            parts: seq!["terax"@, "ssh_known_hosts.json"@],
        }),
        pins_below(None) == (LocalPath {
            dir: None,
            parts: seq!["."@, "terax"@, "ssh_known_hosts.json"@],
        }),
        bin_below(Some(base)) == Some(LocalPath { dir: Some(base), parts: seq!["terax"@, "bin"@] }),
        bin_below(None) is None,
{
}

} // verus!
