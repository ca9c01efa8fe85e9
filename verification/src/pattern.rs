//! Glob patterns, which the `globset` crate reads, compiles and matches.
use globset::GlobSet;
use vstd::prelude::*;
use vstd::string::*;
use vstd::utf8::*;

use crate::text::{from_chars, to_chars};

verus! {

/// How deep the alternates of a pattern may nest when it is handed to globset,
/// so that a stack of ordinary size holds the calls that read it. Deeper ones
/// are levelled first.
pub const MAX_NESTING: usize = 1000;

/// The longest pattern, in bytes, whose literals the matcher can number.
pub const MAX_PATTERN_BYTES: usize = 0x7fff_0000;

/// `globset::GlobSet`: patterns that are compiled.
#[verifier::external_type_specification]
#[verifier::external_body]
pub struct ExGlobSet(GlobSet);

/// The paths that the patterns of a set match, as `globset::GlobSet::is_match`
/// answers.
pub uninterp spec fn paths_in(set: GlobSet) -> Set<Seq<char>>;

/// What is said against a pattern by `globset::Glob::new`, or where that
/// accepts it by `globset::GlobSetBuilder::build`: `None` where both accept the
/// pattern, and else the text of the error.
pub uninterp spec fn glob_fault(pattern: Seq<char>) -> Option<Seq<char>>;

/// What `globset::Glob::new` finds wrong with a pattern, without the pattern
/// that its error repeats; `None` where it accepts the pattern.
pub uninterp spec fn glob_kind(pattern: Seq<char>) -> Option<Seq<char>>;

/// The paths that a pattern matches, read by `globset::Glob::new` with its
/// default options.
pub uninterp spec fn glob_paths(pattern: Seq<char>) -> Set<Seq<char>>;

/// Whether `std::path::is_separator` takes a character for a separator of
/// paths, on the system that the library is built for.
pub uninterp spec fn separates(c: char) -> bool;

/// Calls `std::path::is_separator`. The contract names the answer.
#[verifier::external_body]
fn is_separator(c: char) -> (r: bool)
    ensures
        r == separates(c),
{
    std::path::is_separator(c)
}

/// Where reading a pattern stands.
#[derive(Clone, Copy, Debug)]
pub enum Reading {
    /// Outside of classes.
    Plain,
    /// Right behind a backslash that takes the next character as it is.
    Escape,
    /// Right behind the bracket that opens a class.
    Opened,
    /// Before the first character of a class, which does not close it.
    First,
    /// In a class.
    Class,
    /// Behind a brace that closes what none opened.
    Stopped,
}

/// Where reading stands after a character that is no brace of alternates; a
/// backslash takes the next one as it is where it does not separate paths.
pub open spec fn read_next(r: Reading, c: char) -> Reading {
    match r {
        Reading::Stopped => Reading::Stopped,
        Reading::Escape => Reading::Plain,
        Reading::Opened => if c == '!' || c == '^' {
            Reading::First
        } else {
            Reading::Class
        },
        Reading::First => Reading::Class,
        Reading::Class => if c == ']' {
            Reading::Plain
        } else {
            Reading::Class
        },
        Reading::Plain => if c == '[' {
            Reading::Opened
        } else if c == '\\' && !separates('\\') {
            Reading::Escape
        } else {
            Reading::Plain
        },
    }
}

/// Whether a character opens alternates.
pub open spec fn opens(r: Reading, c: char) -> bool {
    r is Plain && c == '{'
}

/// Whether a character closes alternates.
pub open spec fn closes(r: Reading, c: char) -> bool {
    r is Plain && c == '}'
}

fn reading_after(r: Reading, c: char, escapes: bool) -> (n: Reading)
    requires
        escapes == !separates('\\'),
    ensures
        n == read_next(r, c),
{
    match r {
        Reading::Stopped => Reading::Stopped,
        Reading::Escape => Reading::Plain,
        Reading::Opened => if c == '!' || c == '^' {
            Reading::First
        } else {
            Reading::Class
        },
        Reading::First => Reading::Class,
        Reading::Class => if c == ']' {
            Reading::Plain
        } else {
            Reading::Class
        },
        Reading::Plain => if c == '[' {
            Reading::Opened
        } else if c == '\\' && escapes {
            Reading::Escape
        } else {
            Reading::Plain
        },
    }
}

fn is_plain(r: Reading) -> (b: bool)
    ensures
        b == (r is Plain),
{
    match r {
        Reading::Plain => true,
        _ => false,
    }
}

/// What was read of a pattern: for each brace that is open, how deep the
/// alternates nest that were closed in it, and how deep any nest.
pub struct Braces<L = Vec<usize>, N = usize> {
    pub reading: Reading,
    pub open: L,
    pub depth: N,
}

/// What was read of a pattern, as contracts speak of it.
pub type BracesView = Braces<Seq<nat>, nat>;

impl View for Braces {
    type V = BracesView;

    open spec fn view(&self) -> BracesView {
        Braces {
            reading: self.reading,
            open: Seq::new(self.open@.len(), |i: int| self.open@[i] as nat),
            depth: self.depth as nat,
        }
    }
}

/// The larger of two numbers.
pub open spec fn larger(a: nat, b: nat) -> nat {
    if a < b {
        b
    } else {
        a
    }
}

/// A brace closes the alternates that were opened last.
pub open spec fn closed(b: BracesView) -> BracesView {
    if b.open.len() == 0 {
        Braces { reading: Reading::Stopped, ..b }
    } else {
        let here = b.open.last() + 1;
        let around = b.open.drop_last();
        Braces {
            open: if around.len() == 0 {
                around
            } else {
                around.update(around.len() - 1, larger(around.last(), here))
            },
            depth: larger(b.depth, here),
            ..b
        }
    }
}

/// One more character of a pattern is read.
pub open spec fn brace_step(b: BracesView, c: char) -> BracesView {
    if opens(b.reading, c) {
        Braces { open: b.open.push(0), ..b }
    } else if closes(b.reading, c) {
        closed(b)
    } else {
        Braces { reading: read_next(b.reading, c), ..b }
    }
}

/// What is read of a pattern.
pub open spec fn braces_of(pattern: Seq<char>) -> BracesView
    decreases pattern.len(),
{
    if pattern.len() == 0 {
        Braces { reading: Reading::Plain, open: Seq::empty(), depth: 0 }
    } else {
        brace_step(braces_of(pattern.drop_last()), pattern.last())
    }
}

/// How deep the alternates of a pattern nest: `{a,{b,c}}` nests two deep. Braces
/// in classes and behind a backslash do not count, nor do those left open.
pub open spec fn nesting(pattern: Seq<char>) -> nat {
    braces_of(pattern).depth
}

/// A pattern while it is levelled: where in the new pattern the braces stand
/// that are open, each with whether nothing but braces and commas followed it,
/// and the new pattern.
pub struct Levelled {
    pub reading: Reading,
    pub open: Seq<(nat, bool)>,
    pub out: Seq<char>,
}

/// The alternates that were opened last hold something.
pub open spec fn filled(open: Seq<(nat, bool)>) -> Seq<(nat, bool)> {
    if open.len() == 0 {
        open
    } else {
        open.update(open.len() - 1, (open.last().0, false))
    }
}

/// One more character of a pattern is read: alternates that turn out to hold
/// nothing keep their outer braces alone.
pub open spec fn level_step(v: Levelled, c: char) -> Levelled {
    if opens(v.reading, c) {
        Levelled { open: v.open.push((v.out.len(), true)), out: v.out.push(c), ..v }
    } else if closes(v.reading, c) {
        if v.open.len() == 0 {
            Levelled { reading: Reading::Stopped, out: v.out.push(c), ..v }
        } else if v.open.last().1 {
            Levelled {
                open: v.open.drop_last(),
                out: v.out.take(v.open.last().0 as int + 1).push(c),
                ..v
            }
        } else {
            Levelled { open: filled(v.open.drop_last()), out: v.out.push(c), ..v }
        }
    } else {
        Levelled {
            reading: read_next(v.reading, c),
            open: if v.reading is Plain && c == ',' {
                v.open
            } else {
                filled(v.open)
            },
            out: v.out.push(c),
        }
    }
}

/// A pattern while it is levelled, once all of it is read.
pub open spec fn levelled_of(pattern: Seq<char>) -> Levelled
    decreases pattern.len(),
{
    if pattern.len() == 0 {
        Levelled { reading: Reading::Plain, open: Seq::empty(), out: Seq::empty() }
    } else {
        level_step(levelled_of(pattern.drop_last()), pattern.last())
    }
}

/// A pattern in which `{}` stands for all alternates that hold nothing, such as
/// `{{},{}}`. To globset both are one token that adds nothing to what a path
/// has to match, so the two patterns match the same paths.
pub open spec fn levelled(pattern: Seq<char>) -> Seq<char> {
    levelled_of(pattern).out
}

/// A pattern while it is defused: where the braces stand that are open, and
/// the new pattern.
pub struct Defused {
    pub reading: Reading,
    pub open: Seq<nat>,
    pub out: Seq<char>,
}

/// One more character of a pattern is read: commas take the place of braces
/// that belong together.
pub open spec fn defuse_step(d: Defused, c: char) -> Defused {
    if opens(d.reading, c) {
        Defused { open: d.open.push(d.out.len()), out: d.out.push(c), ..d }
    } else if closes(d.reading, c) {
        if d.open.len() == 0 {
            Defused { reading: Reading::Stopped, out: d.out.push(c), ..d }
        } else {
            Defused {
                open: d.open.drop_last(),
                out: d.out.update(d.open.last() as int, ',').push(','),
                ..d
            }
        }
    } else {
        Defused { reading: read_next(d.reading, c), out: d.out.push(c), ..d }
    }
}

/// A pattern while it is defused, once all of it is read.
pub open spec fn defused_of(pattern: Seq<char>) -> Defused
    decreases pattern.len(),
{
    if pattern.len() == 0 {
        Defused { reading: Reading::Plain, open: Seq::empty(), out: Seq::empty() }
    } else {
        defuse_step(defused_of(pattern.drop_last()), pattern.last())
    }
}

/// A pattern with commas in place of braces that belong together. It nests not
/// at all, and globset finds the same wrong with it: classes, escapes and
/// braces that stand alone are as they were, and a comma is never wrong.
pub open spec fn defused(pattern: Seq<char>) -> Seq<char> {
    defused_of(pattern).out
}

/// The first `i` characters of a defused pattern close nothing, and leave open
/// just the braces that are open and stand among them.
spec fn only_open(d: Defused, i: int) -> bool {
    let b = braces_of(d.out.take(i));
    &&& b.depth == 0
    &&& forall|j: int| 0 <= j < b.open.len() ==> #[trigger] b.open[j] == 0
    &&& forall|j: int| 0 <= j < d.open.len() ==> (#[trigger] d.open[j] < i <==> j < b.open.len())
    &&& b.open.len() <= d.open.len()
}

/// What holds while a pattern is defused.
spec fn defusing(d: Defused) -> bool {
    &&& forall|j: int| 0 <= j < d.open.len() ==> #[trigger] d.open[j] < d.out.len()
    &&& forall|j: int| 0 <= j < d.open.len() ==> d.out[#[trigger] d.open[j] as int] == '{'
    &&& forall|j: int|
        0 <= j < d.open.len() ==> braces_of(d.out.take(#[trigger] d.open[j] as int)).reading is Plain
    &&& forall|i: int, j: int|
        0 <= i < j < d.open.len() ==> #[trigger] d.open[i] < #[trigger] d.open[j]
    &&& forall|i: int| 0 <= i <= d.out.len() ==> #[trigger] only_open(d, i)
    &&& braces_of(d.out).reading == d.reading
}

/// Replacing the brace that was opened last leaves one brace less open behind
/// it and changes nothing else.
proof fn lemma_brace_gone(d: Defused, i: int)
    requires
        defusing(d),
        d.open.len() > 0,
        d.open.last() < i <= d.out.len(),
    ensures
        ({
            let b = braces_of(d.out.take(i));
            let g = braces_of(d.out.update(d.open.last() as int, ',').take(i));
            g == Braces { open: b.open.drop_last(), ..b }
        }),
    decreases i,
{
    let k = d.open.last() as int;
    let out2 = d.out.update(k, ',');
    assert(only_open(d, i));
    assert(only_open(d, i - 1));
    let n = d.open.len() - 1;
    assert(d.open[n] == k);
    let before = braces_of(d.out.take(i - 1));
    let b = braces_of(d.out.take(i));
    assert(d.out.take(i).drop_last() =~= d.out.take(i - 1));
    assert(out2.take(i).drop_last() =~= out2.take(i - 1));
    assert(b.open.len() == d.open.len()) by {
        assert(d.open[n] < i);
    }
    if i == k + 1 {
        assert(out2.take(k) =~= d.out.take(k));
        assert(before.reading is Plain);
        assert(b.open =~= before.open.push(0));
        assert(b.open.drop_last() =~= before.open);
    } else {
        lemma_brace_gone(d, i - 1);
        assert(before.open.len() == d.open.len()) by {
            assert(d.open[n] < i - 1);
        }
        let c = d.out[i - 1];
        assert(out2[i - 1] == c);
        // Nothing opens or closes here, since as many braces are open as before.
        if opens(before.reading, c) {
            assert(b.open.len() == before.open.len() + 1);
        }
        if closes(before.reading, c) {
            assert(b.open.len() == before.open.len() - 1 || before.open.len() == 0);
        }
    }
}

proof fn lemma_defuse_step(d: Defused, c: char)
    requires
        defusing(d),
    ensures
        defusing(defuse_step(d, c)),
{
    let e = defuse_step(d, c);
    let n = d.out.len() as int;
    assert(d.out.take(n) =~= d.out);
    assert(only_open(d, n));
    assert(e.out.take(n + 1) =~= e.out);
    assert(e.out.drop_last() =~= e.out.take(n));
    if closes(d.reading, c) && d.open.len() > 0 {
        let k = d.open.last() as int;
        let m = d.open.len() - 1;
        let mid = d.out.update(k, ',');
        assert(d.open[m] == k);
        assert(e.out.take(n) =~= mid);
        assert(mid.take(n) =~= mid);
        lemma_brace_gone(d, n);
        assert forall|i: int| 0 <= i <= e.out.len() implies #[trigger] only_open(e, i) by {
            if i <= k {
                assert(only_open(d, i));
                assert(e.out.take(i) =~= d.out.take(i));
                assert(!(d.open[m] < i));
                let b = braces_of(d.out.take(i));
                assert(b.open.len() <= m);
            } else if i <= n {
                assert(only_open(d, i));
                lemma_brace_gone(d, i);
                assert(e.out.take(i) =~= mid.take(i));
                assert(d.open[m] < i);
            } else {
                assert(only_open(d, n));
                assert(d.open[m] < n);
                let b = braces_of(e.out);
                assert(b == brace_step(braces_of(mid), ','));
                assert forall|j: int| 0 <= j < e.open.len() implies (#[trigger] e.open[j] < i
                    <==> j < b.open.len()) by {
                    assert(e.open[j] == d.open[j]);
                    assert(d.open[j] < n);
                }
            }
        }
        assert forall|j: int| 0 <= j < e.open.len() implies braces_of(
            e.out.take(#[trigger] e.open[j] as int),
        ).reading is Plain && e.out[e.open[j] as int] == '{' && e.open[j] < e.out.len() by {
            assert(e.open[j] == d.open[j]);
            assert(d.open[j] < d.open[m]);
            assert(e.out.take(e.open[j] as int) =~= d.out.take(d.open[j] as int));
        }
    } else {
        assert(e.out.take(n) =~= d.out);
        assert(braces_of(e.out) == brace_step(braces_of(d.out), c));
        assert forall|i: int| 0 <= i <= e.out.len() implies #[trigger] only_open(e, i) by {
            if i <= n {
                assert(only_open(d, i));
                assert(e.out.take(i) =~= d.out.take(i));
                let b = braces_of(d.out.take(i));
                assert forall|j: int| 0 <= j < e.open.len() implies (#[trigger] e.open[j] < i
                    <==> j < b.open.len()) by {
                    if j < d.open.len() {
                        assert(e.open[j] == d.open[j]);
                    }
                }
            } else {
                let b = braces_of(d.out);
                assert forall|j: int| 0 <= j < e.open.len() implies (#[trigger] e.open[j] < i
                    <==> j < braces_of(e.out).open.len()) by {
                    if j < d.open.len() {
                        assert(e.open[j] == d.open[j]);
                        assert(d.open[j] < n);
                    }
                }
                if closes(d.reading, c) {
                    assert(b.open.len() == 0);
                }
            }
        }
        assert forall|j: int| 0 <= j < e.open.len() implies braces_of(
            e.out.take(#[trigger] e.open[j] as int),
        ).reading is Plain && e.out[e.open[j] as int] == '{' && e.open[j] < e.out.len() by {
            if j < d.open.len() {
                assert(e.open[j] == d.open[j]);
                assert(e.out.take(e.open[j] as int) =~= d.out.take(d.open[j] as int));
            } else {
                assert(e.out.take(n) =~= d.out);
            }
        }
    }
}

proof fn lemma_defusing(pattern: Seq<char>)
    ensures
        defusing(defused_of(pattern)),
    decreases pattern.len(),
{
    if pattern.len() == 0 {
        let d = defused_of(pattern);
        assert forall|i: int| 0 <= i <= d.out.len() implies #[trigger] only_open(d, i) by {
            assert(d.out.take(i) =~= Seq::<char>::empty());
        }
    } else {
        lemma_defusing(pattern.drop_last());
        lemma_defuse_step(defused_of(pattern.drop_last()), pattern.last());
    }
}

/// A defused pattern does not nest.
pub proof fn defused_patterns_do_not_nest(pattern: Seq<char>)
    ensures
        nesting(defused(pattern)) == 0,
{
    let d = defused_of(pattern);
    lemma_defusing(pattern);
    assert(only_open(d, d.out.len() as int));
    assert(d.out.take(d.out.len() as int) =~= d.out);
}

/// Whether a pattern can be handed to globset as it is.
pub open spec fn manageable(pattern: Seq<char>) -> bool {
    nesting(pattern) <= MAX_NESTING && encode_utf8(pattern).len() <= MAX_PATTERN_BYTES
}

/// What is wrong with a pattern, if anything: what globset says, or that it is
/// too large to be compiled. A pattern that nests deep is read defused and
/// compiled levelled.
pub open spec fn pattern_fault(pattern: Seq<char>) -> Option<Seq<char>> {
    if manageable(pattern) {
        glob_fault(pattern)
    } else {
        match glob_kind(defused(pattern)) {
            Some(kind) => Some("error parsing glob '"@ + pattern + "': "@ + kind),
            None => if manageable(levelled(pattern)) {
                glob_fault(levelled(pattern))
            } else {
                Some("pattern is too large"@)
            },
        }
    }
}

/// The paths that a pattern matches that has no fault.
pub open spec fn pattern_paths(pattern: Seq<char>) -> Set<Seq<char>> {
    if manageable(pattern) {
        glob_paths(pattern)
    } else {
        glob_paths(levelled(pattern))
    }
}

/// Calls `globset::Glob::new`, which reads a pattern, with a stack frame for
/// each level of alternates. The contract names what `globset::Error::kind`
/// says of its error, or that there is none.
#[verifier::external_body]
fn read_pattern(pattern: &str) -> (r: Option<String>)
    requires
        nesting(pattern@) <= MAX_NESTING,
    ensures
        r.deep_view() == glob_kind(pattern@),
{
    globset::Glob::new(pattern).err().map(|e| e.kind().to_string())
}

/// Calls `globset::Glob::new`, which reads a pattern, and compiles it with
/// `globset::GlobSetBuilder::add` and `globset::GlobSetBuilder::build`. Reading
/// takes a stack frame for each level of alternates, and compiling panics on a
/// literal whose bytes it cannot number, so both are bounded. The contract
/// names the text of the error, or else the paths that match.
#[verifier::external_body]
fn compile(pattern: &str) -> (r: Result<GlobSet, String>)
    requires
        manageable(pattern@),
    ensures
        r is Ok <==> glob_fault(pattern@) is None,
        r is Ok ==> paths_in(r->Ok_0) == glob_paths(pattern@),
        r is Err ==> glob_fault(pattern@) == Some(r->Err_0@),
{
    let glob = globset::Glob::new(pattern).map_err(|e| e.to_string())?;
    let set = globset::GlobSetBuilder::new().add(glob).build();
    set.map_err(|e| e.to_string())
}

/// Calls `globset::GlobSet::is_match`. The contract says that the path is among
/// those that the patterns of the set match.
#[verifier::external_body]
pub(crate) fn is_match(set: &GlobSet, path: &str) -> (r: bool)
    ensures
        r == paths_in(*set).contains(path@),
{
    set.is_match(path)
}

/// How deep the alternates of a pattern nest.
pub fn nesting_of(pattern: &str) -> (r: usize)
    ensures
        r == nesting(pattern@),
{
    let v = to_chars(pattern);
    let escapes = !is_separator('\\');
    let mut reading = Reading::Plain;
    let mut open: Vec<usize> = Vec::new();
    let mut depth: usize = 0;
    let mut i: usize = 0;
    assert(v@.take(0) =~= Seq::<char>::empty());
    assert((Braces { reading, open, depth })@.open =~= Seq::<nat>::empty());
    while i < v.len()
        invariant
            v@ == pattern@,
            escapes == !separates('\\'),
            i <= v@.len(),
            depth <= i,
            forall|j: int| 0 <= j < open@.len() ==> #[trigger] open@[j] <= i,
            (Braces { reading, open, depth })@ == braces_of(v@.take(i as int)),
        decreases v@.len() - i,
    {
        let ghost before = (Braces { reading, open, depth })@;
        let c = v[i];
        assert(v@.take(i + 1).drop_last() =~= v@.take(i as int));
        assert(v@.take(i + 1).last() == c);
        if is_plain(reading) && c == '{' {
            open.push(0);
        } else if is_plain(reading) && c == '}' {
            match open.pop() {
                None => {
                    reading = Reading::Stopped;
                },
                Some(inner) => {
                    let here: usize = inner + 1;
                    let n: usize = open.len();
                    if n > 0 && open[n - 1] < here {
                        open[n - 1] = here;
                    }
                    if depth < here {
                        depth = here;
                    }
                },
            }
        } else {
            reading = reading_after(reading, c, escapes);
        }
        assert((Braces { reading, open, depth })@.open =~= brace_step(before, c).open);
        i = i + 1;
    }
    assert(v@.take(i as int) =~= v@);
    depth
}

spec fn places(open: Seq<(usize, bool)>) -> Seq<(nat, bool)> {
    Seq::new(open.len(), |i: int| (open[i].0 as nat, open[i].1))
}

/// Levels a pattern.
pub fn level(pattern: &str) -> (r: String)
    ensures
        r@ == levelled(pattern@),
{
    let v = to_chars(pattern);
    let escapes = !is_separator('\\');
    let mut reading = Reading::Plain;
    let mut open: Vec<(usize, bool)> = Vec::new();
    let mut out: Vec<char> = Vec::new();
    let mut i: usize = 0;
    assert(v@.take(0) =~= Seq::<char>::empty());
    assert(places(open@) =~= Seq::<(nat, bool)>::empty());
    while i < v.len()
        invariant
            v@ == pattern@,
            escapes == !separates('\\'),
            i <= v@.len(),
            out@.len() <= i,
            forall|j: int| 0 <= j < open@.len() ==> (#[trigger] open@[j]).0 < out@.len(),
            forall|j: int, k: int|
                0 <= j < k < open@.len() ==> (#[trigger] open@[j]).0 < (#[trigger] open@[k]).0,
            (Levelled { reading, open: places(open@), out: out@ }) == levelled_of(
                v@.take(i as int),
            ),
        decreases v@.len() - i,
    {
        let ghost before = Levelled { reading, open: places(open@), out: out@ };
        let c = v[i];
        assert(v@.take(i + 1).drop_last() =~= v@.take(i as int));
        assert(v@.take(i + 1).last() == c);
        let n: usize = open.len();
        if is_plain(reading) && c == '{' {
            open.push((out.len(), true));
            out.push(c);
            assert(places(open@) =~= before.open.push((before.out.len(), true)));
        } else if is_plain(reading) && c == '}' {
            match open.pop() {
                None => {
                    reading = Reading::Stopped;
                    out.push(c);
                },
                Some(last) => {
                    assert(places(open@) =~= before.open.drop_last());
                    assert(before.open.last() == (last.0 as nat, last.1));
                    if last.1 {
                        out.truncate(last.0 + 1);
                        assert(out@ =~= before.out.take(last.0 + 1));
                        out.push(c);
                    } else {
                        out.push(c);
                        let m: usize = open.len();
                        if m > 0 {
                            let k: usize = open[m - 1].0;
                            open[m - 1] = (k, false);
                        }
                        assert(places(open@) =~= filled(before.open.drop_last()));
                    }
                },
            }
        } else {
            if !(is_plain(reading) && c == ',') && n > 0 {
                let k: usize = open[n - 1].0;
                open[n - 1] = (k, false);
                assert(places(open@) =~= filled(before.open));
            }
            reading = reading_after(reading, c, escapes);
            out.push(c);
        }
        assert((Levelled { reading, open: places(open@), out: out@ }) == level_step(before, c));
        i = i + 1;
    }
    assert(v@.take(i as int) =~= v@);
    let r = from_chars(&out, 0, out.len());
    assert(r@ =~= out@);
    r
}

/// Defuses a pattern.
pub fn defuse(pattern: &str) -> (r: String)
    ensures
        r@ == defused(pattern@),
{
    let v = to_chars(pattern);
    let escapes = !is_separator('\\');
    let mut reading = Reading::Plain;
    let mut open: Vec<usize> = Vec::new();
    let mut out: Vec<char> = Vec::new();
    let mut i: usize = 0;
    let ghost at = |o: Seq<usize>| Seq::new(o.len(), |j: int| o[j] as nat);
    assert(v@.take(0) =~= Seq::<char>::empty());
    assert(at(open@) =~= Seq::<nat>::empty());
    while i < v.len()
        invariant
            v@ == pattern@,
            escapes == !separates('\\'),
            i <= v@.len(),
            out@.len() == i,
            at == (|o: Seq<usize>| Seq::new(o.len(), |j: int| o[j] as nat)),
            forall|j: int| 0 <= j < open@.len() ==> #[trigger] open@[j] < out@.len(),
            (Defused { reading, open: at(open@), out: out@ }) == defused_of(v@.take(i as int)),
        decreases v@.len() - i,
    {
        let ghost before = Defused { reading, open: at(open@), out: out@ };
        let c = v[i];
        assert(v@.take(i + 1).drop_last() =~= v@.take(i as int));
        assert(v@.take(i + 1).last() == c);
        if is_plain(reading) && c == '{' {
            open.push(out.len());
            out.push(c);
            assert(at(open@) =~= before.open.push(before.out.len()));
        } else if is_plain(reading) && c == '}' {
            match open.pop() {
                None => {
                    reading = Reading::Stopped;
                    out.push(c);
                },
                Some(k) => {
                    assert(at(open@) =~= before.open.drop_last());
                    assert(before.open.last() == k);
                    out[k] = ',';
                    out.push(',');
                },
            }
        } else {
            reading = reading_after(reading, c, escapes);
            out.push(c);
        }
        assert((Defused { reading, open: at(open@), out: out@ }) == defuse_step(before, c));
        i = i + 1;
    }
    assert(v@.take(i as int) =~= v@);
    let r = from_chars(&out, 0, out.len());
    assert(r@ =~= out@);
    r
}

fn is_manageable(pattern: &str) -> (r: bool)
    ensures
        r == manageable(pattern@),
{
    nesting_of(pattern) <= MAX_NESTING && pattern.as_bytes().len() <= MAX_PATTERN_BYTES
}

/// Whether a set that was compiled, or the text of what was wrong, is what a
/// pattern gives.
pub open spec fn compiles_to(
    pattern: Seq<char>,
    r: Result<GlobSet, String>,
) -> bool {
    match r {
        Ok(set) => pattern_fault(pattern) is None && paths_in(set) == pattern_paths(pattern),
        Err(e) => pattern_fault(pattern) == Some(e@),
    }
}

/// Compiles a pattern, or says what is wrong with it.
pub fn compile_pattern(pattern: &str) -> (r: Result<GlobSet, String>)
    ensures
        compiles_to(pattern@, r),
{
    if is_manageable(pattern) {
        return compile(pattern);
    }
    let bare = defuse(pattern);
    proof {
        defused_patterns_do_not_nest(pattern@);
    }
    if let Some(kind) = read_pattern(bare.as_str()) {
        let mut e = "error parsing glob '".to_owned().concat(pattern);
        e.append("': ");
        e.append(kind.as_str());
        return Err(e);
    }
    let level = level(pattern);
    if is_manageable(level.as_str()) {
        compile(level.as_str())
    } else {
        Err("pattern is too large".to_owned())
    }
}

/// Whether a text holds nothing that a pattern reads as more than a character
/// of its own or a separator of alternates.
pub open spec fn braceless(text: Seq<char>) -> bool {
    forall|i: int|
        0 <= i < text.len() ==> (#[trigger] text[i]) != '{' && text[i] != '}' && text[i] != '['
            && text[i] != '\\'
}

/// One character a number of times.
pub open spec fn times(c: char, n: nat) -> Seq<char> {
    Seq::new(n, |i: int| c)
}

/// A text between a number of braces.
pub open spec fn braced(text: Seq<char>, n: nat) -> Seq<char> {
    times('{', n) + text + times('}', n)
}

/// Reading a text on, a character at a time.
proof fn lemma_read_more(p: Seq<char>, c: char)
    ensures
        braces_of(p.push(c)) == brace_step(braces_of(p), c),
        levelled_of(p.push(c)) == level_step(levelled_of(p), c),
        defused_of(p.push(c)) == defuse_step(defused_of(p), c),
{
    assert(p.push(c).drop_last() =~= p);
}

proof fn lemma_braceless(before: Seq<char>, text: Seq<char>)
    requires
        braceless(text),
        braces_of(before).reading is Plain,
        levelled_of(before).reading is Plain,
        defused_of(before).reading is Plain,
    ensures
        braces_of(before + text) == braces_of(before),
        levelled_of(before + text).reading is Plain,
        levelled_of(before + text).out == levelled_of(before).out + text,
        levelled_of(before + text).open == levelled_of(before).open || levelled_of(
            before + text,
        ).open == filled(levelled_of(before).open),
        text.len() > 0 && text[0] != ',' ==> levelled_of(before + text).open == filled(
            levelled_of(before).open,
        ),
        defused_of(before + text).reading is Plain,
        defused_of(before + text).open == defused_of(before).open,
        defused_of(before + text).out == defused_of(before).out + text,
    decreases text.len(),
{
    if text.len() == 0 {
        assert(before + text =~= before);
        assert(levelled_of(before).out + text =~= levelled_of(before).out);
        assert(defused_of(before).out + text =~= defused_of(before).out);
    } else {
        let few = text.drop_last();
        let c = text.last();
        assert(c == text[text.len() - 1]);
        assert forall|i: int| 0 <= i < few.len() implies (#[trigger] few[i]) != '{' && few[i]
            != '}' && few[i] != '[' && few[i] != '\\' by {
            assert(few[i] == text[i]);
        }
        lemma_braceless(before, few);
        assert(before + text =~= (before + few).push(c));
        lemma_read_more(before + few, c);
        let open = levelled_of(before).open;
        assert(filled(filled(open)) =~= filled(open));
        assert(levelled_of(before + text).out =~= levelled_of(before).out + text);
        assert(defused_of(before + text).out =~= defused_of(before).out + text);
        if few.len() > 0 {
            assert(few[0] == text[0]);
        }
    }
}

proof fn lemma_opened(before: Seq<char>, n: nat)
    requires
        braceless(before),
    ensures
        ({
            let p = before + times('{', n);
            &&& braces_of(p) == (BracesView {
                reading: Reading::Plain,
                open: Seq::new(n, |i: int| 0nat),
                depth: 0,
            })
            &&& levelled_of(p) == (Levelled {
                reading: Reading::Plain,
                open: Seq::new(n, |i: int| ((before.len() + i) as nat, true)),
                out: p,
            })
            &&& defused_of(p) == (Defused {
                reading: Reading::Plain,
                open: Seq::new(n, |i: int| (before.len() + i) as nat),
                out: p,
            })
        }),
    decreases n,
{
    let none = Seq::<char>::empty();
    let p = before + times('{', n);
    if n == 0 {
        assert(p =~= before);
        assert(none + before =~= before);
        lemma_braceless(none, before);
        assert(filled(Seq::empty()) == Seq::<(nat, bool)>::empty());
        assert(levelled_of(p).open =~= Seq::new(n, |i: int| ((before.len() + i) as nat, true)));
        assert(defused_of(p).open =~= Seq::new(n, |i: int| (before.len() + i) as nat));
        assert(braces_of(p).open =~= Seq::new(n, |i: int| 0nat));
        assert(levelled_of(p).out =~= p);
        assert(defused_of(p).out =~= p);
    } else {
        let m = (n - 1) as nat;
        let q = before + times('{', m);
        lemma_opened(before, m);
        assert(p =~= q.push('{'));
        lemma_read_more(q, '{');
        assert(levelled_of(p).open =~= Seq::new(n, |i: int| ((before.len() + i) as nat, true)));
        assert(defused_of(p).open =~= Seq::new(n, |i: int| (before.len() + i) as nat));
        assert(braces_of(p).open =~= Seq::new(n, |i: int| 0nat));
    }
}

proof fn lemma_closed_some(before: Seq<char>, text: Seq<char>, n: nat, k: nat)
    requires
        braceless(before),
        braceless(text),
        k <= n,
    ensures
        ({
            let p = before + times('{', n) + text + times('}', k);
            let b = braces_of(p);
            let d = defused_of(p);
            &&& b.reading is Plain
            &&& b.depth == k
            &&& b.open.len() == n - k
            &&& k < n ==> b.open.last() == k
            &&& forall|i: int| 0 <= i < n - k - 1 ==> #[trigger] b.open[i] == 0
            &&& d.reading is Plain
            &&& d.open == Seq::new((n - k) as nat, |i: int| (before.len() + i) as nat)
            &&& d.out == before + times('{', (n - k) as nat) + times(',', k) + text + times(',', k)
        }),
    decreases k,
{
    let start = before + times('{', n);
    let p = start + text + times('}', k);
    lemma_opened(before, n);
    lemma_braceless(start, text);
    if k == 0 {
        assert(p =~= start + text);
        assert(defused_of(p).out =~= before + times('{', n) + times(',', 0) + text + times(',', 0));
        assert(defused_of(p).open =~= Seq::new(n, |i: int| (before.len() + i) as nat));
    } else {
        let m = (k - 1) as nat;
        let q = start + text + times('}', m);
        lemma_closed_some(before, text, n, m);
        assert(p =~= q.push('}'));
        lemma_read_more(q, '}');
        let dq = defused_of(q);
        assert(dq.open.last() == before.len() + (n - m - 1));
        assert(defused_of(p).out =~= before + times('{', (n - k) as nat) + times(',', k) + text
            + times(',', k));
        assert(defused_of(p).open =~= Seq::new((n - k) as nat, |i: int| (before.len() + i) as nat));
    }
}

proof fn lemma_levelled_some(before: Seq<char>, text: Seq<char>, n: nat, k: nat)
    requires
        braceless(before),
        braceless(text),
        text.len() > 0 ==> text[0] != ',',
        k <= n,
    ensures
        ({
            let p = before + times('{', n) + text + times('}', k);
            let v = levelled_of(p);
            &&& v.reading is Plain
            &&& v.open.len() == n - k
            &&& forall|i: int|
                0 <= i < n - k ==> (#[trigger] v.open[i]).0 == before.len() + i && v.open[i].1 == (
                i < n - k - 1 || text.len() == 0)
            &&& text.len() > 0 || k == 0 ==> v.out == p
            &&& text.len() == 0 && k > 0 ==> v.out == before + times('{', (n - k) as nat) + seq![
                '{',
                '}',
            ]
        }),
    decreases k,
{
    let start = before + times('{', n);
    let p = start + text + times('}', k);
    lemma_opened(before, n);
    lemma_braceless(start, text);
    if k == 0 {
        assert(p =~= start + text);
        if text.len() == 0 {
            assert(start + text =~= start);
        }
        assert(levelled_of(p).out =~= p);
    } else {
        let m = (k - 1) as nat;
        let q = start + text + times('}', m);
        lemma_levelled_some(before, text, n, m);
        assert(p =~= q.push('}'));
        lemma_read_more(q, '}');
        let v = levelled_of(q);
        assert(v.open.last() == v.open[n - m - 1]);
        if text.len() == 0 {
            let cut = v.out.take(v.open.last().0 as int + 1);
            assert(cut =~= before + times('{', (n - k) as nat) + seq!['{']);
            assert(levelled_of(p).out =~= before + times('{', (n - k) as nat) + seq!['{', '}']);
        } else {
            assert(levelled_of(p).out =~= p);
        }
    }
}

/// Alternates nest as deep as braces stand around a text; a pattern without
/// braces nests not at all, and neither do braces that are not closed.
pub proof fn nesting_counts_the_braces_around(before: Seq<char>, text: Seq<char>, n: nat)
    requires
        braceless(before),
        braceless(text),
    ensures
        nesting(before) == 0,
        nesting(before + times('{', n)) == 0,
        nesting(before + times('{', n) + text + times('}', n)) == n,
{
    lemma_opened(before, n);
    lemma_opened(before, 0);
    assert(before + times('{', 0) =~= before);
    lemma_closed_some(before, text, n, n);
}

/// Levelling leaves a pattern as it is but for alternates that hold nothing,
/// which it makes one pair of braces, however many there were.
pub proof fn levelling_takes_empty_braces_together(
    before: Seq<char>,
    text: Seq<char>,
    behind: Seq<char>,
    n: nat,
)
    requires
        braceless(before),
        braceless(text),
        braceless(behind),
        text.len() > 0 && text[0] != ',',
    ensures
        levelled(before) == before,
        n > 0 ==> levelled(before + times('{', n) + times('}', n) + behind) == before + seq!['{', '}']
            + behind,
        levelled(before + times('{', n) + text + times('}', n) + behind) == before + times('{', n)
            + text + times('}', n) + behind,
{
    let none = Seq::<char>::empty();
    lemma_opened(before, 0);
    assert(before + times('{', 0) =~= before);
    let empty = before + times('{', n) + none + times('}', n);
    let full = before + times('{', n) + text + times('}', n);
    lemma_levelled_some(before, none, n, n);
    lemma_levelled_some(before, text, n, n);
    lemma_closed_some(before, none, n, n);
    lemma_closed_some(before, text, n, n);
    lemma_braceless(empty, behind);
    lemma_braceless(full, behind);
    assert(empty =~= before + times('{', n) + times('}', n));
    assert(before + times('{', 0) + seq!['{', '}'] =~= before + seq!['{', '}']);
}

/// Defusing puts commas for braces that belong together and leaves all else as
/// it is.
pub proof fn defusing_puts_commas_for_braces(
    before: Seq<char>,
    text: Seq<char>,
    behind: Seq<char>,
    n: nat,
)
    requires
        braceless(before),
        braceless(text),
        braceless(behind),
    ensures
        defused(before) == before,
        defused(before + times('{', n)) == before + times('{', n),
        defused(before + times('{', n) + text + times('}', n) + behind) == before + times(',', n)
            + text + times(',', n) + behind,
{
    lemma_opened(before, n);
    lemma_opened(before, 0);
    assert(before + times('{', 0) =~= before);
    let p = before + times('{', n) + text + times('}', n);
    lemma_closed_some(before, text, n, n);
    lemma_levelled_some_reading(before, text, n);
    lemma_braceless(p, behind);
    assert(before + times('{', 0) + times(',', n) + text + times(',', n) =~= before + times(',', n)
        + text + times(',', n));
}

proof fn lemma_levelled_some_reading(before: Seq<char>, text: Seq<char>, n: nat)
    requires
        braceless(before),
        braceless(text),
    ensures
        levelled_of(before + times('{', n) + text + times('}', n)).reading is Plain,
{
    lemma_opened(before, n);
    lemma_braceless(before + times('{', n), text);
    lemma_closing_reads_plain(before + times('{', n) + text, n, n);
}

proof fn lemma_closing_reads_plain(p: Seq<char>, n: nat, k: nat)
    requires
        levelled_of(p).reading is Plain,
        levelled_of(p).open.len() == n,
        k <= n,
    ensures
        levelled_of(p + times('}', k)).reading is Plain,
        levelled_of(p + times('}', k)).open.len() == n - k,
    decreases k,
{
    if k == 0 {
        assert(p + times('}', 0) =~= p);
    } else {
        let m = (k - 1) as nat;
        lemma_closing_reads_plain(p, n, m);
        assert(p + times('}', k) =~= (p + times('}', m)).push('}'));
        lemma_read_more(p + times('}', m), '}');
    }
}

/// A pattern that nests up to a thousand levels, and is not too long, has the
/// faults that globset finds in it and matches the paths that it matches. A
/// pattern that nests deeper has the fault that globset finds in it defused,
/// under its own name; without one it is what it is levelled, or is too large.
pub proof fn patterns_are_taken_as_globset_takes_them(pattern: Seq<char>)
    ensures
        ({
            let fits = nesting(pattern) <= 1000 && encode_utf8(pattern).len() <= 2_147_418_112;
            let level = levelled(pattern);
            let level_fits = nesting(level) <= 1000 && encode_utf8(level).len() <= 2_147_418_112;
            &&& fits ==> pattern_fault(pattern) == glob_fault(pattern)
            &&& fits ==> pattern_paths(pattern) == glob_paths(pattern)
            &&& !fits ==> pattern_paths(pattern) == glob_paths(level)
            &&& !fits && glob_kind(defused(pattern)) is Some ==> pattern_fault(pattern) == Some(
                "error parsing glob '"@ + pattern + "': "@ + glob_kind(defused(pattern))->0,
            )
            &&& !fits && glob_kind(defused(pattern)) is None && level_fits ==> pattern_fault(pattern)
                == glob_fault(level)
            &&& !fits && glob_kind(defused(pattern)) is None && !level_fits ==> pattern_fault(
                pattern,
            ) == Some("pattern is too large"@)
        }),
{
}

/// Alternates that hold nothing may nest as deep as they like: the pattern
/// matches what it matches with one pair of braces for them all.
pub proof fn empty_alternates_may_nest(before: Seq<char>, behind: Seq<char>, n: nat)
    requires
        braceless(before),
        braceless(behind),
        n > 1000,
        glob_kind(before + times(',', n) + times(',', n) + behind) is None,
        encode_utf8(before + seq!['{', '}'] + behind).len() <= 2_147_418_112,
    ensures
        ({
            let pattern = before + times('{', n) + times('}', n) + behind;
            let one = before + seq!['{', '}'] + behind;
            pattern_fault(pattern) == glob_fault(one) && pattern_paths(pattern) == glob_paths(one)
        }),
{
    let none = Seq::<char>::empty();
    let pattern = before + times('{', n) + times('}', n) + behind;
    let deep = before + times('{', n) + none + times('}', n);
    let one = before + seq!['{', '}'] + behind;
    assert(deep + behind =~= pattern);
    lemma_closed_some(before, none, n, n);
    lemma_levelled_some(before, none, n, n);
    lemma_braceless(deep, behind);
    assert(nesting(pattern) == n);
    defusing_puts_commas_for_braces(before, none, behind, n);
    assert(before + times('{', n) + none + times('}', n) + behind =~= pattern);
    assert(before + times(',', n) + none + times(',', n) + behind =~= before + times(',', n)
        + times(',', n) + behind);
    assert(levelled(pattern) =~= one);
    lemma_closed_some(before, none, 1, 1);
    lemma_levelled_some(before, none, 1, 1);
    let small = before + times('{', 1) + none + times('}', 1);
    lemma_braceless(small, behind);
    assert(small + behind =~= one);
}

proof fn lemma_in_class(before: Seq<char>, text: Seq<char>)
    requires
        braceless(before),
        text.len() > 0,
        text[0] != '!' && text[0] != '^',
        forall|i: int| 0 < i < text.len() ==> #[trigger] text[i] != ']',
    ensures
        ({
            let p = before + seq!['['] + text;
            &&& braces_of(p).reading is Class
            &&& braces_of(p).open.len() == 0 && braces_of(p).depth == 0
            &&& levelled_of(p).reading is Class
            &&& levelled_of(p).open.len() == 0 && levelled_of(p).out == p
            &&& defused_of(p).reading is Class
            &&& defused_of(p).open.len() == 0 && defused_of(p).out == p
        }),
    decreases text.len(),
{
    let p = before + seq!['['] + text;
    let few = text.drop_last();
    let q = before + seq!['['] + few;
    assert(p =~= q.push(text.last()));
    lemma_read_more(q, text.last());
    if few.len() == 0 {
        lemma_opened(before, 0);
        assert(before + times('{', 0) =~= before);
        assert(q =~= before.push('['));
        lemma_read_more(before, '[');
        assert(levelled_of(p).out =~= p);
        assert(defused_of(p).out =~= p);
    } else {
        assert(few[0] == text[0]);
        assert forall|i: int| 0 < i < few.len() implies #[trigger] few[i] != ']' by {
            assert(few[i] == text[i]);
        }
        lemma_in_class(before, few);
        assert(text.last() == text[text.len() - 1]);
        assert(levelled_of(p).out =~= p);
        assert(defused_of(p).out =~= p);
    }
}

/// Braces in a class of characters are characters, and so is one behind a
/// backslash, where that does not separate paths: they open and close nothing.
pub proof fn braces_can_be_characters(before: Seq<char>, text: Seq<char>, c: char)
    requires
        braceless(before),
        text.len() > 0,
        text[0] != '!' && text[0] != '^',
        forall|i: int| 0 < i < text.len() ==> #[trigger] text[i] != ']',
    ensures
        ({
            let p = before + seq!['['] + text + seq![']'];
            nesting(p) == 0 && levelled(p) == p && defused(p) == p
        }),
        !separates('\\') ==> {
            let p = before + seq!['\\', c];
            nesting(p) == 0 && levelled(p) == p && defused(p) == p
        },
{
    let q = before + seq!['['] + text;
    let p = q + seq![']'];
    lemma_in_class(before, text);
    assert(p =~= q.push(']'));
    lemma_read_more(q, ']');
    assert(levelled_of(p).out =~= p);
    assert(defused_of(p).out =~= p);
    if !separates('\\') {
        let e = before.push('\\');
        let f = before + seq!['\\', c];
        lemma_opened(before, 0);
        assert(before + times('{', 0) =~= before);
        lemma_read_more(before, '\\');
        lemma_read_more(e, c);
        assert(f =~= e.push(c));
        assert(levelled_of(f).out =~= f);
        assert(defused_of(f).out =~= f);
    }
}

} // verus!
