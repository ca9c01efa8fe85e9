//! Strings as sequences of characters: the small text operations that the
//! rest of the library is written with.
use vstd::prelude::*;
use vstd::string::*;

verus! {

/// Whether a character has the Unicode property White_Space.
pub open spec fn whitespace(c: char) -> bool {
    ||| '\t' <= c <= '\r'
    ||| c == ' '
    ||| c == '\u{85}'
    ||| c == '\u{a0}'
    ||| c == '\u{1680}'
    ||| '\u{2000}' <= c <= '\u{200a}'
    ||| c == '\u{2028}'
    ||| c == '\u{2029}'
    ||| c == '\u{202f}'
    ||| c == '\u{205f}'
    ||| c == '\u{3000}'
}

/// What `str::to_lowercase` makes of a text that is not all ASCII.
pub uninterp spec fn unicode_lowercase(s: Seq<char>) -> Seq<char>;

/// Whether all characters of a text are ASCII.
pub open spec fn all_ascii(s: Seq<char>) -> bool {
    forall|i: int| 0 <= i < s.len() ==> #[trigger] s[i] < '\u{80}'
}

/// The small letter for a capital of the ASCII alphabet; any other character
/// stays as it is.
pub open spec fn ascii_lower(c: char) -> char {
    if 'A' <= c <= 'Z' {
        (c as u32 + 32) as char
    } else {
        c
    }
}

/// A text with small letters for the capitals of the ASCII alphabet.
pub open spec fn ascii_lowered(s: Seq<char>) -> Seq<char> {
    Seq::new(s.len(), |i: int| ascii_lower(s[i]))
}

/// A text in lower case.
pub open spec fn lowercase(s: Seq<char>) -> Seq<char> {
    if all_ascii(s) {
        ascii_lowered(s)
    } else {
        unicode_lowercase(s)
    }
}

/// Whether a character is white space.
pub fn is_whitespace(c: char) -> (b: bool)
    ensures
        b == whitespace(c),
{
    ('\t' <= c && c <= '\r') || c == ' ' || c == '\u{85}' || c == '\u{a0}' || c == '\u{1680}' || (
    '\u{2000}' <= c && c <= '\u{200a}') || c == '\u{2028}' || c == '\u{2029}' || c == '\u{202f}'
        || c == '\u{205f}' || c == '\u{3000}'
}

/// Calls `str::to_lowercase`, the Unicode lower-case mapping. The contract says
/// what it does to ASCII text and names what comes back of any other.
#[verifier::external_body]
pub(crate) fn to_lowercase(s: &str) -> (r: String)
    ensures
        all_ascii(s@) ==> r@ == ascii_lowered(s@),
        !all_ascii(s@) ==> r@ == unicode_lowercase(s@),
{
    s.to_lowercase()
}

/// Calls `String::push`, which appends one character.
#[verifier::external_body]
pub(crate) fn push_char(s: &mut String, c: char)
    ensures
        final(s)@ == old(s)@.push(c),
{
    s.push(c)
}

/// The characters of a text, in order.
pub fn to_chars(s: &str) -> (v: Vec<char>)
    ensures
        v@ == s@,
{
    let mut v: Vec<char> = Vec::new();
    for c in it: s.chars()
        invariant
            v@ == it.seq().take(it.index() as int),
            it.seq() == s@,
    {
        v.push(c);
    }
    v
}

/// The text between two positions of a sequence of characters.
pub fn from_chars(v: &Vec<char>, from: usize, to: usize) -> (s: String)
    requires
        from <= to <= v@.len(),
    ensures
        s@ == v@.subrange(from as int, to as int),
{
    let mut s = String::new();
    let mut i: usize = from;
    while i < to
        invariant
            from <= i <= to <= v@.len(),
            s@ == v@.subrange(from as int, i as int),
        decreases to - i,
    {
        push_char(&mut s, v[i]);
        i = i + 1;
        assert(s@ =~= v@.subrange(from as int, i as int));
    }
    s
}

/// Whether two texts are the same.
pub fn same(a: &str, b: &str) -> (r: bool)
    ensures
        r == (a@ == b@),
{
    let x = a.to_owned();
    let y = b.to_owned();
    x == y
}

/// `s` without its longest run of leading characters that satisfy `p`.
pub open spec fn drop_leading(s: Seq<char>, p: spec_fn(char) -> bool) -> Seq<char>
    decreases s.len(),
{
    if s.len() > 0 && p(s[0]) {
        drop_leading(s.drop_first(), p)
    } else {
        s
    }
}

/// `s` without its longest run of trailing characters that satisfy `p`.
pub open spec fn drop_trailing(s: Seq<char>, p: spec_fn(char) -> bool) -> Seq<char>
    decreases s.len(),
{
    if s.len() > 0 && p(s.last()) {
        drop_trailing(s.drop_last(), p)
    } else {
        s
    }
}

/// `s` without the white space at both its ends.
pub open spec fn trimmed(s: Seq<char>) -> Seq<char> {
    drop_trailing(drop_leading(s, |c: char| whitespace(c)), |c: char| whitespace(c))
}

/// Skipping characters that satisfy `p` skips what `drop_leading` drops.
pub proof fn lemma_drop_leading(s: Seq<char>, p: spec_fn(char) -> bool, k: int)
    requires
        0 <= k <= s.len(),
        forall|j: int| 0 <= j < k ==> p(#[trigger] s[j]),
        k < s.len() ==> !p(s[k]),
    ensures
        drop_leading(s, p) == s.skip(k),
    decreases k,
{
    if k > 0 {
        assert(p(s[0]));
        let t = s.drop_first();
        assert forall|j: int| 0 <= j < k - 1 implies p(#[trigger] t[j]) by {
            assert(t[j] == s[j + 1]);
        }
        lemma_drop_leading(t, p, k - 1);
        assert(t.skip(k - 1) =~= s.skip(k));
    } else {
        assert(s.skip(0) =~= s);
    }
}

/// Cutting characters that satisfy `p` off the end cuts what `drop_trailing` drops.
pub proof fn lemma_drop_trailing(s: Seq<char>, p: spec_fn(char) -> bool, k: int)
    requires
        0 <= k <= s.len(),
        forall|j: int| k <= j < s.len() ==> p(#[trigger] s[j]),
        k > 0 ==> !p(s[k - 1]),
    ensures
        drop_trailing(s, p) == s.take(k),
    decreases s.len() - k,
{
    if k < s.len() {
        assert(p(s[s.len() - 1]));
        let t = s.drop_last();
        lemma_drop_trailing(t, p, k);
        assert(t.take(k) =~= s.take(k));
    } else {
        assert(s.take(k) =~= s);
    }
}

/// The text without the white space at both its ends.
pub fn trim(s: &str) -> (r: String)
    ensures
        r@ == trimmed(s@),
{
    let v = to_chars(s);
    let mut a: usize = 0;
    while a < v.len() && is_whitespace(v[a])
        invariant
            a <= v@.len(),
            forall|j: int| 0 <= j < a ==> whitespace(#[trigger] v@[j]),
        decreases v@.len() - a,
    {
        a = a + 1;
    }
    let ghost p = |c: char| whitespace(c);
    let ghost rest = v@.skip(a as int);
    proof {
        lemma_drop_leading(v@, p, a as int);
    }
    let mut b: usize = v.len();
    while b > a && is_whitespace(v[b - 1])
        invariant
            a <= b <= v@.len(),
            forall|j: int| b <= j < v@.len() ==> whitespace(#[trigger] v@[j]),
        decreases b,
    {
        b = b - 1;
    }
    proof {
        assert forall|j: int| b - a <= j < rest.len() implies p(#[trigger] rest[j]) by {
            assert(rest[j] == v@[j + a]);
        }
        lemma_drop_trailing(rest, p, b - a);
        assert(rest.take(b - a) =~= v@.subrange(a as int, b as int));
    }
    from_chars(&v, a, b)
}

proof fn lemma_drop_leading_run(w: Seq<char>, s: Seq<char>, p: spec_fn(char) -> bool)
    requires
        forall|i: int| 0 <= i < w.len() ==> p(#[trigger] w[i]),
    ensures
        drop_leading(w + s, p) == drop_leading(s, p),
    decreases w.len(),
{
    if w.len() == 0 {
        assert(w + s =~= s);
    } else {
        assert(p(w[0]));
        assert((w + s)[0] == w[0]);
        assert((w + s).drop_first() =~= w.drop_first() + s);
        assert forall|i: int| 0 <= i < w.drop_first().len() implies p(
            #[trigger] w.drop_first()[i],
        ) by {
            assert(w.drop_first()[i] == w[i + 1]);
        }
        lemma_drop_leading_run(w.drop_first(), s, p);
    }
}

proof fn lemma_drop_trailing_run(s: Seq<char>, w: Seq<char>, p: spec_fn(char) -> bool)
    requires
        forall|i: int| 0 <= i < w.len() ==> p(#[trigger] w[i]),
    ensures
        drop_trailing(s + w, p) == drop_trailing(s, p),
    decreases w.len(),
{
    if w.len() == 0 {
        assert(s + w =~= s);
    } else {
        assert(p(w[w.len() - 1]));
        assert((s + w).last() == w.last());
        assert((s + w).drop_last() =~= s + w.drop_last());
        lemma_drop_trailing_run(s, w.drop_last(), p);
    }
}

proof fn lemma_drop_leading_shape(s: Seq<char>, w: Seq<char>, p: spec_fn(char) -> bool)
    requires
        forall|i: int| 0 <= i < w.len() ==> p(#[trigger] w[i]),
    ensures
        drop_leading(s, p).len() > 0 ==> drop_leading(s + w, p) == drop_leading(s, p) + w,
        drop_leading(s, p).len() == 0 ==> drop_leading(s + w, p).len() == 0,
    decreases s.len(),
{
    if s.len() == 0 {
        lemma_drop_leading_run(w, Seq::empty(), p);
        assert(s + w =~= w + Seq::<char>::empty());
    } else {
        assert((s + w)[0] == s[0]);
        if p(s[0]) {
            assert((s + w).drop_first() =~= s.drop_first() + w);
            lemma_drop_leading_shape(s.drop_first(), w, p);
        }
    }
}

/// White space around a text does not count when it is trimmed.
pub proof fn trimming_ignores_space_around(w1: Seq<char>, s: Seq<char>, w2: Seq<char>)
    requires
        forall|i: int| 0 <= i < w1.len() ==> whitespace(#[trigger] w1[i]),
        forall|i: int| 0 <= i < w2.len() ==> whitespace(#[trigger] w2[i]),
    ensures
        trimmed(w1 + s + w2) == trimmed(s),
{
    let p = |c: char| whitespace(c);
    assert(w1 + s + w2 =~= w1 + (s + w2));
    lemma_drop_leading_run(w1, s + w2, p);
    lemma_drop_leading_shape(s, w2, p);
    if drop_leading(s, p).len() > 0 {
        lemma_drop_trailing_run(drop_leading(s, p), w2, p);
    } else {
        assert(drop_leading(s + w2, p) =~= drop_leading(s, p));
    }
}

proof fn lemma_lower_leading(s: Seq<char>)
    ensures
        drop_leading(ascii_lowered(s), |c: char| whitespace(c)) == ascii_lowered(
            drop_leading(s, |c: char| whitespace(c)),
        ),
        all_ascii(s) ==> all_ascii(drop_leading(s, |c: char| whitespace(c))),
    decreases s.len(),
{
    if s.len() > 0 {
        assert(whitespace(ascii_lower(s[0])) == whitespace(s[0]));
        assert(ascii_lowered(s).drop_first() =~= ascii_lowered(s.drop_first()));
        if all_ascii(s) {
            assert forall|i: int| 0 <= i < s.drop_first().len() implies #[trigger] s.drop_first()[i]
                < '\u{80}' by {
                assert(s.drop_first()[i] == s[i + 1]);
            }
        }
        lemma_lower_leading(s.drop_first());
    }
}

proof fn lemma_lower_trailing(s: Seq<char>)
    ensures
        drop_trailing(ascii_lowered(s), |c: char| whitespace(c)) == ascii_lowered(
            drop_trailing(s, |c: char| whitespace(c)),
        ),
        all_ascii(s) ==> all_ascii(drop_trailing(s, |c: char| whitespace(c))),
    decreases s.len(),
{
    if s.len() > 0 {
        assert(whitespace(ascii_lower(s.last())) == whitespace(s.last()));
        assert(ascii_lowered(s).drop_last() =~= ascii_lowered(s.drop_last()));
        lemma_lower_trailing(s.drop_last());
    }
}

/// Trimming ASCII text and then taking it to lower case is the same as doing
/// so the other way round.
pub proof fn lemma_lower_trimmed(s: Seq<char>)
    requires
        all_ascii(s),
    ensures
        lowercase(trimmed(s)) == trimmed(ascii_lowered(s)),
{
    lemma_lower_leading(s);
    lemma_lower_trailing(drop_leading(s, |c: char| whitespace(c)));
}

/// A line feed behind a text that has no white space at its ends is all that
/// trimming takes off.
pub proof fn lemma_trim_line(s: Seq<char>)
    requires
        s.len() > 0,
        !whitespace(s[0]),
        !whitespace(s.last()),
    ensures
        trimmed(s.push('\n')) == s,
{
    let line = s.push('\n');
    let p = |c: char| whitespace(c);
    lemma_drop_leading(line, p, 0);
    assert(line.skip(0) =~= line);
    lemma_drop_trailing(line, p, s.len() as int);
    assert(line.take(s.len() as int) =~= s);
}

/// Where `c` stands first in `s`, or the length of `s` where it does not.
pub open spec fn first_index(s: Seq<char>, c: char) -> int
    decreases s.len(),
{
    if s.len() == 0 || s[0] == c {
        0
    } else {
        1 + first_index(s.drop_first(), c)
    }
}

/// What singles out the position that `first_index` gives.
pub proof fn lemma_first_index(s: Seq<char>, c: char, k: int)
    requires
        0 <= k <= s.len(),
        forall|j: int| 0 <= j < k ==> #[trigger] s[j] != c,
        k < s.len() ==> s[k] == c,
    ensures
        first_index(s, c) == k,
    decreases k,
{
    if k > 0 {
        assert(s[0] != c);
        let t = s.drop_first();
        assert forall|j: int| 0 <= j < k - 1 implies #[trigger] t[j] != c by {
            assert(t[j] == s[j + 1]);
        }
        lemma_first_index(t, c, k - 1);
    }
}

/// `first_index` is a position of `c`, and the first one.
pub proof fn lemma_first_index_found(s: Seq<char>, c: char)
    ensures
        0 <= first_index(s, c) <= s.len(),
        first_index(s, c) < s.len() ==> s[first_index(s, c)] == c,
        forall|j: int| 0 <= j < first_index(s, c) ==> #[trigger] s[j] != c,
    decreases s.len(),
{
    if s.len() > 0 && s[0] != c {
        let t = s.drop_first();
        lemma_first_index_found(t, c);
        assert forall|j: int| 0 <= j < first_index(s, c) implies #[trigger] s[j] != c by {
            if j > 0 {
                assert(t[j - 1] == s[j]);
            }
        }
    }
}

/// Where `c` stands first at or after `from`, or the length.
pub fn find_char(v: &Vec<char>, from: usize, c: char) -> (k: usize)
    requires
        from <= v@.len(),
    ensures
        from <= k <= v@.len(),
        k - from == first_index(v@.skip(from as int), c),
        forall|j: int| from <= j < k ==> #[trigger] v@[j] != c,
        k < v@.len() ==> v@[k as int] == c,
{
    let mut k: usize = from;
    while k < v.len() && v[k] != c
        invariant
            from <= k <= v@.len(),
            forall|j: int| from <= j < k ==> #[trigger] v@[j] != c,
        decreases v@.len() - k,
    {
        k = k + 1;
    }
    proof {
        let t = v@.skip(from as int);
        assert forall|j: int| 0 <= j < k - from implies #[trigger] t[j] != c by {
            assert(t[j] == v@[j + from]);
        }
        lemma_first_index(t, c, k - from);
    }
    k
}

/// A line without the carriage return that a line feed followed.
pub open spec fn strip_cr(s: Seq<char>) -> Seq<char> {
    if s.len() > 0 && s.last() == '\r' {
        s.drop_last()
    } else {
        s
    }
}

/// The lines of a text: each ends with a line feed or with a carriage return
/// and a line feed, neither of which belongs to it; the last may lack its end.
pub open spec fn lines_of(s: Seq<char>) -> Seq<Seq<char>>
    decreases s.len(),
    via lines_of_shrinks
{
    if s.len() == 0 {
        Seq::empty()
    } else {
        let n = first_index(s, '\n');
        if n >= s.len() {
            seq![s]
        } else {
            seq![strip_cr(s.take(n))] + lines_of(s.skip(n + 1))
        }
    }
}

#[via_fn]
proof fn lines_of_shrinks(s: Seq<char>) {
    lemma_first_index_found(s, '\n');
}

/// The contents of a list of texts.
pub open spec fn texts(v: Seq<String>) -> Seq<Seq<char>> {
    Seq::new(v.len(), |i: int| v[i]@)
}

/// The lines of a text.
pub fn lines(s: &str) -> (r: Vec<String>)
    ensures
        texts(r@) == lines_of(s@),
{
    let v = to_chars(s);
    let mut out: Vec<String> = Vec::new();
    let mut at: usize = 0;
    assert(v@.skip(0) =~= v@);
    assert(texts(out@) + lines_of(v@.skip(0)) =~= lines_of(s@));
    while at < v.len()
        invariant
            v@ == s@,
            at <= v@.len(),
            texts(out@) + lines_of(v@.skip(at as int)) == lines_of(s@),
        decreases v@.len() - at,
    {
        let k = find_char(&v, at, '\n');
        let ghost rest = v@.skip(at as int);
        let ghost before = texts(out@);
        if k < v.len() {
            let end: usize = if k > at && v[k - 1] == '\r' {
                k - 1
            } else {
                k
            };
            let line = from_chars(&v, at, end);
            proof {
                assert(rest.take(k - at) =~= v@.subrange(at as int, k as int));
                assert(line@ =~= strip_cr(rest.take(k - at)));
                assert(rest.skip(k - at + 1) =~= v@.skip(k + 1));
            }
            out.push(line);
            assert(texts(out@) =~= before.push(line@));
            assert(texts(out@) + lines_of(v@.skip(k + 1)) =~= before + (seq![line@] + lines_of(
                v@.skip(k + 1),
            )));
            at = k + 1;
        } else {
            let line = from_chars(&v, at, k);
            assert(line@ =~= rest);
            out.push(line);
            assert(texts(out@) =~= before.push(line@));
            at = k;
            assert(lines_of(v@.skip(at as int)) =~= Seq::<Seq<char>>::empty());
            assert(texts(out@) + lines_of(v@.skip(at as int)) =~= before + seq![line@]);
        }
    }
    assert(texts(out@) + lines_of(v@.skip(at as int)) =~= texts(out@));
    out
}

/// Whether `q` occurs in `s`.
pub open spec fn occurs(q: Seq<char>, s: Seq<char>) -> bool {
    exists|i: int| #[trigger] occurs_at(q, s, i)
}

/// Whether `q` occurs in `s` at position `i`.
pub open spec fn occurs_at(q: Seq<char>, s: Seq<char>, i: int) -> bool {
    0 <= i && i + q.len() <= s.len() && s.subrange(i, i + q.len()) == q
}

fn stands_at(q: &Vec<char>, s: &Vec<char>, i: usize) -> (r: bool)
    requires
        i <= s@.len(),
    ensures
        r == occurs_at(q@, s@, i as int),
{
    let n: usize = s.len();
    if n - i < q.len() {
        return false;
    }
    let mut k: usize = 0;
    while k < q.len()
        invariant
            n == s@.len(),
            i + q@.len() <= n,
            k <= q@.len(),
            forall|j: int| 0 <= j < k ==> #[trigger] q@[j] == s@[i + j],
        decreases q@.len() - k,
    {
        if q[k] != s[i + k] {
            assert(s@.subrange(i as int, i + q@.len())[k as int] == s@[i + k]);
            return false;
        }
        k = k + 1;
    }
    assert(s@.subrange(i as int, i + q@.len()) =~= q@);
    true
}

/// Whether `q` occurs in `s`.
pub fn contains(s: &str, q: &str) -> (r: bool)
    ensures
        r == occurs(q@, s@),
{
    let v = to_chars(s);
    let w = to_chars(q);
    let mut i: usize = 0;
    loop
        invariant
            v@ == s@,
            w@ == q@,
            i <= v@.len(),
            forall|j: int| 0 <= j < i ==> !#[trigger] occurs_at(q@, s@, j),
        decreases v@.len() - i,
    {
        if stands_at(&w, &v, i) {
            assert(occurs_at(q@, s@, i as int));
            return true;
        }
        if i == v.len() {
            return false;
        }
        i = i + 1;
    }
}

/// Whether `s` begins with `p`.
pub open spec fn begins(s: Seq<char>, p: Seq<char>) -> bool {
    p.len() <= s.len() && s.take(p.len() as int) == p
}

/// What follows the prefix `p` in `s`.
pub fn strip_prefix(s: &str, p: &str) -> (r: Option<String>)
    ensures
        r is Some <==> begins(s@, p@),
        r is Some ==> r->0@ == s@.skip(p@.len() as int),
{
    let v = to_chars(s);
    let w = to_chars(p);
    if stands_at(&w, &v, 0) {
        assert(s@.take(p@.len() as int) =~= s@.subrange(0, p@.len() as int));
        let n: usize = w.len();
        let r = from_chars(&v, n, v.len());
        assert(r@ =~= s@.skip(p@.len() as int));
        Some(r)
    } else {
        assert(p@.len() <= s@.len() ==> s@.take(p@.len() as int) =~= s@.subrange(0, p@.len() as int));
        None
    }
}

/// Whether the first character is `c`.
pub fn starts_with_char(s: &str, c: char) -> (r: bool)
    ensures
        r == (s@.len() > 0 && s@[0] == c),
{
    let v = to_chars(s);
    v.len() > 0 && v[0] == c
}

/// Whether the last character is `c`.
pub fn ends_with_char(s: &str, c: char) -> (r: bool)
    ensures
        r == (s@.len() > 0 && s@.last() == c),
{
    let v = to_chars(s);
    v.len() > 0 && v[v.len() - 1] == c
}

/// `s` with every `from` turned into `to`.
pub open spec fn replaced(s: Seq<char>, from: char, to: char) -> Seq<char> {
    Seq::new(
        s.len(),
        |i: int|
            if s[i] == from {
                to
            } else {
                s[i]
            },
    )
}

/// The text with every `from` turned into `to`.
pub fn replace_char(s: &str, from: char, to: char) -> (r: String)
    ensures
        r@ == replaced(s@, from, to),
{
    let v = to_chars(s);
    let mut out = String::new();
    let mut i: usize = 0;
    while i < v.len()
        invariant
            v@ == s@,
            i <= v@.len(),
            out@ == replaced(s@.take(i as int), from, to),
        decreases v@.len() - i,
    {
        push_char(
            &mut out,
            if v[i] == from {
                to
            } else {
                v[i]
            },
        );
        i = i + 1;
        assert(out@ =~= replaced(s@.take(i as int), from, to));
    }
    assert(s@.take(i as int) =~= s@);
    out
}

/// The longest ending of `s` in which `c` does not occur.
pub open spec fn after_last(s: Seq<char>, c: char) -> Seq<char>
    decreases s.len(),
{
    if s.len() == 0 || s.last() == c {
        Seq::empty()
    } else {
        after_last(s.drop_last(), c).push(s.last())
    }
}

proof fn lemma_after_last(s: Seq<char>, c: char, k: int)
    requires
        0 <= k <= s.len(),
        forall|j: int| k <= j < s.len() ==> #[trigger] s[j] != c,
        k > 0 ==> s[k - 1] == c,
    ensures
        after_last(s, c) == s.skip(k),
    decreases s.len(),
{
    if k < s.len() {
        assert(s[s.len() - 1] != c);
        lemma_after_last(s.drop_last(), c, k);
        assert(s.drop_last().skip(k).push(s.last()) =~= s.skip(k));
    } else {
        assert(s.skip(k) =~= Seq::<char>::empty());
    }
}

/// What follows the last `c`, or the whole text where there is none.
pub fn tail_after(s: &str, c: char) -> (r: String)
    ensures
        r@ == after_last(s@, c),
{
    let v = to_chars(s);
    let mut k: usize = v.len();
    while k > 0 && v[k - 1] != c
        invariant
            k <= v@.len(),
            forall|j: int| k <= j < v@.len() ==> #[trigger] v@[j] != c,
        decreases k,
    {
        k = k - 1;
    }
    let r = from_chars(&v, k, v.len());
    proof {
        lemma_after_last(v@, c, k as int);
        assert(r@ =~= v@.skip(k as int));
    }
    r
}

/// Joined texts with a separator between neighbours.
pub open spec fn joined(parts: Seq<Seq<char>>, sep: Seq<char>) -> Seq<char>
    decreases parts.len(),
{
    if parts.len() == 0 {
        Seq::empty()
    } else if parts.len() == 1 {
        parts[0]
    } else {
        joined(parts.drop_last(), sep) + sep + parts.last()
    }
}

/// Joins the texts from a position on, with a separator between neighbours.
pub fn join_from(parts: &Vec<String>, from: usize, sep: &str) -> (r: String)
    requires
        from <= parts@.len(),
    ensures
        r@ == joined(texts(parts@).skip(from as int), sep@),
{
    let ghost all = texts(parts@).skip(from as int);
    let mut out = String::new();
    let mut i: usize = from;
    assert(all.take(0) =~= Seq::<Seq<char>>::empty());
    while i < parts.len()
        invariant
            from <= i <= parts@.len(),
            all == texts(parts@).skip(from as int),
            out@ == joined(all.take(i - from), sep@),
        decreases parts@.len() - i,
    {
        let ghost done = all.take(i - from + 1);
        assert(done.drop_last() =~= all.take(i - from));
        assert(done.last() == parts@[i as int]@);
        if i > from {
            out.append(sep);
        }
        out.append(parts[i].as_str());
        assert(out@ =~= joined(done, sep@));
        i = i + 1;
    }
    assert(all.take(i - from) =~= all);
    out
}

/// White space is what Unicode calls so, by its numbers.
pub proof fn white_space_is_that_of_unicode(c: char)
    ensures
        whitespace(c) <==> seq![
            0x9u32, 0xa, 0xb, 0xc, 0xd, 0x20, 0x85, 0xa0, 0x1680, 0x2000, 0x2001, 0x2002, 0x2003,
            0x2004, 0x2005, 0x2006, 0x2007, 0x2008, 0x2009, 0x200a, 0x2028, 0x2029, 0x202f, 0x205f,
            0x3000,
        ].contains(c as u32),
{
    let all = seq![
        0x9u32, 0xa, 0xb, 0xc, 0xd, 0x20, 0x85, 0xa0, 0x1680, 0x2000, 0x2001, 0x2002, 0x2003,
        0x2004, 0x2005, 0x2006, 0x2007, 0x2008, 0x2009, 0x200a, 0x2028, 0x2029, 0x202f, 0x205f,
        0x3000,
    ];
    let x = c as u32;
    if whitespace(c) {
        let i = if x <= 0xd {
            x - 9
        } else if x == 0x20 {
            5
        } else if x == 0x85 {
            6
        } else if x == 0xa0 {
            7
        } else if x == 0x1680 {
            8
        } else if x <= 0x200a {
            x - 0x2000 + 9
        } else if x == 0x2028 {
            20
        } else if x == 0x2029 {
            21
        } else if x == 0x202f {
            22
        } else if x == 0x205f {
            23
        } else {
            24
        };
        assert(all[i] == x);
    }
}

/// Trimming takes off white space at both ends, all of it, and nothing else.
pub proof fn trimming_leaves_the_text(s: Seq<char>)
    ensures
        exists|a: int, b: int|
            {
                &&& 0 <= a <= b <= s.len()
                &&& #[trigger] s.subrange(a, b) == trimmed(s)
                &&& forall|j: int| 0 <= j < a || b <= j < s.len() ==> whitespace(#[trigger] s[j])
                &&& a < b ==> !whitespace(s[a]) && !whitespace(s[b - 1])
            },
{
    let p = |c: char| whitespace(c);
    let a = lemma_leading_run(s, p);
    let rest = s.skip(a);
    let n = lemma_trailing_run(rest, p);
    lemma_drop_leading(s, p, a);
    lemma_drop_trailing(rest, p, n);
    let b = a + n;
    assert(s.subrange(a, b) =~= rest.take(n));
    assert forall|j: int| 0 <= j < a || b <= j < s.len() implies whitespace(#[trigger] s[j]) by {
        if b <= j < s.len() {
            assert(p(rest[j - a]));
        } else {
            assert(p(s[j]));
        }
    }
    if a < b {
        assert(!p(s[a]));
        assert(!p(rest[n - 1]));
    }
}

proof fn lemma_leading_run(s: Seq<char>, p: spec_fn(char) -> bool) -> (a: int)
    ensures
        0 <= a <= s.len(),
        forall|j: int| 0 <= j < a ==> p(#[trigger] s[j]),
        a < s.len() ==> !p(s[a]),
    decreases s.len(),
{
    if s.len() > 0 && p(s[0]) {
        let t = s.drop_first();
        let a = lemma_leading_run(t, p);
        assert forall|j: int| 0 <= j < a + 1 implies p(#[trigger] s[j]) by {
            if j > 0 {
                assert(p(t[j - 1]));
            }
        }
        a + 1
    } else {
        0
    }
}

proof fn lemma_trailing_run(s: Seq<char>, p: spec_fn(char) -> bool) -> (b: int)
    ensures
        0 <= b <= s.len(),
        forall|j: int| b <= j < s.len() ==> p(#[trigger] s[j]),
        b > 0 ==> !p(s[b - 1]),
    decreases s.len(),
{
    if s.len() > 0 && p(s.last()) {
        let t = s.drop_last();
        let b = lemma_trailing_run(t, p);
        assert forall|j: int| b <= j < s.len() implies p(#[trigger] s[j]) by {
            if j < t.len() {
                assert(p(t[j]));
            }
        }
        b
    } else {
        s.len() as int
    }
}

/// Lower case of ASCII text goes character by character: each capital becomes
/// the letter at the same place of the alphabet, and nothing else changes.
pub proof fn capitals_become_small(s: Seq<char>, i: int)
    requires
        forall|j: int| 0 <= j < s.len() ==> #[trigger] s[j] < '\u{80}',
        0 <= i < s.len(),
    ensures
        lowercase(s).len() == s.len(),
        'A' <= s[i] <= 'Z' ==> lowercase(s)[i] as u32 - 'a' as u32 == s[i] as u32 - 'A' as u32,
        !('A' <= s[i] <= 'Z') ==> lowercase(s)[i] == s[i],
{
    assert(all_ascii(s));
}

/// A line ends with a line feed, or with a carriage return and a line feed; the
/// last line may lack its end, and nothing has no lines.
pub proof fn lines_go_one_by_one(line: Seq<char>, rest: Seq<char>)
    requires
        !line.contains('\n'),
    ensures
        lines_of(Seq::empty()) == Seq::<Seq<char>>::empty(),
        line.len() > 0 ==> lines_of(line) == seq![line],
        line.len() == 0 || line.last() != '\r' ==> lines_of(line + seq!['\n'] + rest) == seq![line]
            + lines_of(rest),
        lines_of(line + seq!['\r', '\n'] + rest) == seq![line] + lines_of(rest),
{
    let n = line.len() as int;
    assert forall|j: int| 0 <= j < n implies #[trigger] line[j] != '\n' by {
        assert(line.contains(line[j]));
    }
    lemma_first_index(line, '\n', n);
    let a = line + seq!['\n'] + rest;
    assert forall|j: int| 0 <= j < n implies #[trigger] a[j] != '\n' by {
        assert(a[j] == line[j]);
    }
    lemma_first_index(a, '\n', n);
    assert(a.take(n) =~= line);
    assert(a.skip(n + 1) =~= rest);
    let b = line + seq!['\r', '\n'] + rest;
    assert forall|j: int| 0 <= j < n + 1 implies #[trigger] b[j] != '\n' by {
        if j < n {
            assert(b[j] == line[j]);
        }
    }
    lemma_first_index(b, '\n', n + 1);
    assert(b.take(n + 1) =~= line.push('\r'));
    assert(line.push('\r').drop_last() =~= line);
    assert(b.skip(n + 2) =~= rest);
}

/// A text occurs in another exactly where that one is made of it and what stands
/// before and behind it.
pub proof fn occurring_is_standing_between(q: Seq<char>, s: Seq<char>, a: Seq<char>, b: Seq<char>)
    ensures
        occurs(q, a + q + b),
        occurs(q, s) ==> exists|x: Seq<char>, y: Seq<char>| #[trigger] (x + q + y) == s,
{
    let whole = a + q + b;
    assert(whole.subrange(a.len() as int, (a.len() + q.len()) as int) =~= q);
    assert(occurs_at(q, whole, a.len() as int));
    if occurs(q, s) {
        let i = choose|i: int| #[trigger] occurs_at(q, s, i);
        let x = s.take(i);
        let y = s.skip(i + q.len());
        assert(x + q + y =~= s);
    }
}

/// What follows the last separator is the rest of the text behind it, and all of
/// a text without one.
pub proof fn the_last_part_follows_the_separator(a: Seq<char>, c: char, b: Seq<char>)
    requires
        !b.contains(c),
    ensures
        after_last(a + seq![c] + b, c) == b,
        after_last(b, c) == b,
{
    let s = a + seq![c] + b;
    let k = a.len() as int + 1;
    assert forall|j: int| k <= j < s.len() implies #[trigger] s[j] != c by {
        assert(s[j] == b[j - k]);
        assert(b.contains(b[j - k]));
    }
    lemma_after_last(s, c, k);
    assert(s.skip(k) =~= b);
    assert forall|j: int| 0 <= j < b.len() implies #[trigger] b[j] != c by {
        assert(b.contains(b[j]));
    }
    lemma_after_last(b, c, 0);
    assert(b.skip(0) =~= b);
}

/// Replacing a character goes place by place.
pub proof fn replacing_goes_place_by_place(s: Seq<char>, from: char, to: char, i: int)
    requires
        0 <= i < s.len(),
    ensures
        replaced(s, from, to).len() == s.len(),
        s[i] == from ==> replaced(s, from, to)[i] == to,
        s[i] != from ==> replaced(s, from, to)[i] == s[i],
{
}

/// Texts are joined in their order, with the separator before each but the
/// first.
pub proof fn joining_goes_text_by_text(parts: Seq<Seq<char>>, last: Seq<char>, sep: Seq<char>)
    ensures
        joined(Seq::empty(), sep) == Seq::<char>::empty(),
        joined(seq![last], sep) == last,
        parts.len() > 0 ==> joined(parts.push(last), sep) == joined(parts, sep) + sep + last,
{
    assert(parts.push(last).drop_last() =~= parts);
}

/// A text begins with another exactly where something follows that one.
pub proof fn beginning_is_standing_first(s: Seq<char>, p: Seq<char>, rest: Seq<char>)
    ensures
        begins(p + rest, p),
        begins(s, p) ==> s == p + s.skip(p.len() as int),
{
    assert((p + rest).take(p.len() as int) =~= p);
    if begins(s, p) {
        assert(s =~= p + s.skip(p.len() as int));
    }
}

} // verus!
