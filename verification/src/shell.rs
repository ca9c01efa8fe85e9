//! Quoting for a POSIX shell, and how such a shell reads it back.
use vstd::prelude::*;
use vstd::string::*;

use crate::text::{push_char, to_chars};

verus! {

/// How one character stands between single quotes: a single quote leaves the
/// quotes, stands escaped, and opens them again.
pub open spec fn escaped_char(c: char) -> Seq<char> {
    if c == '\'' {
        seq!['\'', '\\', '\'', '\'']
    } else {
        seq![c]
    }
}

/// How a text stands between single quotes.
pub open spec fn escaped(s: Seq<char>) -> Seq<char>
    decreases s.len(),
{
    if s.len() == 0 {
        Seq::empty()
    } else {
        escaped(s.drop_last()) + escaped_char(s.last())
    }
}

/// A text in single quotes.
pub open spec fn quoted(s: Seq<char>) -> Seq<char> {
    seq!['\''] + escaped(s) + seq!['\'']
}

/// Quotes a text for a POSIX shell.
pub fn sh_quote(s: &str) -> (r: String)
    ensures
        r@ == quoted(s@),
{
    let v = to_chars(s);
    let mut out = String::new();
    push_char(&mut out, '\'');
    let mut i: usize = 0;
    assert(v@.take(0) =~= Seq::<char>::empty());
    assert(out@ =~= seq!['\''] + escaped(v@.take(0)));
    while i < v.len()
        invariant
            v@ == s@,
            i <= v@.len(),
            out@ == seq!['\''] + escaped(v@.take(i as int)),
        decreases v@.len() - i,
    {
        let ghost before = out@;
        let ghost done = v@.take(i + 1);
        assert(done.drop_last() =~= v@.take(i as int));
        if v[i] == '\'' {
            out.append("'\\''");
            proof {
                reveal_strlit("'\\''");
                assert("'\\''"@ =~= escaped_char('\''));
            }
        } else {
            push_char(&mut out, v[i]);
        }
        i = i + 1;
        assert(out@ =~= before + escaped_char(done.last()));
        assert(out@ =~= seq!['\''] + escaped(done));
    }
    assert(v@.take(i as int) =~= s@);
    push_char(&mut out, '\'');
    assert(out@ =~= quoted(s@));
    out
}

/// Where a shell is in the line that it reads.
pub enum Reading {
    /// Between two words.
    Between,
    /// In a word, outside quotes.
    InWord,
    /// Inside single quotes.
    InQuotes,
    /// Right behind a backslash outside quotes.
    Escape,
    /// Behind a character that means something to the shell.
    Special,
}

/// What a shell has read: the words that ended and the one that it is in.
pub struct ShellLine {
    pub words: Seq<Seq<char>>,
    pub word: Seq<char>,
    pub reading: Reading,
}

/// Whether a character outside quotes stands for itself, among those that
/// commands of this library hold there.
pub open spec fn plain(c: char) -> bool {
    'a' <= c <= 'z' || 'A' <= c <= 'Z' || '0' <= c <= '9' || c == '-' || c == '='
}

/// A shell reads one more character.
pub open spec fn read_char(line: ShellLine, c: char) -> ShellLine {
    match line.reading {
        Reading::Special => line,
        Reading::InQuotes => if c == '\'' {
            ShellLine { reading: Reading::InWord, ..line }
        } else {
            ShellLine { word: line.word.push(c), ..line }
        },
        Reading::Escape => if c == '\n' {
            ShellLine { reading: Reading::Special, ..line }
        } else {
            ShellLine { word: line.word.push(c), reading: Reading::InWord, ..line }
        },
        _ => if c == '\'' {
            ShellLine { reading: Reading::InQuotes, ..line }
        } else if c == '\\' {
            ShellLine { reading: Reading::Escape, ..line }
        } else if c == ' ' {
            if line.reading is InWord {
                ShellLine {
                    words: line.words.push(line.word),
                    word: Seq::empty(),
                    reading: Reading::Between,
                }
            } else {
                line
            }
        } else if plain(c) {
            ShellLine { word: line.word.push(c), reading: Reading::InWord, ..line }
        } else {
            ShellLine { reading: Reading::Special, ..line }
        },
    }
}

/// A shell reads a text on from where it is.
pub open spec fn read_on(line: ShellLine, s: Seq<char>) -> ShellLine
    decreases s.len(),
{
    if s.len() == 0 {
        line
    } else {
        read_char(read_on(line, s.drop_last()), s.last())
    }
}

/// The words that a shell makes of a command line, or `None` where quoting is
/// left open or a character outside quotes means something to the shell.
pub open spec fn shell_words(s: Seq<char>) -> Option<Seq<Seq<char>>> {
    let end = read_on(
        ShellLine { words: Seq::empty(), word: Seq::empty(), reading: Reading::Between },
        s,
    );
    match end.reading {
        Reading::Between => Some(end.words),
        Reading::InWord => Some(end.words.push(end.word)),
        _ => None,
    }
}

/// Reading two texts in a row is reading their concatenation.
pub proof fn lemma_read_concat(line: ShellLine, a: Seq<char>, b: Seq<char>)
    ensures
        read_on(line, a + b) == read_on(read_on(line, a), b),
    decreases b.len(),
{
    if b.len() == 0 {
        assert(a + b =~= a);
    } else {
        assert((a + b).drop_last() =~= a + b.drop_last());
        lemma_read_concat(line, a, b.drop_last());
    }
}

proof fn lemma_read_one(line: ShellLine, c: char)
    ensures
        read_on(line, seq![c]) == read_char(line, c),
{
    reveal_with_fuel(read_on, 2);
    assert(seq![c].drop_last() =~= Seq::<char>::empty());
}

/// Plain characters lengthen the word.
pub proof fn lemma_read_plain(line: ShellLine, s: Seq<char>)
    requires
        line.reading is Between || line.reading is InWord,
        s.len() > 0,
        forall|i: int| 0 <= i < s.len() ==> plain(#[trigger] s[i]),
    ensures
        read_on(line, s) == (ShellLine {
            word: line.word + s,
            reading: Reading::InWord,
            ..line
        }),
    decreases s.len(),
{
    assert(plain(s.last()));
    let t = s.drop_last();
    if t.len() > 0 {
        assert forall|i: int| 0 <= i < t.len() implies plain(#[trigger] t[i]) by {
            assert(t[i] == s[i]);
        }
        lemma_read_plain(line, t);
    } else {
        assert(line.word + t =~= line.word);
        assert(read_on(line, t) == line);
    }
    assert((line.word + t).push(s.last()) =~= line.word + s);
}

/// A blank ends the word.
pub proof fn lemma_read_blank(line: ShellLine)
    requires
        line.reading is InWord,
    ensures
        read_on(line, seq![' ']) == (ShellLine {
            words: line.words.push(line.word),
            word: Seq::empty(),
            reading: Reading::Between,
        }),
{
    lemma_read_one(line, ' ');
}

proof fn lemma_read_escaped(line: ShellLine, s: Seq<char>)
    requires
        line.reading is InQuotes,
    ensures
        read_on(line, escaped(s)) == (ShellLine { word: line.word + s, ..line }),
    decreases s.len(),
{
    if s.len() == 0 {
        assert(line.word + s =~= line.word);
    } else {
        let c = s.last();
        let mid = ShellLine { word: line.word + s.drop_last(), ..line };
        lemma_read_escaped(line, s.drop_last());
        lemma_read_concat(line, escaped(s.drop_last()), escaped_char(c));
        assert(mid.word.push(c) =~= line.word + s);
        if c == '\'' {
            let e = escaped_char(c);
            assert(e =~= seq!['\''] + (seq!['\\'] + (seq!['\''] + seq!['\''])));
            let l1 = read_char(mid, '\'');
            let l2 = read_char(l1, '\\');
            let l3 = read_char(l2, '\'');
            lemma_read_one(mid, '\'');
            lemma_read_one(l1, '\\');
            lemma_read_one(l2, '\'');
            lemma_read_one(l3, '\'');
            lemma_read_concat(l2, seq!['\''], seq!['\'']);
            lemma_read_concat(l1, seq!['\\'], seq!['\''] + seq!['\'']);
            lemma_read_concat(mid, seq!['\''], seq!['\\'] + (seq!['\''] + seq!['\'']));
        } else {
            lemma_read_one(mid, c);
        }
    }
}

/// A quoted text lengthens the word by that text, whatever characters it holds.
pub proof fn lemma_read_quoted(line: ShellLine, s: Seq<char>)
    requires
        line.reading is Between || line.reading is InWord,
    ensures
        read_on(line, quoted(s)) == (ShellLine {
            word: line.word + s,
            reading: Reading::InWord,
            ..line
        }),
{
    let open = ShellLine { reading: Reading::InQuotes, ..line };
    let full = ShellLine { word: line.word + s, ..open };
    lemma_read_one(line, '\'');
    lemma_read_escaped(open, s);
    lemma_read_one(full, '\'');
    lemma_read_concat(line, seq!['\''], escaped(s));
    lemma_read_concat(line, seq!['\''] + escaped(s), seq!['\'']);
}

/// A shell reads a quoted text as one word, and that word is the text.
pub proof fn quoted_is_one_word(s: Seq<char>)
    ensures
        shell_words(quoted(s)) == Some(seq![s]),
{
    let start = ShellLine {
        words: Seq::empty(),
        word: Seq::empty(),
        reading: Reading::Between,
    };
    lemma_read_quoted(start, s);
    assert(start.word + s =~= s);
    assert(Seq::<Seq<char>>::empty().push(s) =~= seq![s]);
}

} // verus!
