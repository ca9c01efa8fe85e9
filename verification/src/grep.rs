//! Searching the contents of remote files with the host's own `grep`.
use vstd::hash_set::*;
use vstd::prelude::*;
use vstd::string::*;

use crate::numbers::{
    decimal, is_digit, lemma_decimal_reads_back, number_of, number_reads_back, parse_number,
};
use crate::paths::{rel_remote, relative};
use crate::remote::{
    unexpected, unexpected_reply, Reply, ReplyView, Request, Step, StepView,
};
use crate::shell::{
    lemma_read_blank, lemma_read_concat, lemma_read_plain, lemma_read_quoted, plain, quoted,
    read_on, sh_quote, shell_words, Reading, ShellLine,
};
use crate::text::{
    find_char, first_index, from_chars, lemma_first_index, lines, lines_go_one_by_one, lines_of,
    texts, to_chars,
};

verus! {

/// A line that matches.
#[derive(Clone, Debug, PartialEq, Eq)]
pub struct GrepHit<S = String> {
    pub path: S,
    pub rel: S,
    pub line: u64,
    pub text: S,
}

impl DeepView for GrepHit {
    type V = GrepHit<Seq<char>>;

    open spec fn deep_view(&self) -> GrepHit<Seq<char>> {
        GrepHit { path: self.path@, rel: self.rel@, line: self.line, text: self.text@ }
    }
}

/// The lines that match.
#[derive(Clone, Debug, PartialEq, Eq)]
pub struct GrepResponse<L = Vec<GrepHit>, N = usize> {
    pub hits: L,
    /// Whether as many were found as may be.
    pub truncated: bool,
    /// How many files the lines stand in.
    pub files_scanned: N,
}

/// The lines that match, as contracts speak of them.
pub type GrepResponseView = GrepResponse<Seq<GrepHit<Seq<char>>>, nat>;

impl DeepView for GrepResponse {
    type V = GrepResponseView;

    open spec fn deep_view(&self) -> GrepResponseView {
        GrepResponse {
            hits: self.hits.deep_view(),
            truncated: self.truncated,
            files_scanned: self.files_scanned as nat,
        }
    }
}

/// The options that restrict the files to the given patterns.
pub open spec fn includes(globs: Seq<Seq<char>>) -> Seq<char>
    decreases globs.len(),
{
    if globs.len() == 0 {
        Seq::empty()
    } else {
        includes(globs.drop_last()) + " --include="@ + quoted(globs.last())
    }
}

/// The option that makes case not count, where it is asked for.
pub open spec fn case_option(case_insensitive: bool) -> Seq<char> {
    if case_insensitive {
        " -i"@
    } else {
        Seq::empty()
    }
}

/// The command that searches.
pub open spec fn grep_command(
    pattern: Seq<char>,
    root: Seq<char>,
    globs: Seq<Seq<char>>,
    case_insensitive: bool,
) -> Seq<char> {
    "grep -rnIE"@ + case_option(case_insensitive) + includes(globs) + " -e "@ + quoted(pattern)
        + " "@ + quoted(root)
}

/// Writes the command that searches.
pub fn write_command(pattern: &str, root: &str, globs: &Vec<String>, case_insensitive: bool) -> (r:
    String)
    ensures
        r@ == grep_command(pattern@, root@, texts(globs@), case_insensitive),
{
    let mut cmd = "grep -rnIE".to_owned();
    if case_insensitive {
        cmd.append(" -i");
    } else {
        assert(cmd@ =~= cmd@ + case_option(false));
    }
    let ghost head = cmd@;
    let ghost all = texts(globs@);
    let mut i: usize = 0;
    assert(all.take(0) =~= Seq::<Seq<char>>::empty());
    assert(cmd@ =~= head + includes(all.take(0)));
    while i < globs.len()
        invariant
            i <= globs@.len(),
            all == texts(globs@),
            cmd@ == head + includes(all.take(i as int)),
        decreases globs@.len() - i,
    {
        let q = sh_quote(globs[i].as_str());
        assert(all.take(i + 1).drop_last() =~= all.take(i as int));
        assert(all.take(i + 1).last() == globs@[i as int]@);
        cmd.append(" --include=");
        cmd.append(q.as_str());
        assert(cmd@ =~= head + includes(all.take(i + 1)));
        i = i + 1;
    }
    assert(all.take(i as int) =~= all);
    let p = sh_quote(pattern);
    let d = sh_quote(root);
    cmd.append(" -e ");
    cmd.append(p.as_str());
    cmd.append(" ");
    cmd.append(d.as_str());
    cmd
}

/// What a line of output tells: a path, a line number and the text of that
/// line, with colons between them; `None` where it is no such line.
pub open spec fn hit_in(root: Seq<char>, line: Seq<char>) -> Option<GrepHit<Seq<char>>> {
    let a = first_index(line, ':');
    if a >= line.len() {
        None
    } else {
        let rest = line.skip(a + 1);
        let b = first_index(rest, ':');
        if b >= rest.len() {
            None
        } else {
            match number_of(rest.take(b)) {
                Some(n) => Some(
                    GrepHit {
                        path: line.take(a),
                        rel: relative(root, line.take(a)),
                        line: n,
                        text: rest.skip(b + 1),
                    },
                ),
                None => None,
            }
        }
    }
}

/// Reads one line of output.
pub fn parse_hit(root: &str, line: &str) -> (r: Option<GrepHit>)
    ensures
        r.deep_view() == hit_in(root@, line@),
{
    let v = to_chars(line);
    assert(v@.skip(0) =~= v@);
    let a = find_char(&v, 0, ':');
    if a == v.len() {
        return None;
    }
    let ghost rest = v@.skip(a + 1);
    let b = find_char(&v, a + 1, ':');
    if b == v.len() {
        return None;
    }
    let digits = from_chars(&v, a + 1, b);
    assert(digits@ =~= rest.take(b - a - 1));
    match parse_number(digits.as_str()) {
        Some(n) => {
            let path = from_chars(&v, 0, a);
            assert(path@ =~= line@.take(a as int));
            let text = from_chars(&v, b + 1, v.len());
            assert(text@ =~= rest.skip(b - a));
            let rel = rel_remote(root, path.as_str());
            Some(GrepHit { path, rel, line: n, text })
        },
        None => None,
    }
}

/// What the lines of output tell, in order.
pub open spec fn hits_in(root: Seq<char>, output: Seq<Seq<char>>) -> Seq<GrepHit<Seq<char>>>
    decreases output.len(),
{
    if output.len() == 0 {
        Seq::empty()
    } else {
        let before = hits_in(root, output.drop_last());
        match hit_in(root, output.last()) {
            Some(h) => before.push(h),
            None => before,
        }
    }
}

/// The files that lines stand in.
pub open spec fn files_in(hits: Seq<GrepHit<Seq<char>>>) -> Set<Seq<char>> {
    Seq::new(hits.len(), |i: int| hits[i].path).to_set()
}

/// What the output of `grep` amounts to, of which the first lines are kept:
/// as many as are asked for, and one where none is.
pub open spec fn grep_response(
    root: Seq<char>,
    output: Seq<char>,
    max_results: usize,
) -> GrepResponseView {
    let all = hits_in(root, lines_of(output));
    let most = if max_results == 0 {
        1
    } else {
        max_results as int
    };
    let hits = if all.len() >= most {
        all.take(most)
    } else {
        all
    };
    GrepResponse { hits, truncated: all.len() >= most, files_scanned: files_in(hits).len() }
}

proof fn lemma_hits_prefix(root: Seq<char>, output: Seq<Seq<char>>, k: int)
    requires
        0 <= k <= output.len(),
    ensures
        hits_in(root, output.take(k)).len() <= hits_in(root, output).len(),
        hits_in(root, output).take(hits_in(root, output.take(k)).len() as int) == hits_in(
            root,
            output.take(k),
        ),
    decreases output.len(),
{
    if k == output.len() {
        assert(output.take(k) =~= output);
        assert(hits_in(root, output).take(hits_in(root, output).len() as int) =~= hits_in(
            root,
            output,
        ));
    } else {
        lemma_hits_prefix(root, output.drop_last(), k);
        assert(output.drop_last().take(k) =~= output.take(k));
        let few = hits_in(root, output.take(k));
        assert(hits_in(root, output).take(few.len() as int) =~= hits_in(
            root,
            output.drop_last(),
        ).take(few.len() as int));
    }
}

proof fn lemma_files_push(hits: Seq<GrepHit<Seq<char>>>, h: GrepHit<Seq<char>>)
    ensures
        files_in(hits.push(h)) == files_in(hits).insert(h.path),
{
    let a = Seq::new(hits.len(), |i: int| hits[i].path);
    let b = Seq::new(hits.push(h).len(), |i: int| hits.push(h)[i].path);
    assert forall|p: Seq<char>| b.to_set().contains(p) <==> a.to_set().insert(h.path).contains(p) by {
        if b.contains(p) {
            let i = choose|i: int| 0 <= i < b.len() && b[i] == p;
            if i < a.len() {
                assert(a[i] == p);
            }
        }
        if a.contains(p) {
            let i = choose|i: int| 0 <= i < a.len() && a[i] == p;
            assert(b[i] == p);
        }
        assert(b[hits.len() as int] == h.path);
    }
    assert(b.to_set() =~= a.to_set().insert(h.path));
}

/// Reads the output of `grep`.
pub fn parse_output(root: &str, output: &str, max_results: usize) -> (r: GrepResponse)
    ensures
        r.deep_view() == grep_response(root@, output@, max_results),
{
    broadcast use axiom_string_hash_set_spec_len;

    let ls = lines(output);
    let ghost all = texts(ls@);
    let mut hits: Vec<GrepHit> = Vec::new();
    let mut files = StringHashSet::new();
    let mut i: usize = 0;
    assert(all.take(0) =~= Seq::<Seq<char>>::empty());
    assert(hits.deep_view() =~= Seq::<GrepHit<Seq<char>>>::empty());
    assert(files@ =~= files_in(hits.deep_view()));
    while i < ls.len()
        invariant
            i <= ls@.len(),
            all == texts(ls@),
            all == lines_of(output@),
            hits.deep_view() == hits_in(root@, all.take(i as int)),
            hits@.len() == 0 || hits@.len() < max_results,
            files@ == files_in(hits.deep_view()),
        decreases ls@.len() - i,
    {
        assert(all.take(i + 1).drop_last() =~= all.take(i as int));
        assert(all.take(i + 1).last() == ls@[i as int]@);
        match parse_hit(root, ls[i].as_str()) {
            Some(h) => {
                let ghost before = hits.deep_view();
                files.insert(h.path.clone());
                proof {
                    lemma_files_push(before, h.deep_view());
                }
                hits.push(h);
                assert(hits.deep_view() =~= before.push(h.deep_view()));
                if hits.len() >= max_results {
                    proof {
                        lemma_hits_prefix(root@, all, i + 1);
                    }
                    return GrepResponse { hits, truncated: true, files_scanned: files.len() };
                }
            },
            None => {},
        }
        i = i + 1;
    }
    assert(all.take(i as int) =~= all);
    GrepResponse { hits, truncated: false, files_scanned: files.len() }
}

/// Searching contents: one request.
pub struct Grep<S = String> {
    pub root: S,
    pub max_results: usize,
}

impl View for Grep {
    type V = Grep<Seq<char>>;

    open spec fn view(&self) -> Grep<Seq<char>> {
        Grep { root: self.root@, max_results: self.max_results }
    }
}

/// The start of searching contents.
pub open spec fn grep_start(
    pattern: Seq<char>,
    root: Seq<char>,
    globs: Seq<Seq<char>>,
    case_insensitive: bool,
    max_results: usize,
) -> StepView<Grep<Seq<char>>, GrepResponseView> {
    if pattern.len() == 0 {
        Step::Finish(Err("empty pattern"@))
    } else {
        Step::Ask {
            request: Request::Exec(grep_command(pattern, root, globs, case_insensitive)),
            state: Grep { root, max_results },
        }
    }
}

/// How searching contents goes on.
pub open spec fn grep_next(state: Grep<Seq<char>>, reply: ReplyView) -> StepView<
    Grep<Seq<char>>,
    GrepResponseView,
> {
    match reply {
        Reply::Output(o) => Step::Finish(Ok(grep_response(state.root, o, state.max_results))),
        Reply::Failed(e) | Reply::Broken(e) => Step::Finish(Err(e)),
        _ => Step::Finish(Err(unexpected())),
    }
}

/// Searches the files below a directory for lines that match an extended
/// regular expression.
pub fn grep(
    pattern: &str,
    root: &str,
    glob: &Vec<String>,
    case_insensitive: bool,
    max_results: usize,
) -> (r: Step<Grep, GrepResponse>)
    ensures
        r@ == grep_start(pattern@, root@, texts(glob@), case_insensitive, max_results),
{
    if pattern.is_empty() {
        return Step::Finish(Err("empty pattern".to_owned()));
    }
    Step::Ask {
        request: Request::Exec(write_command(pattern, root, glob, case_insensitive)),
        state: Grep { root: root.to_owned(), max_results },
    }
}

impl Grep {
    /// Goes on with the output of the command.
    pub fn resume(self, reply: Reply) -> (r: Step<Grep, GrepResponse>)
        ensures
            r@ == grep_next(self@, reply@),
    {
        match reply {
            Reply::Output(o) => Step::Finish(
                Ok(parse_output(self.root.as_str(), o.as_str(), self.max_results)),
            ),
            Reply::Failed(e) | Reply::Broken(e) => Step::Finish(Err(e)),
            _ => Step::Finish(Err(unexpected_reply())),
        }
    }
}

/// A line of output: a path, a line number and the text of the line.
pub open spec fn output_line(path: Seq<char>, n: u64, text: Seq<char>) -> Seq<char> {
    path + seq![':'] + decimal(n as nat) + seq![':'] + text
}

/// A line of output gives back the path, the number and the text that it was
/// made of, unless the path holds a colon.
pub proof fn output_line_reads_back(
    root: Seq<char>,
    path: Seq<char>,
    n: u64,
    text: Seq<char>,
)
    requires
        !path.contains(':'),
    ensures
        hit_in(root, output_line(path, n, text)) == Some(
            GrepHit { path, rel: relative(root, path), line: n, text },
        ),
{
    let line = output_line(path, n, text);
    let a = path.len() as int;
    let d = decimal(n as nat);
    let b = d.len() as int;
    assert forall|j: int| 0 <= j < a implies #[trigger] line[j] != ':' by {
        assert(line[j] == path[j]);
        assert(path.contains(path[j]));
    }
    lemma_first_index(line, ':', a);
    let rest = line.skip(a + 1);
    assert(rest =~= d + seq![':'] + text);
    number_reads_back(n);
    lemma_decimal_reads_back(n as nat);
    assert forall|j: int| 0 <= j < b implies #[trigger] rest[j] != ':' by {
        assert(rest[j] == d[j]);
        assert(is_digit(d[j]));
    }
    lemma_first_index(rest, ':', b);
    assert(rest.take(b) =~= d);
    assert(line.take(a) =~= path);
    assert(rest.skip(b + 1) =~= text);
}

/// The words of the command that searches.
pub open spec fn grep_words(
    pattern: Seq<char>,
    root: Seq<char>,
    globs: Seq<Seq<char>>,
    case_insensitive: bool,
) -> Seq<Seq<char>> {
    let case = if case_insensitive {
        seq!["-i"@]
    } else {
        Seq::empty()
    };
    seq!["grep"@, "-rnIE"@] + case + Seq::new(globs.len(), |i: int| "--include="@ + globs[i])
        + seq!["-e"@, pattern, root]
}

/// A line in the middle of reading, with a word begun.
spec fn reading(words: Seq<Seq<char>>, word: Seq<char>) -> ShellLine {
    ShellLine { words, word, reading: Reading::InWord }
}

proof fn lemma_next_word(words: Seq<Seq<char>>, word: Seq<char>, next: Seq<char>)
    requires
        next.len() > 0,
        forall|i: int| 0 <= i < next.len() ==> plain(#[trigger] next[i]),
    ensures
        read_on(reading(words, word), seq![' '] + next) == reading(words.push(word), next),
{
    let line = reading(words, word);
    let gap = ShellLine {
        words: words.push(word),
        word: Seq::empty(),
        reading: Reading::Between,
    };
    lemma_read_blank(line);
    lemma_read_concat(line, seq![' '], next);
    lemma_read_plain(gap, next);
    assert(gap.word + next =~= next);
}

proof fn lemma_next_quoted(words: Seq<Seq<char>>, word: Seq<char>, next: Seq<char>)
    ensures
        read_on(reading(words, word), seq![' '] + quoted(next)) == reading(words.push(word), next),
{
    let line = reading(words, word);
    let gap = ShellLine {
        words: words.push(word),
        word: Seq::empty(),
        reading: Reading::Between,
    };
    lemma_read_blank(line);
    lemma_read_concat(line, seq![' '], quoted(next));
    lemma_read_quoted(gap, next);
    assert(gap.word + next =~= next);
}

proof fn lemma_includes(words: Seq<Seq<char>>, word: Seq<char>, globs: Seq<Seq<char>>)
    ensures
        ({
            let opts = Seq::new(globs.len(), |i: int| "--include="@ + globs[i]);
            let end = read_on(reading(words, word), includes(globs));
            &&& end.reading is InWord
            &&& end.words.push(end.word) == words.push(word) + opts
        }),
    decreases globs.len(),
{
    let opts = Seq::new(globs.len(), |i: int| "--include="@ + globs[i]);
    if globs.len() == 0 {
        assert(words.push(word) + opts =~= words.push(word));
    } else {
        let rest = globs.drop_last();
        lemma_includes(words, word, rest);
        let mid = read_on(reading(words, word), includes(rest));
        let opt = "--include="@;
        reveal_strlit(" --include=");
        reveal_strlit("--include=");
        assert(" --include="@ =~= seq![' '] + opt);
        lemma_read_concat(
            reading(words, word),
            includes(rest) + " --include="@,
            quoted(globs.last()),
        );
        lemma_read_concat(reading(words, word), includes(rest), " --include="@);
        lemma_next_word(mid.words, mid.word, opt);
        let begun = reading(mid.words.push(mid.word), opt);
        lemma_read_quoted(begun, globs.last());
        let before = Seq::new(rest.len(), |i: int| "--include="@ + rest[i]);
        assert(mid.words.push(mid.word).push(opt + globs.last()) =~= words.push(word) + opts) by {
            assert(opts =~= before.push(opt + globs.last()));
        }
    }
}

/// A shell reads the command that searches as these words, whatever the
/// pattern, the directory and the file patterns hold.
pub proof fn command_is_read_as_words(
    pattern: Seq<char>,
    root: Seq<char>,
    globs: Seq<Seq<char>>,
    case_insensitive: bool,
)
    ensures
        shell_words(grep_command(pattern, root, globs, case_insensitive)) == Some(
            grep_words(pattern, root, globs, case_insensitive),
        ),
{
    let start = ShellLine {
        words: Seq::empty(),
        word: Seq::empty(),
        reading: Reading::Between,
    };
    reveal_strlit("grep -rnIE");
    reveal_strlit("grep");
    reveal_strlit("-rnIE");
    reveal_strlit(" -i");
    reveal_strlit("-i");
    reveal_strlit(" -e ");
    reveal_strlit("-e");
    reveal_strlit(" ");
    let name = "grep"@;
    let flags = "-rnIE"@;
    let none = Seq::<Seq<char>>::empty();
    // The name and the options that are always there.
    assert("grep -rnIE"@ =~= name + (seq![' '] + flags));
    lemma_read_plain(start, name);
    assert(start.word + name =~= name);
    lemma_read_concat(start, name, seq![' '] + flags);
    lemma_next_word(none, name, flags);
    let l1 = reading(none.push(name), flags);
    // The option for case.
    let case = case_option(case_insensitive);
    lemma_read_concat(start, "grep -rnIE"@, case);
    let l2 = read_on(l1, case);
    if case_insensitive {
        assert(" -i"@ =~= seq![' '] + "-i"@);
        lemma_next_word(l1.words, l1.word, "-i"@);
    }
    // The file patterns.
    lemma_read_concat(start, "grep -rnIE"@ + case, includes(globs));
    lemma_includes(l2.words, l2.word, globs);
    let l3 = read_on(l2, includes(globs));
    // The pattern.
    let head = "grep -rnIE"@ + case + includes(globs);
    let dash_e = seq![' '] + "-e"@;
    assert(" -e "@ + quoted(pattern) =~= dash_e + (seq![' '] + quoted(pattern)));
    assert(head + " -e "@ + quoted(pattern) =~= head + dash_e + (seq![' '] + quoted(pattern)));
    lemma_read_concat(start, head, dash_e);
    lemma_next_word(l3.words, l3.word, "-e"@);
    let l4 = reading(l3.words.push(l3.word), "-e"@);
    lemma_read_concat(start, head + dash_e, seq![' '] + quoted(pattern));
    lemma_next_quoted(l4.words, l4.word, pattern);
    let l5 = reading(l4.words.push(l4.word), pattern);
    // The directory.
    assert(" "@ =~= seq![' ']);
    let command = grep_command(pattern, root, globs, case_insensitive);
    assert(command =~= (head + dash_e + (seq![' '] + quoted(pattern))) + (seq![' '] + quoted(root)));
    lemma_read_concat(
        start,
        head + dash_e + (seq![' '] + quoted(pattern)),
        seq![' '] + quoted(root),
    );
    lemma_next_quoted(l5.words, l5.word, root);
    let opts = Seq::new(globs.len(), |i: int| "--include="@ + globs[i]);
    assert(l2.words.push(l2.word) + opts + seq!["-e"@, pattern, root] =~= grep_words(
        pattern,
        root,
        globs,
        case_insensitive,
    ));
    assert(l5.words.push(l5.word).push(root) =~= l3.words.push(l3.word) + seq![
        "-e"@,
        pattern,
        root,
    ]);
}

/// Every line is read by itself, whatever stands in the others: what lines tell
/// is what the first of them tell and then what the rest tell.
pub proof fn lines_are_read_one_by_one(root: Seq<char>, a: Seq<Seq<char>>, b: Seq<Seq<char>>)
    ensures
        hits_in(root, Seq::empty()) == Seq::<GrepHit<Seq<char>>>::empty(),
        hits_in(root, a + b) == hits_in(root, a) + hits_in(root, b),
    decreases b.len(),
{
    if b.len() == 0 {
        assert(a + b =~= a);
        assert(hits_in(root, a) + hits_in(root, b) =~= hits_in(root, a));
    } else {
        lines_are_read_one_by_one(root, a, b.drop_last());
        assert((a + b).drop_last() =~= a + b.drop_last());
        assert((a + b).last() == b.last());
        assert(hits_in(root, a + b) =~= hits_in(root, a) + hits_in(root, b));
    }
}

/// A line tells of a match where two colons stand in it with a number between
/// the first two: what stands before them is the path, and all that stands
/// behind them is the text. Any other line tells nothing.
pub proof fn a_line_tells_one_match(
    root: Seq<char>,
    path: Seq<char>,
    digits: Seq<char>,
    text: Seq<char>,
)
    requires
        !path.contains(':'),
        !digits.contains(':'),
    ensures
        hits_in(root, seq![path]) == Seq::<GrepHit<Seq<char>>>::empty(),
        hits_in(root, seq![path + seq![':'] + digits]) == Seq::<GrepHit<Seq<char>>>::empty(),
        hits_in(root, seq![path + seq![':'] + digits + seq![':'] + text]) == (match number_of(
            digits,
        ) {
            Some(n) => seq![GrepHit { path, rel: relative(root, path), line: n, text }],
            None => Seq::empty(),
        }),
{
    reveal_with_fuel(hits_in, 2);
    let line = path + seq![':'] + digits + seq![':'] + text;
    let half = path + seq![':'] + digits;
    let a = path.len() as int;
    let b = digits.len() as int;
    assert forall|j: int| 0 <= j < a implies #[trigger] path[j] != ':' by {
        assert(path.contains(path[j]));
    }
    assert forall|j: int| 0 <= j < b implies #[trigger] digits[j] != ':' by {
        assert(digits.contains(digits[j]));
    }
    assert forall|j: int| 0 <= j < a implies #[trigger] line[j] != ':' by {
        assert(line[j] == path[j]);
    }
    assert forall|j: int| 0 <= j < a implies #[trigger] half[j] != ':' by {
        assert(half[j] == path[j]);
    }
    lemma_first_index(path, ':', a);
    lemma_first_index(line, ':', a);
    lemma_first_index(half, ':', a);
    let rest = line.skip(a + 1);
    assert(rest =~= digits + seq![':'] + text);
    assert(half.skip(a + 1) =~= digits);
    assert forall|j: int| 0 <= j < b implies #[trigger] rest[j] != ':' by {
        assert(rest[j] == digits[j]);
    }
    lemma_first_index(rest, ':', b);
    lemma_first_index(digits, ':', b);
    assert(rest.take(b) =~= digits);
    assert(line.take(a) =~= path);
    assert(rest.skip(b + 1) =~= text);
    assert(seq![path].drop_last() =~= Seq::<Seq<char>>::empty());
    assert(seq![half].drop_last() =~= Seq::<Seq<char>>::empty());
    assert(seq![line].drop_last() =~= Seq::<Seq<char>>::empty());
    assert(hits_in(root, seq![line]) =~= (match number_of(digits) {
        Some(n) => seq![GrepHit { path, rel: relative(root, path), line: n, text }],
        None => Seq::empty(),
    }));
}

/// What `grep` prints for matches, each a path, a line number and a text.
pub open spec fn printed(matches: Seq<(Seq<char>, u64, Seq<char>)>) -> Seq<char>
    decreases matches.len(),
{
    if matches.len() == 0 {
        Seq::empty()
    } else {
        let m = matches[0];
        m.0 + seq![':'] + decimal(m.1 as nat) + seq![':'] + m.2 + seq!['\n'] + printed(
            matches.drop_first(),
        )
    }
}

proof fn lemma_printed(root: Seq<char>, matches: Seq<(Seq<char>, u64, Seq<char>)>)
    requires
        forall|i: int|
            0 <= i < matches.len() ==> {
                let m = #[trigger] matches[i];
                &&& !m.0.contains(':') && !m.0.contains('\n')
                &&& !m.2.contains('\n')
                &&& m.2.len() == 0 || m.2.last() != '\r'
            },
    ensures
        hits_in(root, lines_of(printed(matches))) == Seq::new(
            matches.len(),
            |i: int|
                GrepHit {
                    path: matches[i].0,
                    rel: relative(root, matches[i].0),
                    line: matches[i].1,
                    text: matches[i].2,
                },
        ),
    decreases matches.len(),
{
    let want = Seq::new(
        matches.len(),
        |i: int|
            GrepHit {
                path: matches[i].0,
                rel: relative(root, matches[i].0),
                line: matches[i].1,
                text: matches[i].2,
            },
    );
    if matches.len() == 0 {
        lines_go_one_by_one(Seq::empty(), Seq::empty());
        assert(hits_in(root, lines_of(printed(matches))) =~= want);
    } else {
        let m = matches[0];
        let rest = matches.drop_first();
        assert forall|i: int| 0 <= i < rest.len() implies ({
            let m = #[trigger] rest[i];
            &&& !m.0.contains(':') && !m.0.contains('\n')
            &&& !m.2.contains('\n')
            &&& m.2.len() == 0 || m.2.last() != '\r'
        }) by {
            assert(rest[i] == matches[i + 1]);
        }
        lemma_printed(root, rest);
        let d = decimal(m.1 as nat);
        let line = m.0 + seq![':'] + d + seq![':'] + m.2;
        lemma_decimal_reads_back(m.1 as nat);
        number_reads_back(m.1);
        assert(!d.contains(':') && !d.contains('\n')) by {
            if d.contains(':') {
                let j = choose|j: int| 0 <= j < d.len() && d[j] == ':';
                assert(is_digit(d[j]));
            }
            if d.contains('\n') {
                let j = choose|j: int| 0 <= j < d.len() && d[j] == '\n';
                assert(is_digit(d[j]));
            }
        }
        assert(!line.contains('\n')) by {
            if line.contains('\n') {
                let j = choose|j: int| 0 <= j < line.len() && line[j] == '\n';
                let a = m.0.len() as int;
                let b = d.len() as int;
                if j < a {
                    assert(m.0[j] == '\n');
                } else if a < j < a + 1 + b {
                    assert(d[j - a - 1] == '\n');
                } else if j > a + 1 + b {
                    assert(m.2[j - a - b - 2] == '\n');
                }
            }
        }
        assert(line.last() != '\r') by {
            if m.2.len() > 0 {
                assert(line.last() == m.2.last());
            } else {
                assert(line.last() == ':');
            }
        }
        lines_go_one_by_one(line, printed(rest));
        lines_are_read_one_by_one(root, seq![line], lines_of(printed(rest)));
        a_line_tells_one_match(root, m.0, d, m.2);
        let head = seq![GrepHit { path: m.0, rel: relative(root, m.0), line: m.1, text: m.2 }];
        assert(hits_in(root, lines_of(printed(matches))) =~= head + hits_in(
            root,
            lines_of(printed(rest)),
        ));
        assert(hits_in(root, lines_of(printed(matches))) =~= want);
    }
}

/// All matches that `grep` prints are found, in order, each with its path, its
/// line number and its text, as long as there are fewer than were asked for.
/// Else the first of them are found, as many as were asked for, or one where
/// none was, and only then is something said to be missing. The files are those
/// of the matches found.
pub proof fn printed_matches_are_found(
    root: Seq<char>,
    matches: Seq<(Seq<char>, u64, Seq<char>)>,
    max_results: usize,
    i: int,
)
    requires
        forall|k: int|
            0 <= k < matches.len() ==> {
                let m = #[trigger] matches[k];
                &&& !m.0.contains(':') && !m.0.contains('\n')
                &&& !m.2.contains('\n')
                &&& m.2.len() == 0 || m.2.last() != '\r'
            },
    ensures
        ({
            let found = grep_response(root, printed(matches), max_results);
            &&& found.truncated <==> matches.len() > 0 && matches.len() >= max_results
            &&& matches.len() < max_results ==> found.hits.len() == matches.len()
            &&& matches.len() >= max_results && max_results > 0 ==> found.hits.len() == max_results
            &&& matches.len() > 0 && max_results == 0 ==> found.hits.len() == 1
            &&& 0 <= i < found.hits.len() ==> {
                &&& found.hits[i].path == matches[i].0
                &&& found.hits[i].rel == relative(root, matches[i].0)
                &&& found.hits[i].line == matches[i].1
                &&& found.hits[i].text == matches[i].2
            }
            &&& found.files_scanned == Set::new(
                |p: Seq<char>|
                    exists|k: int| 0 <= k < found.hits.len() && (#[trigger] found.hits[k]).path == p,
            ).len()
        }),
{
    lemma_printed(root, matches);
    let found = grep_response(root, printed(matches), max_results);
    let named = Seq::new(found.hits.len(), |k: int| found.hits[k].path);
    let files = Set::new(
        |p: Seq<char>|
            exists|k: int| 0 <= k < found.hits.len() && (#[trigger] found.hits[k]).path == p,
    );
    assert forall|p: Seq<char>| named.to_set().contains(p) <==> files.contains(p) by {
        if files.contains(p) {
            let k = choose|k: int|
                0 <= k < found.hits.len() && (#[trigger] found.hits[k]).path == p;
            assert(named[k] == p);
        }
        if named.contains(p) {
            let k = choose|k: int| 0 <= k < named.len() && named[k] == p;
            assert(found.hits[k].path == p);
        }
    }
    assert(named.to_set() =~= files);
}

/// Searching asks for the command that a shell reads as `grep` with its options,
/// and for nothing where there is nothing to search for. What the host says
/// against it is what is said.
pub proof fn searching_contents_runs_grep(
    pattern: Seq<char>,
    root: Seq<char>,
    globs: Seq<Seq<char>>,
    case_insensitive: bool,
    max_results: usize,
    state: Grep<Seq<char>>,
    output: Seq<char>,
    e: Seq<char>,
)
    ensures
        pattern.len() == 0 ==> grep_start(pattern, root, globs, case_insensitive, max_results)
            == StepView::<Grep<Seq<char>>, GrepResponseView>::Finish(Err("empty pattern"@)),
        pattern.len() > 0 ==> {
            &&& grep_start(pattern, root, globs, case_insensitive, max_results) matches Step::Ask {
                request,
                state,
            }
            &&& request matches Request::Exec(command)
            &&& shell_words(command) == Some(
                seq!["grep"@, "-rnIE"@] + (if case_insensitive {
                    seq!["-i"@]
                } else {
                    Seq::empty()
                }) + Seq::new(globs.len(), |i: int| "--include="@ + globs[i]) + seq![
                    "-e"@,
                    pattern,
                    root,
                ],
            )
            &&& state == Grep { root, max_results }
        },
        grep_next(state, ReplyView::Output(output)) == StepView::<
            Grep<Seq<char>>,
            GrepResponseView,
        >::Finish(Ok(grep_response(state.root, output, state.max_results))),
        grep_next(state, ReplyView::Failed(e)) == StepView::<
            Grep<Seq<char>>,
            GrepResponseView,
        >::Finish(Err(e)),
        grep_next(state, ReplyView::Broken(e)) == StepView::<
            Grep<Seq<char>>,
            GrepResponseView,
        >::Finish(Err(e)),
{
    command_is_read_as_words(pattern, root, globs, case_insensitive);
}

/// Of what the output tells the first matches are kept, as many as were asked
/// for, or one where none was, and something is said to be missing exactly where
/// there are that many.
pub proof fn the_first_matches_are_kept(root: Seq<char>, output: Seq<char>, max_results: usize)
    ensures
        ({
            let all = hits_in(root, lines_of(output));
            let found = grep_response(root, output, max_results);
            &&& found.truncated <==> all.len() > 0 && all.len() >= max_results
            &&& !found.truncated ==> found.hits == all
            &&& found.truncated && max_results > 0 ==> found.hits == all.take(max_results as int)
            &&& found.truncated && max_results == 0 ==> found.hits == seq![all[0]]
        }),
{
    let all = hits_in(root, lines_of(output));
    if all.len() > 0 {
        assert(all.take(1) =~= seq![all[0]]);
    }
}

} // verus!
