//! The `terax` command: what it asks of the running app and what it tells the
//! user.
//!
//! Each side sends the other one JSON object on a line of its own.
use std::path::PathBuf;
use vstd::prelude::*;
use vstd::string::*;

use crate::json::{
    json_members, json_text, member, read_object, reads_as, writable, write_object, Members,
};
use crate::paths::{local_path, plain_path, LocalPath, LocalView};
use crate::table::{lemma_position, lookup};
use crate::text::{join_from, joined, lemma_trim_line, same, texts, trimmed};

verus! {

/// How long the command waits for the app, in seconds.
pub const REPLY_TIMEOUT_SECS: u64 = 20;

/// Whether a word is a subcommand.
pub open spec fn is_subcommand(word: Seq<char>) -> bool {
    word == "new-terminal"@ || word == "list"@
}

/// What the command asks of the app.
#[derive(Clone, Debug, PartialEq, Eq)]
pub enum CliRequest<S = String> {
    /// The open terminals.
    List,
    /// A new terminal, in a directory, with a title, in which a command runs.
    NewTerminal { cwd: Option<S>, title: Option<S>, run: S },
}

impl DeepView for CliRequest {
    type V = CliRequest<Seq<char>>;

    open spec fn deep_view(&self) -> CliRequest<Seq<char>> {
        match self {
            CliRequest::List => CliRequest::List,
            CliRequest::NewTerminal { cwd, title, run } => CliRequest::NewTerminal {
                cwd: cwd.deep_view(),
                title: title.deep_view(),
                run: run@,
            },
        }
    }
}

/// A word of the command line, where there is one at that place.
pub open spec fn word_at(args: Seq<Seq<char>>, i: int) -> Option<Seq<char>> {
    if 0 <= i < args.len() {
        Some(args[i])
    } else {
        None
    }
}

/// What the words from a place on ask for of a new terminal, given what those
/// before it asked for. An option at the end of the line has no value, and
/// what follows two dashes is the command to run.
pub open spec fn terminal_request(
    args: Seq<Seq<char>>,
    i: int,
    cwd: Option<Seq<char>>,
    title: Option<Seq<char>>,
) -> Result<CliRequest<Seq<char>>, Seq<char>>
    decreases args.len() + 1 - i,
{
    if i >= args.len() {
        Ok(CliRequest::NewTerminal { cwd, title, run: Seq::empty() })
    } else if args[i] == "--cwd"@ {
        terminal_request(args, i + 2, word_at(args, i + 1), title)
    } else if args[i] == "--title"@ {
        terminal_request(args, i + 2, cwd, word_at(args, i + 1))
    } else if args[i] == "--"@ {
        Ok(CliRequest::NewTerminal { cwd, title, run: joined(args.skip(i + 1), " "@) })
    } else {
        Err("unknown argument: "@ + args[i])
    }
}

/// What a command line asks for.
pub open spec fn request_in(args: Seq<Seq<char>>) -> Result<CliRequest<Seq<char>>, Seq<char>> {
    if args[0] == "list"@ {
        Ok(CliRequest::List)
    } else if args[0] == "new-terminal"@ {
        terminal_request(args, 1, None, None)
    } else {
        Err("unknown command: "@ + args[0])
    }
}

/// Whether a result is the one that a spec function gives.
pub open spec fn agrees(
    r: Result<CliRequest, String>,
    s: Result<CliRequest<Seq<char>>, Seq<char>>,
) -> bool {
    match (r, s) {
        (Ok(a), Ok(b)) => a.deep_view() == b,
        (Err(a), Err(b)) => a@ == b,
        _ => false,
    }
}

fn word(args: &Vec<String>, i: usize) -> (r: Option<String>)
    ensures
        r.deep_view() == word_at(texts(args@), i as int),
{
    if i < args.len() {
        Some(args[i].clone())
    } else {
        None
    }
}

fn read_options(args: &Vec<String>) -> (r: Result<CliRequest, String>)
    requires
        args@.len() > 0,
    ensures
        agrees(r, terminal_request(texts(args@), 1, None, None)),
{
    let ghost all = texts(args@);
    let mut cwd: Option<String> = None;
    let mut title: Option<String> = None;
    let mut i: usize = 1;
    let n: usize = args.len();
    while i < n
        invariant
            n == args@.len(),
            all == texts(args@),
            terminal_request(all, i as int, cwd.deep_view(), title.deep_view())
                == terminal_request(all, 1, None, None),
        decreases n + 1 - i,
    {
        let w = args[i].as_str();
        assert(all[i as int] == w@);
        if same(w, "--cwd") {
            if i + 1 < n {
                cwd = word(args, i + 1);
                i = i + 2;
            } else {
                cwd = None;
                assert(terminal_request(all, i + 2, None, title.deep_view()) == terminal_request(
                    all,
                    n as int,
                    None,
                    title.deep_view(),
                ));
                i = n;
            }
        } else if same(w, "--title") {
            if i + 1 < n {
                title = word(args, i + 1);
                i = i + 2;
            } else {
                title = None;
                assert(terminal_request(all, i + 2, cwd.deep_view(), None) == terminal_request(
                    all,
                    n as int,
                    cwd.deep_view(),
                    None,
                ));
                i = n;
            }
        } else if same(w, "--") {
            let run = join_from(args, i + 1, " ");
            return Ok(CliRequest::NewTerminal { cwd, title, run });
        } else {
            return Err("unknown argument: ".to_owned().concat(w));
        }
    }
    let run = String::new();
    assert(run@ =~= Seq::<char>::empty());
    Ok(CliRequest::NewTerminal { cwd, title, run })
}

/// Reads what a command line asks for.
pub fn build_request(args: &Vec<String>) -> (r: Result<CliRequest, String>)
    requires
        args@.len() > 0,
    ensures
        agrees(r, request_in(texts(args@))),
{
    let first = args[0].as_str();
    assert(texts(args@)[0] == first@);
    if same(first, "list") {
        Ok(CliRequest::List)
    } else if same(first, "new-terminal") {
        read_options(args)
    } else {
        Err("unknown command: ".to_owned().concat(first))
    }
}

/// The members of the object that is sent for a request.
pub open spec fn request_members(req: CliRequest<Seq<char>>) -> Members {
    match req {
        CliRequest::List => seq![("cmd"@, Some("list"@))],
        CliRequest::NewTerminal { cwd, title, run } => seq![
            ("cmd"@, Some("new-terminal"@)),
            ("cwd"@, cwd),
            ("title"@, title),
            ("run"@, Some(run)),
        ],
    }
}

proof fn lemma_request_writable(req: CliRequest<Seq<char>>)
    ensures
        writable(request_members(req)),
{
    reveal_strlit("cmd");
    reveal_strlit("cwd");
    reveal_strlit("title");
    reveal_strlit("run");
    let m = request_members(req);
    assert("cmd"@[1] == 'm' && "cwd"@[1] == 'w');
    assert("title"@.len() == 5);
    assert("run"@[0] == 'r' && "cmd"@[0] == 'c' && "cwd"@[0] == 'c');
    assert forall|i: int, j: int| 0 <= i < j < m.len() implies (#[trigger] m[i]).0 != (
    #[trigger] m[j]).0 by {
    }
}

/// The line that is sent for a request: a JSON object with its members and
/// nothing around it but a line feed at the end, which is the only one.
pub fn request_line(req: CliRequest) -> (r: String)
    ensures
        r@ == json_text(request_members(req.deep_view())).push('\n'),
        !r@.drop_last().contains('\n'),
        reads_as(trimmed(r@), request_members(req.deep_view())),
{
    let ghost want = request_members(req.deep_view());
    proof {
        lemma_request_writable(req.deep_view());
    }
    let mut members: Vec<(String, Option<String>)> = Vec::new();
    match req {
        CliRequest::List => {
            members.push(("cmd".to_owned(), Some("list".to_owned())));
        },
        CliRequest::NewTerminal { cwd, title, run } => {
            members.push(("cmd".to_owned(), Some("new-terminal".to_owned())));
            members.push(("cwd".to_owned(), cwd));
            members.push(("title".to_owned(), title));
            members.push(("run".to_owned(), Some(run)));
        },
    }
    assert(members.deep_view() =~= want);
    let text = write_object(&members);
    proof {
        lemma_trim_line(text@);
    }
    end_line(text)
}

/// A text with a line feed behind it.
pub fn end_line(text: String) -> (r: String)
    ensures
        r@ == text@.push('\n'),
        r@.drop_last() == text@,
{
    proof {
        reveal_strlit("\n");
    }
    let r = text.concat("\n");
    assert(r@ =~= text@.push('\n'));
    assert(r@.drop_last() =~= text@);
    r
}

/// How a run of the command ends: its exit code and what it says on either
/// channel, each with a line feed behind it.
#[derive(Clone, Debug, PartialEq, Eq)]
pub struct Outcome<O = Option<String>> {
    pub code: i32,
    pub out: O,
    pub err: O,
}

/// How a run ends, as contracts speak of it.
pub type OutcomeView = Outcome<Option<Seq<char>>>;

impl DeepView for Outcome {
    type V = OutcomeView;

    open spec fn deep_view(&self) -> OutcomeView {
        Outcome { code: self.code, out: self.out.deep_view(), err: self.err.deep_view() }
    }
}

/// A run that ends with a complaint.
pub open spec fn complains(code: i32, message: Seq<char>) -> OutcomeView {
    Outcome { code, out: None, err: Some("terax: "@ + message) }
}

/// How a run ends whose command line asks for nothing that there is.
pub open spec fn misused(message: Seq<char>) -> OutcomeView {
    complains(2, message)
}

fn complain(code: i32, message: &str) -> (r: Outcome)
    ensures
        r.deep_view() == complains(code, message@),
{
    Outcome { code, out: None, err: Some("terax: ".to_owned().concat(message)) }
}

/// Starts a run of the command: the line to send, or how the run ends where
/// the command line asks for nothing that there is.
pub fn run(args: &Vec<String>) -> (r: Result<String, Outcome>)
    requires
        args@.len() > 0,
    ensures
        match request_in(texts(args@)) {
            Ok(req) => {
                &&& r is Ok
                &&& r->Ok_0@ == json_text(request_members(req)).push('\n')
                &&& !r->Ok_0@.drop_last().contains('\n')
                &&& reads_as(trimmed(r->Ok_0@), request_members(req))
            },
            Err(e) => r is Err && r->Err_0.deep_view() == misused(e),
        },
{
    match build_request(args) {
        Ok(req) => Ok(request_line(req)),
        Err(e) => Err(complain(2, e.as_str())),
    }
}

/// Starts a run of the command where the command line begins with a
/// subcommand; else there is none to run.
pub fn try_run_cli(args: &Vec<String>) -> (r: Option<Result<String, Outcome>>)
    ensures
        r is Some <==> args@.len() > 0 && is_subcommand(args@[0]@),
        r is Some ==> match request_in(texts(args@)) {
            Ok(req) => {
                &&& r->0 is Ok
                &&& r->0->Ok_0@ == json_text(request_members(req)).push('\n')
                &&& !r->0->Ok_0@.drop_last().contains('\n')
                &&& reads_as(trimmed(r->0->Ok_0@), request_members(req))
            },
            Err(e) => r->0 is Err && r->0->Err_0.deep_view() == misused(e),
        },
{
    if args.len() == 0 {
        return None;
    }
    let first = args[0].as_str();
    if same(first, "new-terminal") || same(first, "list") {
        Some(run(args))
    } else {
        None
    }
}

/// How a run ends with the reply of the app: whether it is a JSON value, and
/// its members `error` and `output`.
pub open spec fn reply_outcome(
    valid: bool,
    error: Option<Option<Seq<char>>>,
    output: Option<Option<Seq<char>>>,
) -> OutcomeView {
    if !valid {
        complains(1, "malformed reply from Terax"@)
    } else {
        match (error, output) {
            (Some(Some(e)), _) => complains(1, e),
            (_, Some(Some(o))) => if o.len() > 0 {
                Outcome { code: 0, out: Some(o), err: None }
            } else {
                Outcome { code: 0, out: None, err: None }
            },
            _ => Outcome { code: 0, out: None, err: None },
        }
    }
}

/// How a run ends when the app replies with a line.
pub open spec fn line_outcome(line: Seq<char>) -> OutcomeView {
    let members = json_members(line);
    reply_outcome(
        members is Some,
        member(members->0, "error"@),
        member(members->0, "output"@),
    )
}

/// How a run ends when the app cannot be reached.
pub open spec fn unreachable_outcome(e: Seq<char>) -> OutcomeView {
    complains(
        1,
        "cannot reach Terax ("@ + e
            + "). Is the app running, and are you in a Terax terminal?"@,
    )
}

fn find_text(members: &Vec<(String, Option<String>)>, name: &str) -> (r: Option<String>)
    ensures
        r.deep_view() == (match lookup(members.deep_view(), name@) {
            Some(Some(s)) => Some(s),
            _ => None,
        }),
{
    let mut k: usize = 0;
    while k < members.len()
        invariant
            k <= members@.len(),
            forall|j: int| 0 <= j < k ==> (#[trigger] members.deep_view()[j]).0 != name@,
        decreases members@.len() - k,
    {
        if same(members[k].0.as_str(), name) {
            proof {
                lemma_position(members.deep_view(), name@, k as int);
            }
            return match &members[k].1 {
                Some(s) => Some(s.clone()),
                None => None,
            };
        }
        k = k + 1;
    }
    proof {
        lemma_position(members.deep_view(), name@, k as int);
    }
    None
}

/// Ends a run with the members of the object that the app replied with.
pub fn end_with(members: Option<Vec<(String, Option<String>)>>) -> (r: Outcome)
    ensures
        r.deep_view() == reply_outcome(
            members is Some,
            lookup(members->0.deep_view(), "error"@),
            lookup(members->0.deep_view(), "output"@),
        ),
{
    match members {
        None => complain(1, "malformed reply from Terax"),
        Some(m) => match find_text(&m, "error") {
            Some(e) => complain(1, e.as_str()),
            None => {
                let out = match find_text(&m, "output") {
                    Some(o) => if o.as_str().is_empty() {
                        None
                    } else {
                        Some(o)
                    },
                    None => None,
                };
                Outcome { code: 0, out, err: None }
            },
        },
    }
}

/// Ends a run with the line that came back from the app, or with why none did.
pub fn end_run(reply: Result<String, String>) -> (r: Outcome)
    ensures
        match reply {
            Ok(line) => r.deep_view() == line_outcome(line@),
            Err(e) => r.deep_view() == unreachable_outcome(e@),
        },
{
    match reply {
        Ok(line) => {
            let members = read_object(line.as_str());
            assert(members is Some ==> {
                &&& lookup(members->0.deep_view(), "error"@) == member(
                    json_members(line@)->0,
                    "error"@,
                )
                &&& lookup(members->0.deep_view(), "output"@) == member(
                    json_members(line@)->0,
                    "output"@,
                )
            });
            end_with(members)
        },
        Err(e) => {
            let mut s = "cannot reach Terax (".to_owned().concat(e.as_str());
            s.append("). Is the app running, and are you in a Terax terminal?");
            complain(1, s.as_str())
        },
    }
}

/// Where the socket of the app stands, below the directory for temporary files.
pub open spec fn socket_below(temp_dir: PathBuf) -> LocalView {
    LocalPath { dir: Some(temp_dir), parts: seq!["terax-cli.sock"@] }
}

/// Names the socket of the app, below the directory for temporary files.
pub fn socket_path(temp_dir: PathBuf) -> (r: LocalPath)
    ensures
        r@ == socket_below(temp_dir),
{
    let mut parts: Vec<String> = Vec::new();
    parts.push("terax-cli.sock".to_owned());
    let r = LocalPath { dir: Some(temp_dir), parts };
    assert(r@.parts =~= seq!["terax-cli.sock"@]);
    r
}

/// The socket that a run of the command uses: the one that the terminal names,
/// or else that of the app.
pub open spec fn socket_used(named: Option<Seq<char>>, temp_dir: PathBuf) -> LocalView {
    match named {
        Some(s) => plain_path(s),
        None => socket_below(temp_dir),
    }
}

/// Names the socket that a run of the command uses.
pub fn client_socket(named: Option<String>, temp_dir: PathBuf) -> (r: LocalPath)
    ensures
        r@ == socket_used(named.deep_view(), temp_dir),
{
    match named {
        Some(s) => local_path(s),
        None => socket_path(temp_dir),
    }
}

/// Options for a new terminal with their values: a directory where the flag is
/// set, and else a title.
pub open spec fn option_words(options: Seq<(bool, Seq<char>)>) -> Seq<Seq<char>>
    decreases options.len(),
{
    if options.len() == 0 {
        Seq::empty()
    } else {
        seq![
            if options[0].0 {
                "--cwd"@
            } else {
                "--title"@
            },
            options[0].1,
        ] + option_words(options.drop_first())
    }
}

/// The value that the last option of a kind has.
pub open spec fn last_value(options: Seq<(bool, Seq<char>)>, cwd: bool) -> Option<Seq<char>>
    decreases options.len(),
{
    if options.len() == 0 {
        None
    } else if options.last().0 == cwd {
        Some(options.last().1)
    } else {
        last_value(options.drop_last(), cwd)
    }
}

/// The value after more options, given that before them.
spec fn value_after(
    options: Seq<(bool, Seq<char>)>,
    cwd: bool,
    before: Option<Seq<char>>,
) -> Option<Seq<char>> {
    match last_value(options, cwd) {
        Some(v) => Some(v),
        None => before,
    }
}

proof fn lemma_last_value(first: (bool, Seq<char>), rest: Seq<(bool, Seq<char>)>, cwd: bool)
    ensures
        last_value(seq![first] + rest, cwd) == (match last_value(rest, cwd) {
            Some(v) => Some(v),
            None => if first.0 == cwd {
                Some(first.1)
            } else {
                None
            },
        }),
    decreases rest.len(),
{
    reveal_with_fuel(last_value, 2);
    let all = seq![first] + rest;
    if rest.len() == 0 {
        assert(all.drop_last() =~= Seq::<(bool, Seq<char>)>::empty());
    } else {
        lemma_last_value(first, rest.drop_last(), cwd);
        assert(all.drop_last() =~= seq![first] + rest.drop_last());
        assert(all.last() == rest.last());
    }
}

proof fn lemma_option_words(
    head: Seq<Seq<char>>,
    options: Seq<(bool, Seq<char>)>,
    tail: Seq<Seq<char>>,
    cwd: Option<Seq<char>>,
    title: Option<Seq<char>>,
)
    ensures
        option_words(options).len() == 2 * options.len(),
        terminal_request(head + option_words(options) + tail, head.len() as int, cwd, title)
            == terminal_request(
            head + option_words(options) + tail,
            head.len() as int + 2 * options.len(),
            value_after(options, true, cwd),
            value_after(options, false, title),
        ),
    decreases options.len(),
{
    reveal_strlit("--cwd");
    reveal_strlit("--title");
    assert("--cwd"@.len() != "--title"@.len());
    if options.len() > 0 {
        let o = options[0];
        let rest = options.drop_first();
        let words = seq![
            if o.0 {
                "--cwd"@
            } else {
                "--title"@
            },
            o.1,
        ];
        let args = head + option_words(options) + tail;
        assert(options =~= seq![o] + rest);
        lemma_last_value(o, rest, true);
        lemma_last_value(o, rest, false);
        assert(args =~= (head + words) + option_words(rest) + tail);
        let n = head.len() as int;
        assert(args[n] == words[0] && args[n + 1] == words[1]);
        let cwd2 = if o.0 {
            Some(o.1)
        } else {
            cwd
        };
        let title2 = if o.0 {
            title
        } else {
            Some(o.1)
        };
        lemma_option_words(head + words, rest, tail, cwd2, title2);
        assert(option_words(options).len() == 2 + option_words(rest).len());
    }
}

/// A new terminal is asked for with the last directory and the last title that
/// the options name, and with the words behind two dashes as the command to run,
/// blanks between them. An option at the end without a value takes back what was
/// named before it, and any other word is complained of.
pub proof fn command_lines_are_read_word_by_word(
    options: Seq<(bool, Seq<char>)>,
    words: Seq<Seq<char>>,
    other: Seq<char>,
    more: Seq<Seq<char>>,
)
    requires
        other != "--cwd"@ && other != "--title"@ && other != "--"@,
    ensures
        ({
            let asked = seq!["new-terminal"@] + option_words(options);
            let cwd = last_value(options, true);
            let title = last_value(options, false);
            &&& request_in(asked) == Ok::<CliRequest<Seq<char>>, Seq<char>>(
                CliRequest::NewTerminal { cwd, title, run: Seq::empty() },
            )
            &&& request_in(asked + (seq!["--"@] + words)) == Ok::<CliRequest<Seq<char>>, Seq<char>>(
                CliRequest::NewTerminal { cwd, title, run: joined(words, seq![' ']) },
            )
            &&& request_in(asked + seq!["--cwd"@]) == Ok::<CliRequest<Seq<char>>, Seq<char>>(
                CliRequest::NewTerminal { cwd: None, title, run: Seq::empty() },
            )
            &&& request_in(asked + seq!["--title"@]) == Ok::<CliRequest<Seq<char>>, Seq<char>>(
                CliRequest::NewTerminal { cwd, title: None, run: Seq::empty() },
            )
            &&& request_in(asked + (seq![other] + more)) == Err::<CliRequest<Seq<char>>, Seq<char>>(
                "unknown argument: "@ + other,
            )
        }),
{
    reveal_with_fuel(terminal_request, 3);
    reveal_strlit("new-terminal");
    reveal_strlit("list");
    reveal_strlit("--");
    reveal_strlit("--cwd");
    reveal_strlit("--title");
    reveal_strlit(" ");
    assert(" "@ =~= seq![' ']);
    assert("new-terminal"@.len() != "list"@.len());
    assert("--"@.len() != "--cwd"@.len() && "--"@.len() != "--title"@.len() && "--cwd"@.len()
        != "--title"@.len());
    let head = seq!["new-terminal"@];
    let o = option_words(options);
    let none = Seq::<Seq<char>>::empty();
    let n: int = 1 + 2 * options.len() as int;
    lemma_option_words(head, options, none, None, None);
    lemma_option_words(head, options, seq!["--"@] + words, None, None);
    lemma_option_words(head, options, seq!["--cwd"@], None, None);
    lemma_option_words(head, options, seq!["--title"@], None, None);
    lemma_option_words(head, options, seq![other] + more, None, None);
    assert(head + o + none =~= head + o);
    let a = head + o + (seq!["--"@] + words);
    assert(a[n] == "--"@ && a[0] == "new-terminal"@);
    assert(a.skip(n + 1) =~= words);
    let b = head + o + seq!["--cwd"@];
    assert(b[n] == "--cwd"@ && b[0] == "new-terminal"@);
    let c = head + o + seq!["--title"@];
    assert(c[n] == "--title"@ && c[0] == "new-terminal"@);
    let d = head + o + (seq![other] + more);
    assert(d[n] == other && d[0] == "new-terminal"@);
    assert((head + o)[0] == "new-terminal"@);
}

/// The open terminals are asked for by their word, whatever follows it, and no
/// other word is one that the command knows.
pub proof fn commands_go_by_their_first_word(word: Seq<char>, more: Seq<Seq<char>>)
    ensures
        request_in(seq!["list"@] + more) == Ok::<CliRequest<Seq<char>>, Seq<char>>(
            CliRequest::List,
        ),
        word != "list"@ && word != "new-terminal"@ ==> request_in(seq![word] + more) == Err::<
            CliRequest<Seq<char>>,
            Seq<char>,
        >("unknown command: "@ + word),
        is_subcommand(word) <==> request_in(seq![word]) is Ok,
        is_subcommand(word) <==> word == "list"@ || word == "new-terminal"@,
{
    reveal_with_fuel(terminal_request, 2);
    assert((seq!["list"@] + more)[0] == "list"@);
    assert((seq![word] + more)[0] == word);
}

/// What is sent for a request names it and holds what it holds, and nothing
/// else.
pub proof fn requests_are_sent_member_by_member(
    cwd: Option<Seq<char>>,
    title: Option<Seq<char>>,
    run: Seq<char>,
    other: Seq<char>,
)
    ensures
        lookup(request_members(CliRequest::List), "cmd"@) == Some(Some("list"@)),
        other != "cmd"@ ==> lookup(request_members(CliRequest::List), other) is None,
        ({
            let m = request_members(CliRequest::NewTerminal { cwd, title, run });
            &&& lookup(m, "cmd"@) == Some(Some("new-terminal"@))
            &&& lookup(m, "cwd"@) == Some(cwd)
            &&& lookup(m, "title"@) == Some(title)
            &&& lookup(m, "run"@) == Some(Some(run))
            &&& other != "cmd"@ && other != "cwd"@ && other != "title"@ && other != "run"@
                ==> lookup(m, other) is None
        }),
{
    reveal_strlit("cmd");
    reveal_strlit("cwd");
    reveal_strlit("title");
    reveal_strlit("run");
    assert("cmd"@[1] == 'm' && "cwd"@[1] == 'w');
    assert("title"@.len() == 5 && "run"@[0] == 'r' && "cmd"@[0] == 'c' && "cwd"@[0] == 'c');
    let l = request_members(CliRequest::List);
    lemma_position(l, "cmd"@, 0);
    if other != "cmd"@ {
        lemma_position(l, other, 1);
    }
    let m = request_members(CliRequest::NewTerminal { cwd, title, run });
    lemma_position(m, "cmd"@, 0);
    lemma_position(m, "cwd"@, 1);
    lemma_position(m, "title"@, 2);
    lemma_position(m, "run"@, 3);
    if other != "cmd"@ && other != "cwd"@ && other != "title"@ && other != "run"@ {
        lemma_position(m, other, 4);
    }
}

/// A run fails with the error that the app replies with, whatever else the reply
/// holds. Else it succeeds and prints the output of the reply, unless there is
/// none or it is empty. It fails where the reply is no JSON value and where the
/// app cannot be reached, and says so; where the command line could not be read
/// it fails otherwise.
pub proof fn runs_end_with_the_reply(
    line: Seq<char>,
    m: Map<Seq<char>, Option<Seq<char>>>,
    e: Seq<char>,
)
    ensures
        json_members(line) is None ==> line_outcome(line) == (Outcome {
            code: 1,
            out: None,
            err: Some("terax: "@ + "malformed reply from Terax"@),
        }),
        json_members(line) == Some(m) ==> {
            let failed = m.dom().contains("error"@) && m["error"@] is Some;
            let printed = m.dom().contains("output"@) && m["output"@] is Some
                && m["output"@]->0.len() > 0;
            &&& failed ==> line_outcome(line) == (Outcome {
                code: 1,
                out: None,
                err: Some("terax: "@ + m["error"@]->0),
            })
            &&& !failed && printed ==> line_outcome(line) == (Outcome {
                code: 0,
                out: Some(m["output"@]->0),
                err: None,
            })
            &&& !failed && !printed ==> line_outcome(line) == (OutcomeView {
                code: 0,
                out: None,
                err: None,
            })
        },
        unreachable_outcome(e) == (Outcome {
            code: 1,
            out: None,
            err: Some(
                "terax: "@ + ("cannot reach Terax ("@ + e
                    + "). Is the app running, and are you in a Terax terminal?"@),
            ),
        }),
        misused(e) == (Outcome { code: 2, out: None, err: Some("terax: "@ + e) }),
{
}

/// The socket of the app has one name, in the directory for temporary files. The
/// command uses it unless its terminal names another, which it uses as it is.
pub proof fn the_socket_has_its_place(named: Seq<char>, temp_dir: PathBuf)
    ensures
        socket_used(None, temp_dir) == (LocalPath {
            dir: Some(temp_dir),
            parts: seq!["terax-cli.sock"@],
        }),
        socket_below(temp_dir) == socket_used(None, temp_dir),
        socket_used(Some(named), temp_dir) == (LocalPath { dir: None, parts: seq![named] }),
{
}

} // verus!
