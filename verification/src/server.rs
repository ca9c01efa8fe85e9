//! The app's side of the `terax` command: requests that wait for an answer.
use vstd::prelude::*;
use vstd::string::*;

use crate::cli::{
    complains, end_line, line_outcome, request_members, CliRequest, Outcome, REPLY_TIMEOUT_SECS,
};
use crate::json::{json_members, json_text, read_object, reads_as, write_object, Members};
use crate::numbers::{decimal, decimal_is_injective, decimal_text, is_digit, lemma_decimal_reads_back};
use crate::table::{
    distinct, lemma_position, lookup, put, put_is_found, removed_is_gone, without, Table,
};
use crate::text::{
    from_chars, lemma_first_index, to_chars, trim, trimmed, trimming_leaves_the_text, whitespace,
};

verus! {

/// How long the server waits for the answer to a request, in seconds.
pub const ANSWER_TIMEOUT_SECS: u64 = 15;

/// The requests that wait for an answer, each with the sender that passes the
/// answer on.
pub struct Pending<T> {
    pid: u32,
    counter: u64,
    senders: Table<T>,
}

/// The requests that wait for an answer, as contracts speak of them.
pub struct PendingView<T> {
    pub pid: u32,
    pub counter: u64,
    pub senders: Seq<(Seq<char>, T)>,
}

impl<T> View for Pending<T> {
    type V = PendingView<T>;

    closed spec fn view(&self) -> PendingView<T> {
        PendingView { pid: self.pid, counter: self.counter, senders: self.senders@ }
    }
}

/// Names a request: the process and how many requests it had before.
pub open spec fn request_id(pid: u32, counter: u64) -> Seq<char> {
    decimal(pid as nat) + "-"@ + decimal(counter as nat)
}

/// The number of the next request; after the largest comes zero.
pub open spec fn next_counter(counter: u64) -> u64 {
    if counter == u64::MAX {
        0
    } else {
        (counter + 1) as u64
    }
}

/// A request that was taken on: its name and the JSON text of what is asked.
#[derive(Clone, Debug, PartialEq, Eq)]
pub struct Taken<S = String> {
    pub id: S,
    pub request: S,
}

impl DeepView for Taken {
    type V = Taken<Seq<char>>;

    open spec fn deep_view(&self) -> Taken<Seq<char>> {
        Taken { id: self.id@, request: self.request@ }
    }
}

/// What a line asks: the line without white space around it, or an empty
/// object where it is no JSON value.
pub open spec fn asked_in(line: Seq<char>, valid: bool) -> Seq<char> {
    if valid {
        trimmed(line)
    } else {
        "{}"@
    }
}

/// What the frontend is told of a request: a JSON object with its name, and
/// with the value that is asked.
pub open spec fn event_text(id: Seq<char>, request: Seq<char>) -> Seq<char> {
    json_text(seq![("id"@, Some(id))]).drop_last() + ",\"request\":"@ + request + "}"@
}

impl Taken {
    /// What the frontend is told of the request. What stands before the closing
    /// brace of an object with one member is followed by the second.
    pub fn event(&self) -> (r: String)
        ensures
            r@ == event_text(self.id@, self.request@),
    {
        let mut members: Vec<(String, Option<String>)> = Vec::new();
        members.push(("id".to_owned(), Some(self.id.clone())));
        assert(members.deep_view() =~= seq![("id"@, Some(self.id@))]);
        proof {
            reveal_strlit("id");
        }
        let head = write_object(&members);
        let v = to_chars(head.as_str());
        let n: usize = v.len();
        let mut out = from_chars(&v, 0, n - 1);
        assert(out@ =~= head@.drop_last());
        out.append(",\"request\":");
        out.append(self.request.as_str());
        out.append("}");
        out
    }
}

/// Prepares to take requests on, in the process of this number.
pub fn pending<T>(pid: u32) -> (p: Pending<T>)
    ensures
        p@ == (PendingView::<T> { pid, counter: 0, senders: Seq::empty() }),
        distinct(p@.senders),
{
    Pending { pid, counter: 0, senders: Table::new() }
}

fn name_request(pid: u32, counter: u64) -> (r: String)
    ensures
        r@ == request_id(pid, counter),
{
    let mut id = decimal_text(pid as u64);
    id.append("-");
    let digits = decimal_text(counter);
    id.append(digits.as_str());
    id
}

/// The members of an object that tells of an error.
pub open spec fn error_members(message: Seq<char>) -> Members {
    seq![("error"@, Some(message))]
}

/// What is answered where nobody else does: that the time is up, or that there
/// was nobody to ask.
pub open spec fn excuse(emitted: bool) -> Seq<char> {
    if emitted {
        "Terax did not respond in time"@
    } else {
        "Terax UI not ready"@
    }
}

/// Writes an object that tells of an error. Who reads it on a line ends with
/// that complaint.
fn error_reply(message: &str) -> (r: String)
    ensures
        r@ == json_text(error_members(message@)),
        !r@.contains('\n'),
        reads_as(r@, error_members(message@)),
        line_outcome(r@.push('\n')) == complains(1, message@),
{
    let mut members: Vec<(String, Option<String>)> = Vec::new();
    members.push(("error".to_owned(), Some(message.to_owned())));
    assert(members.deep_view() =~= error_members(message@));
    proof {
        reveal_strlit("error");
    }
    let r = write_object(&members);
    proof {
        let m = error_members(message@);
        assert(m[0].0 == "error"@);
        lemma_position(m, "error"@, 0);
        assert(lookup(m, "error"@) == Some(Some(message@)));
    }
    r
}

/// What a line gives to answer: a request with its name, or nothing where the
/// line is blank.
pub open spec fn taken_in<T>(p: PendingView<T>, line: Seq<char>, valid: bool) -> Option<
    Taken<Seq<char>>,
> {
    if trimmed(line).len() == 0 {
        None
    } else {
        Some(Taken { id: request_id(p.pid, p.counter), request: asked_in(line, valid) })
    }
}

/// What waits once a line was taken on: the request in it too, with its sender.
pub open spec fn pending_after<T>(p: PendingView<T>, line: Seq<char>, sender: T) -> PendingView<T> {
    if trimmed(line).len() == 0 {
        p
    } else {
        PendingView {
            pid: p.pid,
            counter: next_counter(p.counter),
            senders: put(p.senders, request_id(p.pid, p.counter), sender),
        }
    }
}

/// What waits once a request does not any more.
pub open spec fn pending_without<T>(p: PendingView<T>, id: Seq<char>) -> PendingView<T> {
    PendingView { senders: without(p.senders, id), ..p }
}

/// What an answer is passed on as: the sender of the request and the answer, or
/// nothing where no request has the name.
pub open spec fn passed_on<T>(p: PendingView<T>, id: Seq<char>, result: Seq<char>) -> Option<
    (T, Seq<char>),
> {
    match lookup(p.senders, id) {
        Some(sender) => Some((sender, result)),
        None => None,
    }
}

impl<T> Pending<T> {
    /// Takes on the request in a line that is a JSON value or is not; a blank
    /// line asks nothing.
    pub fn take_on(&mut self, line: &str, valid: bool, sender: T) -> (r: Option<Taken>)
        ensures
            r.deep_view() == taken_in(old(self)@, line@, valid),
            final(self)@ == pending_after(old(self)@, line@, sender),
            trimmed(line@).len() > 0 ==> distinct(final(self)@.senders),
    {
        let bare = trim(line);
        if bare.as_str().is_empty() {
            return None;
        }
        let request = if valid {
            bare
        } else {
            "{}".to_owned()
        };
        let id = name_request(self.pid, self.counter);
        self.counter = if self.counter == u64::MAX {
            0
        } else {
            self.counter + 1
        };
        self.senders.insert(id.clone(), sender);
        Some(Taken { id, request })
    }

    /// Takes on the request in a line; a blank line asks nothing.
    pub fn handle(&mut self, line: &str, sender: T) -> (r: Option<Taken>)
        ensures
            r.deep_view() == taken_in(
                old(self)@,
                line@,
                json_members(trimmed(line@)) is Some,
            ),
            final(self)@ == pending_after(old(self)@, line@, sender),
            trimmed(line@).len() > 0 ==> distinct(final(self)@.senders),
    {
        let bare = trim(line);
        let valid = read_object(bare.as_str()).is_some();
        self.take_on(line, valid, sender)
    }

    /// Passes the answer to a request on to its sender, once; without such a
    /// request there is nobody to pass it to.
    pub fn respond(&mut self, id: &str, result: String) -> (r: Option<(T, String)>)
        ensures
            final(self)@ == pending_without(old(self)@, id@),
            match (passed_on(old(self)@, id@, result@), r) {
                (Some(want), Some(passed)) => passed.0 == want.0 && passed.1@ == want.1,
                (None, None) => true,
                _ => false,
            },
            distinct(final(self)@.senders),
    {
        match self.senders.remove(id) {
            Some(sender) => Some((sender, result)),
            None => None,
        }
    }

    /// Gives a request up and says what to reply: nobody could be asked, or
    /// nobody answered in time.
    pub fn give_up(&mut self, id: &str, emitted: bool) -> (r: String)
        ensures
            final(self)@ == pending_without(old(self)@, id@),
            distinct(final(self)@.senders),
            r@ == json_text(error_members(excuse(emitted))),
            !r@.contains('\n'),
            reads_as(r@, error_members(excuse(emitted))),
            line_outcome(r@.push('\n')) == complains(1, excuse(emitted)),
    {
        self.senders.remove(id);
        if emitted {
            error_reply("Terax did not respond in time")
        } else {
            error_reply("Terax UI not ready")
        }
    }
}

/// The line that carries a reply.
pub fn reply_line(reply: String) -> (r: String)
    ensures
        r@ == reply@.push('\n'),
{
    end_line(reply)
}

/// Passes the answer to a request on, as the frontend asks for.
pub fn cli_respond<T>(p: &mut Pending<T>, id: &str, result: String) -> (r: Option<(T, String)>)
    ensures
        final(p)@ == pending_without(old(p)@, id@),
        match (passed_on(old(p)@, id@, result@), r) {
            (Some(want), Some(passed)) => passed.0 == want.0 && passed.1@ == want.1,
            (None, None) => true,
            _ => false,
        },
{
    p.respond(id, result)
}

/// No two requests have the same name, in one process or in two.
pub proof fn request_ids_are_distinct(p1: u32, c1: u64, p2: u32, c2: u64)
    requires
        request_id(p1, c1) == request_id(p2, c2),
    ensures
        p1 == p2,
        c1 == c2,
{
    reveal_strlit("-");
    let s = request_id(p1, c1);
    let a = decimal(p1 as nat);
    let b = decimal(p2 as nat);
    lemma_decimal_reads_back(p1 as nat);
    lemma_decimal_reads_back(p2 as nat);
    assert forall|j: int| 0 <= j < a.len() implies #[trigger] s[j] != '-' by {
        assert(s[j] == a[j] && is_digit(a[j]));
    }
    assert forall|j: int| 0 <= j < b.len() implies #[trigger] s[j] != '-' by {
        assert(s[j] == b[j] && is_digit(b[j]));
    }
    lemma_first_index(s, '-', a.len() as int);
    lemma_first_index(s, '-', b.len() as int);
    assert(a =~= s.take(a.len() as int));
    assert(b =~= s.take(a.len() as int));
    assert(decimal(c1 as nat) =~= s.skip(a.len() as int + 1));
    assert(decimal(c2 as nat) =~= s.skip(a.len() as int + 1));
    decimal_is_injective(p1 as nat, p2 as nat);
    decimal_is_injective(c1 as nat, c2 as nat);
}

/// What the command sends is what the frontend is asked, member for member.
pub proof fn requests_arrive_as_sent(line: Seq<char>, req: CliRequest<Seq<char>>)
    requires
        reads_as(trimmed(line), request_members(req)),
    ensures
        reads_as(
            asked_in(line, json_members(trimmed(line)) is Some),
            request_members(req),
        ),
{
}

/// A request that was taken on is answered by its own sender and only once:
/// its answer finds that sender whatever other requests were answered in
/// between, and after it no answer finds a sender.
pub proof fn requests_are_answered_once<T>(
    senders: Seq<(Seq<char>, T)>,
    id: Seq<char>,
    sender: T,
    other: Seq<char>,
)
    requires
        distinct(senders),
        other != id,
    ensures
        lookup(put(senders, id, sender), id) == Some(sender),
        lookup(without(put(senders, id, sender), other), id) == Some(sender),
        lookup(without(put(senders, id, sender), id), id) is None,
        lookup(without(put(senders, id, sender), id), other) == lookup(senders, other),
{
    put_is_found(senders, id, sender, other);
    removed_is_gone(put(senders, id, sender), other, id);
    removed_is_gone(put(senders, id, sender), id, other);
}

/// Requests are counted: the first of a process has number zero and each has the
/// number after that of the one before, which stands behind that of the process.
pub proof fn requests_are_counted(pid: u32, counter: u64)
    ensures
        request_id(pid, counter) == decimal(pid as nat) + seq!['-'] + decimal(counter as nat),
        counter < u64::MAX ==> next_counter(counter) == counter + 1,
        counter == u64::MAX ==> next_counter(counter) == 0,
{
    reveal_strlit("-");
    assert("-"@ =~= seq!['-']);
}

/// The frontend is asked just what the line holds, without white space around
/// it, and an empty object where that is no JSON value. It is told the name of
/// the request as one member and what is asked as the other.
pub proof fn the_frontend_is_asked_what_was_sent(
    id: Seq<char>,
    line: Seq<char>,
    request: Seq<char>,
)
    ensures
        asked_in(line, true) == trimmed(line),
        asked_in(line, false) == "{}"@,
        ({
            let event = event_text(id, request);
            let head = json_text(seq![("id"@, Some(id))]);
            let tail = ",\"request\":"@ + request + "}"@;
            &&& head.len() > 0 ==> event.len() == head.len() - 1 + tail.len()
            &&& head.len() > 0 ==> event.take(head.len() - 1) == head.take(head.len() - 1)
            &&& head.len() > 0 ==> event.skip(head.len() - 1) == tail
        }),
{
    let event = event_text(id, request);
    let head = json_text(seq![("id"@, Some(id))]);
    let tail = ",\"request\":"@ + request + "}"@;
    if head.len() > 0 {
        assert(event =~= head.drop_last() + tail);
        assert(event.take(head.len() - 1) =~= head.take(head.len() - 1));
        assert(event.skip(head.len() - 1) =~= tail);
    }
}

/// Whoever asks in vain is told why, and that before they give up waiting.
pub proof fn silence_is_explained()
    ensures
        complains(1, excuse(true)) == (Outcome {
            code: 1,
            out: None,
            err: Some("terax: "@ + "Terax did not respond in time"@),
        }),
        complains(1, excuse(false)) == (Outcome {
            code: 1,
            out: None,
            err: Some("terax: "@ + "Terax UI not ready"@),
        }),
        error_members(excuse(true)) == seq![("error"@, Some("Terax did not respond in time"@))],
        error_members(excuse(false)) == seq![("error"@, Some("Terax UI not ready"@))],
        ANSWER_TIMEOUT_SECS == 15,
        REPLY_TIMEOUT_SECS == 20,
{
}

/// A line that holds more than white space is taken on under the next number of
/// the process, and its answer is passed on as it is, to its sender and to no
/// other, until it was answered or given up; a blank line is not taken on.
pub proof fn answers_reach_who_asked<T>(
    p: PendingView<T>,
    line: Seq<char>,
    valid: bool,
    sender: T,
    other: Seq<char>,
    result: Seq<char>,
)
    requires
        distinct(p.senders),
    ensures
        (forall|i: int| 0 <= i < line.len() ==> whitespace(#[trigger] line[i])) ==> {
            &&& taken_in(p, line, valid) is None
            &&& pending_after(p, line, sender) == p
        },
        (exists|i: int| 0 <= i < line.len() && !whitespace(#[trigger] line[i])) ==> {
            let id = decimal(p.pid as nat) + seq!['-'] + decimal(p.counter as nat);
            let q = pending_after(p, line, sender);
            &&& taken_in(p, line, true) == Some(Taken { id, request: trimmed(line) })
            &&& taken_in(p, line, false) == Some(Taken { id, request: "{}"@ })
            &&& q.pid == p.pid
            &&& p.counter < u64::MAX ==> q.counter == p.counter + 1
            &&& passed_on(q, id, result) == Some((sender, result))
            &&& other != id ==> passed_on(q, other, result) == passed_on(p, other, result)
            &&& other != id ==> passed_on(pending_without(q, other), id, result) == Some(
                (sender, result),
            )
            &&& passed_on(pending_without(q, id), id, result) is None
            &&& pending_without(q, id).pid == q.pid && pending_without(q, id).counter == q.counter
            &&& other != id ==> passed_on(pending_without(q, id), other, result) == passed_on(
                p,
                other,
                result,
            )
        },
{
    trimming_leaves_the_text(line);
    let (a, b) = choose|a: int, b: int|
        {
            &&& 0 <= a <= b <= line.len()
            &&& #[trigger] line.subrange(a, b) == trimmed(line)
            &&& forall|j: int| 0 <= j < a || b <= j < line.len() ==> whitespace(#[trigger] line[j])
            &&& a < b ==> !whitespace(line[a]) && !whitespace(line[b - 1])
        };
    assert(trimmed(line).len() == b - a);
    let id = request_id(p.pid, p.counter);
    requests_are_counted(p.pid, p.counter);
    put_is_found(p.senders, id, sender, other);
    removed_is_gone(put(p.senders, id, sender), other, id);
    removed_is_gone(put(p.senders, id, sender), id, other);
}

} // verus!
