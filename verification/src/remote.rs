//! What the library asks of a remote host and what it hears back.
//!
//! An operation on a remote host is a series of requests. The library decides
//! which request comes next and what the operation returns; whoever holds the
//! connection carries the requests out. A text stands as `String` in running
//! code and as its characters in contracts, so the types that hold texts are
//! generic in them.
use vstd::prelude::*;

verus! {

/// One request to a remote host.
#[derive(Clone, Debug, PartialEq, Eq)]
pub enum Request<S = String> {
    /// Attributes of what a path leads to, through symbolic links.
    Stat(S),
    /// Attributes of what stands at a path itself.
    Lstat(S),
    /// The absolute path that the server makes of a path.
    Realpath(S),
    /// The entries of a directory.
    List(S),
    /// The whole contents of a file.
    Read(S),
    /// Creates or truncates a file and leaves it empty.
    Create(S),
    /// Creates or truncates a file and writes a text to it.
    Write { path: S, content: S },
    /// Creates a directory with the given permissions.
    Mkdir { path: S, mode: u32 },
    /// Moves what stands at a path.
    Rename { from: S, to: S },
    /// Removes what stands at a path, other than a directory.
    Unlink(S),
    /// Removes an empty directory.
    Rmdir(S),
    /// Runs a command and takes its output.
    Exec(S),
}

impl View for Request {
    type V = Request<Seq<char>>;

    open spec fn view(&self) -> Request<Seq<char>> {
        match self {
            Request::Stat(p) => Request::Stat(p@),
            Request::Lstat(p) => Request::Lstat(p@),
            Request::Realpath(p) => Request::Realpath(p@),
            Request::List(p) => Request::List(p@),
            Request::Read(p) => Request::Read(p@),
            Request::Create(p) => Request::Create(p@),
            Request::Write { path, content } => Request::Write { path: path@, content: content@ },
            Request::Mkdir { path, mode } => Request::Mkdir { path: path@, mode: *mode },
            Request::Rename { from, to } => Request::Rename { from: from@, to: to@ },
            Request::Unlink(p) => Request::Unlink(p@),
            Request::Rmdir(p) => Request::Rmdir(p@),
            Request::Exec(c) => Request::Exec(c@),
        }
    }
}

/// What a server says of a file.
#[derive(Clone, Copy, Debug, PartialEq, Eq)]
pub struct Attrs {
    pub is_dir: bool,
    pub is_symlink: bool,
    pub size: Option<u64>,
    /// Seconds since the epoch.
    pub mtime: Option<u64>,
}

/// One entry of a directory; a name that is not Unicode is missing.
#[derive(Clone, Debug, PartialEq, Eq)]
pub struct Entry<S = String> {
    pub name: Option<S>,
    pub attrs: Attrs,
}

impl View for Entry {
    type V = Entry<Seq<char>>;

    open spec fn view(&self) -> Entry<Seq<char>> {
        Entry {
            name: match self.name {
                Some(n) => Some(n@),
                None => None,
            },
            attrs: self.attrs,
        }
    }
}

impl DeepView for Entry {
    type V = Entry<Seq<char>>;

    open spec fn deep_view(&self) -> Entry<Seq<char>> {
        self@
    }
}

/// What came of a request.
#[derive(Clone, Debug, PartialEq, Eq)]
pub enum Reply<S = String, L = Vec<Entry>, B = Vec<u8>> {
    /// The request was refused, for the stated reason.
    Failed(S),
    /// The file was opened, but reading or writing it broke off.
    Broken(S),
    /// It was done, with nothing to report.
    Done,
    Attrs(Attrs),
    Path(S),
    Entries(L),
    Bytes(B),
    Output(S),
}

/// A reply as contracts speak of it.
pub type ReplyView = Reply<Seq<char>, Seq<Entry<Seq<char>>>, Seq<u8>>;

impl View for Reply {
    type V = ReplyView;

    open spec fn view(&self) -> ReplyView {
        match self {
            Reply::Failed(e) => Reply::Failed(e@),
            Reply::Broken(e) => Reply::Broken(e@),
            Reply::Done => Reply::Done,
            Reply::Attrs(a) => Reply::Attrs(*a),
            Reply::Path(p) => Reply::Path(p@),
            Reply::Entries(l) => Reply::Entries(l.deep_view()),
            Reply::Bytes(b) => Reply::Bytes(b@),
            Reply::Output(o) => Reply::Output(o@),
        }
    }
}

/// Where an operation stands: it waits for the reply to a request, or it is over.
pub enum Step<S, T, R = Request, E = String> {
    Ask { request: R, state: S },
    Finish(Result<T, E>),
}

/// A step as contracts speak of it.
pub type StepView<S, T, R = Request<Seq<char>>> = Step<S, T, R, Seq<char>>;

impl<S: View, T: DeepView, R: View> View for Step<S, T, R> {
    type V = StepView<S::V, T::V, R::V>;

    open spec fn view(&self) -> StepView<S::V, T::V, R::V> {
        match self {
            Step::Ask { request, state } => Step::Ask { request: request@, state: state@ },
            Step::Finish(Ok(t)) => Step::Finish(Ok(t.deep_view())),
            Step::Finish(Err(e)) => Step::Finish(Err(e@)),
        }
    }
}

/// What an operation says of a reply that no request of its kind has.
pub open spec fn unexpected() -> Seq<char> {
    "ssh: unexpected reply"@
}

/// The message for a reply that does not answer the request.
pub fn unexpected_reply() -> (r: String)
    ensures
        r@ == unexpected(),
{
    "ssh: unexpected reply".to_owned()
}

/// Where running a command can fail.
#[derive(Clone, Copy, Debug, PartialEq, Eq)]
pub enum ExecStage {
    /// Opening a channel for it.
    Channel,
    /// Starting it.
    Command,
    /// Reading what it writes.
    Output,
}

/// What is said of a command that failed.
pub open spec fn exec_fault(stage: ExecStage, e: Seq<char>) -> Seq<char> {
    match stage {
        ExecStage::Channel => "ssh: open channel failed: "@ + e,
        ExecStage::Command => "ssh: exec failed: "@ + e,
        ExecStage::Output => e,
    }
}

/// The reply for a command that failed.
pub fn exec_failed(stage: ExecStage, e: String) -> (r: Reply)
    ensures
        r@ == ReplyView::Failed(exec_fault(stage, e@)),
{
    Reply::Failed(
        match stage {
            ExecStage::Channel => "ssh: open channel failed: ".to_owned().concat(e.as_str()),
            ExecStage::Command => "ssh: exec failed: ".to_owned().concat(e.as_str()),
            ExecStage::Output => e,
        },
    )
}

/// Where an operation stands once the replies have come in, one for each
/// request in turn; replies after its end change nothing.
pub open spec fn after<S, T, R, P>(
    next: spec_fn(S, P) -> StepView<S, T, R>,
    step: StepView<S, T, R>,
    replies: Seq<P>,
) -> StepView<S, T, R>
    decreases replies.len(),
{
    if replies.len() == 0 {
        step
    } else {
        match step {
            Step::Ask { request, state } => after(next, next(state, replies[0]), replies.drop_first()),
            Step::Finish(_) => step,
        }
    }
}

/// The requests that an operation has made by then, in order.
pub open spec fn asked<S, T, R, P>(
    next: spec_fn(S, P) -> StepView<S, T, R>,
    step: StepView<S, T, R>,
    replies: Seq<P>,
) -> Seq<R>
    decreases replies.len(),
{
    match step {
        Step::Ask { request, state } => if replies.len() == 0 {
            seq![request]
        } else {
            seq![request] + asked(next, next(state, replies[0]), replies.drop_first())
        },
        Step::Finish(_) => Seq::empty(),
    }
}

/// One reply more is one step more.
pub proof fn lemma_after_step<S, T, R, P>(
    next: spec_fn(S, P) -> StepView<S, T, R>,
    step: StepView<S, T, R>,
    replies: Seq<P>,
    i: int,
)
    requires
        0 <= i < replies.len(),
    ensures
        after(next, step, replies.take(i + 1)) == (match after(next, step, replies.take(i)) {
            Step::Ask { request, state } => next(state, replies[i]),
            Step::Finish(r) => StepView::<S, T, R>::Finish(r),
        }),
    decreases i,
{
    reveal_with_fuel(after, 2);
    let more = replies.take(i + 1);
    let few = replies.take(i);
    if i > 0 {
        if let Step::Ask { request, state } = step {
            let rest = replies.drop_first();
            lemma_after_step(next, next(state, replies[0]), rest, i - 1);
            assert(more.drop_first() =~= rest.take(i));
            assert(few.drop_first() =~= rest.take(i - 1));
            assert(more[0] == replies[0] && few[0] == replies[0]);
        }
    } else {
        assert(more[0] == replies[0]);
    }
}

/// An operation that is over stays over.
pub proof fn lemma_stays_over<S, T, R, P>(
    next: spec_fn(S, P) -> StepView<S, T, R>,
    step: StepView<S, T, R>,
    replies: Seq<P>,
    i: int,
    j: int,
)
    requires
        0 <= i <= j <= replies.len(),
        after(next, step, replies.take(i)) is Finish,
    ensures
        after(next, step, replies.take(j)) is Finish,
    decreases j - i,
{
    if i < j {
        lemma_after_step(next, step, replies, i);
        lemma_stays_over(next, step, replies, i + 1, j);
    }
}

/// The request at a position of a run is the one that the operation makes
/// once the replies before it have come in.
pub proof fn lemma_asked_at<S, T, R, P>(
    next: spec_fn(S, P) -> StepView<S, T, R>,
    step: StepView<S, T, R>,
    replies: Seq<P>,
    i: int,
)
    requires
        0 <= i <= replies.len(),
    ensures
        i < asked(next, step, replies).len() <==> after(next, step, replies.take(i)) is Ask,
        i < asked(next, step, replies).len() ==> after(
            next,
            step,
            replies.take(i),
        )->request == asked(next, step, replies)[i],
    decreases i,
{
    reveal_with_fuel(after, 2);
    if i > 0 {
        if let Step::Ask { request, state } = step {
            let rest = replies.drop_first();
            lemma_asked_at(next, next(state, replies[0]), rest, i - 1);
            assert(replies.take(i).drop_first() =~= rest.take(i - 1));
            assert(replies.take(i)[0] == replies[0]);
        }
    }
}

/// No more requests are made than replies come in, and one.
pub proof fn lemma_asked_len<S, T, R, P>(
    next: spec_fn(S, P) -> StepView<S, T, R>,
    step: StepView<S, T, R>,
    replies: Seq<P>,
)
    ensures
        asked(next, step, replies).len() <= replies.len() + 1,
    decreases replies.len(),
{
    if replies.len() > 0 {
        if let Step::Ask { request, state } = step {
            lemma_asked_len(next, next(state, replies[0]), replies.drop_first());
        }
    }
}

/// The first reply leads to the next step, and the rest of a run goes on from
/// there.
pub proof fn lemma_first_reply<S, T, R, P>(
    next: spec_fn(S, P) -> StepView<S, T, R>,
    step: StepView<S, T, R>,
    reply: P,
    rest: Seq<P>,
)
    requires
        step is Ask,
    ensures
        after(next, step, seq![reply] + rest) == after(next, next(step->state, reply), rest),
        asked(next, step, seq![reply] + rest) == seq![step->request] + asked(
            next,
            next(step->state, reply),
            rest,
        ),
{
    assert((seq![reply] + rest).drop_first() =~= rest);
}

/// A command that fails is told of with the reason, and with what failed unless
/// it had begun to write.
pub proof fn failed_commands_are_told_of(e: Seq<char>)
    ensures
        exec_fault(ExecStage::Channel, e) == "ssh: open channel failed: "@ + e,
        exec_fault(ExecStage::Command, e) == "ssh: exec failed: "@ + e,
        exec_fault(ExecStage::Output, e) == e,
{
}

} // verus!
