//! Making and removing remote directories.
use vstd::prelude::*;
use vstd::string::*;

use crate::files::{already_exists, already_exists_text, done_or_error, finish_done};
use crate::paths::{below, join_remote, path_prefixes, prefixes};
use crate::remote::{
    after, asked, lemma_first_reply, unexpected, unexpected_reply, Attrs, Entry, Reply, ReplyView,
    Request, Step, StepView,
};
use crate::text::{same, texts};

verus! {

/// The permissions that new directories get.
pub const DIR_MODE: u32 = 0o755;

/// Making directories in turn: each is asked for first and made where it is
/// missing.
pub struct MakeDirs<S = String, L = Vec<String>> {
    /// The directory that the last request was about.
    pub current: S,
    /// Those that come after it.
    pub left: L,
    /// Whether the last request was to make it.
    pub making: bool,
}

/// Making directories, as contracts speak of it.
pub type MakeDirsView = MakeDirs<Seq<char>, Seq<Seq<char>>>;

impl View for MakeDirs {
    type V = MakeDirsView;

    open spec fn view(&self) -> MakeDirsView {
        MakeDirs { current: self.current@, left: texts(self.left@), making: self.making }
    }
}

/// Making directories from the first of a list on.
pub open spec fn make_dirs(dirs: Seq<Seq<char>>) -> StepView<MakeDirsView, ()> {
    if dirs.len() == 0 {
        Step::Finish(Ok(()))
    } else {
        Step::Ask {
            request: Request::Stat(dirs[0]),
            state: MakeDirs { current: dirs[0], left: dirs.drop_first(), making: false },
        }
    }
}

/// The message for a directory that could not be made.
pub open spec fn mkdir_failed(dir: Seq<char>, e: Seq<char>) -> Seq<char> {
    "ssh: mkdir "@ + dir + " failed: "@ + e
}

/// How making directories goes on.
pub open spec fn make_dirs_next(state: MakeDirsView, reply: ReplyView) -> StepView<
    MakeDirsView,
    (),
> {
    if state.making {
        match reply {
            Reply::Done => make_dirs(state.left),
            Reply::Failed(e) => Step::Finish(Err(mkdir_failed(state.current, e))),
            Reply::Broken(e) => Step::Finish(Err(mkdir_failed(state.current, e))),
            _ => Step::Finish(Err(unexpected())),
        }
    } else {
        match reply {
            Reply::Attrs(_) => make_dirs(state.left),
            Reply::Failed(_) | Reply::Broken(_) => Step::Ask {
                request: Request::Mkdir { path: state.current, mode: DIR_MODE },
                state: MakeDirs { making: true, ..state },
            },
            _ => Step::Finish(Err(unexpected())),
        }
    }
}

/// Starts to make the directories of a list, in turn.
pub fn start_dirs(dirs: Vec<String>) -> (r: Step<MakeDirs, ()>)
    ensures
        r@ == make_dirs(texts(dirs@)),
{
    let mut left = dirs;
    if left.len() == 0 {
        Step::Finish(Ok(()))
    } else {
        let current = left.remove(0);
        assert(texts(left@) =~= texts(dirs@).drop_first());
        Step::Ask {
            request: Request::Stat(current.clone()),
            state: MakeDirs { current, left, making: false },
        }
    }
}

/// Starts to make a directory and those that lead to it, the outermost first.
pub fn mkdir_p(path: &str) -> (r: Step<MakeDirs, ()>)
    ensures
        r@ == make_dirs(prefixes(path@)),
{
    start_dirs(path_prefixes(path))
}

impl MakeDirs {
    /// Goes on making directories.
    pub fn resume(self, reply: Reply) -> (r: Step<MakeDirs, ()>)
        ensures
            r@ == make_dirs_next(self@, reply@),
    {
        if self.making {
            match reply {
                Reply::Done => start_dirs(self.left),
                Reply::Failed(e) | Reply::Broken(e) => {
                    let text = "ssh: mkdir ".to_owned().concat(self.current.as_str()).concat(
                        " failed: ",
                    ).concat(e.as_str());
                    Step::Finish(Err(text))
                },
                _ => Step::Finish(Err(unexpected_reply())),
            }
        } else {
            match reply {
                Reply::Attrs(_) => start_dirs(self.left),
                Reply::Failed(_) | Reply::Broken(_) => Step::Ask {
                    request: Request::Mkdir { path: self.current.clone(), mode: DIR_MODE },
                    state: MakeDirs { current: self.current, left: self.left, making: true },
                },
                _ => Step::Finish(Err(unexpected_reply())),
            }
        }
    }
}

/// The replies under which making directories succeeds: each directory is
/// there, or it is not and making it is done.
pub open spec fn dir_replies(there: Seq<bool>) -> Seq<ReplyView>
    decreases there.len(),
{
    if there.len() == 0 {
        Seq::empty()
    } else {
        let rest = dir_replies(there.drop_first());
        if there[0] {
            seq![ReplyView::Attrs(some_dir())] + rest
        } else {
            seq![ReplyView::Failed(Seq::empty()), ReplyView::Done] + rest
        }
    }
}

/// The attributes of a directory of which nothing more is known.
pub open spec fn some_dir() -> Attrs {
    Attrs { is_dir: true, is_symlink: false, size: None, mtime: None }
}

/// The requests that making directories makes when some of them are there and
/// the others can be made.
pub open spec fn dir_requests(dirs: Seq<Seq<char>>, there: Seq<bool>) -> Seq<Request<Seq<char>>>
    decreases dirs.len(),
{
    if dirs.len() == 0 {
        Seq::empty()
    } else {
        let rest = dir_requests(dirs.drop_first(), there.drop_first());
        if there[0] {
            seq![Request::Stat(dirs[0])] + rest
        } else {
            seq![Request::Stat(dirs[0]), Request::Mkdir { path: dirs[0], mode: DIR_MODE }] + rest
        }
    }
}

/// Making directories asks for each in turn, makes exactly those that are
/// missing, and then succeeds.
pub proof fn missing_dirs_are_made(dirs: Seq<Seq<char>>, there: Seq<bool>)
    requires
        dirs.len() == there.len(),
    ensures
        after(
            |s: MakeDirsView, r: ReplyView| make_dirs_next(s, r),
            make_dirs(dirs),
            dir_replies(there),
        ) == StepView::<MakeDirsView, ()>::Finish(Ok(())),
        asked(
            |s: MakeDirsView, r: ReplyView| make_dirs_next(s, r),
            make_dirs(dirs),
            dir_replies(there),
        ) == dir_requests(dirs, there),
    decreases dirs.len(),
{
    let next = |s: MakeDirsView, r: ReplyView| make_dirs_next(s, r);
    reveal_with_fuel(after, 3);
    reveal_with_fuel(asked, 3);
    if dirs.len() > 0 {
        missing_dirs_are_made(dirs.drop_first(), there.drop_first());
        let rest = dir_replies(there.drop_first());
        let replies = dir_replies(there);
        if there[0] {
            assert(replies.drop_first() =~= rest);
        } else {
            assert(replies.drop_first().drop_first() =~= rest);
            assert(replies.drop_first()[0] == ReplyView::Done);
            let more = dir_requests(dirs.drop_first(), there.drop_first());
            let first: Request<Seq<char>> = Request::Stat(dirs[0]);
            let second: Request<Seq<char>> = Request::Mkdir { path: dirs[0], mode: DIR_MODE };
            assert(seq![first] + (seq![second] + more) =~= seq![first, second] + more);
        }
    }
}

/// No directory is made but one that the request right before asked for in vain.
pub proof fn only_missing_dirs_are_made(
    dirs: Seq<Seq<char>>,
    replies: Seq<ReplyView>,
    i: int,
)
    requires
        0 <= i < asked(
            |s: MakeDirsView, r: ReplyView| make_dirs_next(s, r),
            make_dirs(dirs),
            replies,
        ).len(),
        asked(
            |s: MakeDirsView, r: ReplyView| make_dirs_next(s, r),
            make_dirs(dirs),
            replies,
        )[i] is Mkdir,
    ensures
        0 < i <= replies.len(),
        asked(
            |s: MakeDirsView, r: ReplyView| make_dirs_next(s, r),
            make_dirs(dirs),
            replies,
        )[i - 1] == Request::Stat(
            asked(
                |s: MakeDirsView, r: ReplyView| make_dirs_next(s, r),
                make_dirs(dirs),
                replies,
            )[i]->Mkdir_path,
        ),
        replies[i - 1] is Failed || replies[i - 1] is Broken,
    decreases replies.len(),
{
    let next = |s: MakeDirsView, r: ReplyView| make_dirs_next(s, r);
    reveal_with_fuel(asked, 3);
    let all = asked(next, make_dirs(dirs), replies);
    if replies.len() > 0 && dirs.len() > 0 {
        let r1 = replies.drop_first();
        if replies[0] is Attrs {
            let rest = asked(next, make_dirs(dirs.drop_first()), r1);
            assert(all =~= seq![all[0]] + rest);
            assert(all[i] == rest[i - 1]);
            only_missing_dirs_are_made(dirs.drop_first(), r1, i - 1);
            assert(all[i - 1] == rest[i - 2]);
            assert(replies[i - 1] == r1[i - 2]);
        } else if (replies[0] is Failed || replies[0] is Broken) && i > 1 {
            let r2 = r1.drop_first();
            let rest = asked(next, make_dirs(dirs.drop_first()), r2);
            assert(r1[0] is Done);
            assert(all =~= seq![all[0], all[1]] + rest);
            assert(all[i] == rest[i - 2]);
            only_missing_dirs_are_made(dirs.drop_first(), r2, i - 2);
            assert(all[i - 1] == rest[i - 3]);
            assert(replies[i - 1] == r2[i - 3]);
        }
    }
}

/// Creating a directory: first it is asked whether something stands there.
pub enum CreateDir<S = String, M = MakeDirs> {
    Probing { path: S },
    Making(M),
}

/// Creating a directory, as contracts speak of it.
pub type CreateDirView = CreateDir<Seq<char>, MakeDirsView>;

impl View for CreateDir {
    type V = CreateDirView;

    open spec fn view(&self) -> CreateDirView {
        match self {
            CreateDir::Probing { path } => CreateDir::Probing { path: path@ },
            CreateDir::Making(m) => CreateDir::Making(m@),
        }
    }
}

/// Creating a directory whose making stands at the given step.
pub open spec fn create_dir_in(step: StepView<MakeDirsView, ()>) -> StepView<CreateDirView, ()> {
    match step {
        Step::Ask { request, state } => Step::Ask { request, state: CreateDir::Making(state) },
        Step::Finish(r) => Step::Finish(r),
    }
}

/// How creating a directory goes on.
pub open spec fn create_dir_next(state: CreateDirView, reply: ReplyView) -> StepView<
    CreateDirView,
    (),
> {
    match state {
        CreateDir::Probing { path } => match reply {
            Reply::Attrs(_) => Step::Finish(Err(already_exists(path))),
            Reply::Failed(_) | Reply::Broken(_) => create_dir_in(make_dirs(prefixes(path))),
            _ => Step::Finish(Err(unexpected())),
        },
        CreateDir::Making(m) => create_dir_in(make_dirs_next(m, reply)),
    }
}

fn creating(step: Step<MakeDirs, ()>) -> (r: Step<CreateDir, ()>)
    ensures
        r@ == create_dir_in(step@),
{
    match step {
        Step::Ask { request, state } => Step::Ask { request, state: CreateDir::Making(state) },
        Step::Finish(r) => Step::Finish(r),
    }
}

/// The start of creating a directory.
pub open spec fn create_dir_start(path: Seq<char>) -> StepView<CreateDirView, ()> {
    Step::Ask { request: Request::Stat(path), state: CreateDir::Probing { path } }
}

/// Starts to create a directory, with those that lead to it.
pub fn create_dir(path: &str) -> (r: Step<CreateDir, ()>)
    ensures
        r@ == create_dir_start(path@),
{
    Step::Ask {
        request: Request::Stat(path.to_owned()),
        state: CreateDir::Probing { path: path.to_owned() },
    }
}

impl CreateDir {
    /// Goes on creating a directory.
    pub fn resume(self, reply: Reply) -> (r: Step<CreateDir, ()>)
        ensures
            r@ == create_dir_next(self@, reply@),
    {
        match self {
            CreateDir::Probing { path } => match reply {
                Reply::Attrs(_) => Step::Finish(Err(already_exists_text(path.as_str()))),
                Reply::Failed(_) | Reply::Broken(_) => creating(mkdir_p(path.as_str())),
                _ => Step::Finish(Err(unexpected_reply())),
            },
            CreateDir::Making(m) => creating(m.resume(reply)),
        }
    }
}

/// One thing that removing a directory tree has to do.
pub enum Chore<S = String> {
    /// List a directory and remove what it holds, then the directory.
    Clear(S),
    /// Remove what stands at a path, other than a directory.
    Unlink(S),
    /// Remove an empty directory.
    Rmdir(S),
}

impl DeepView for Chore {
    type V = Chore<Seq<char>>;

    open spec fn deep_view(&self) -> Chore<Seq<char>> {
        match self {
            Chore::Clear(p) => Chore::Clear(p@),
            Chore::Unlink(p) => Chore::Unlink(p@),
            Chore::Rmdir(p) => Chore::Rmdir(p@),
        }
    }
}

/// Removing a directory tree.
pub struct RemoveTree {
    /// What the last request was for.
    pub current: Chore,
    /// What comes after it; the last of these is next.
    pub stack: Vec<Chore>,
}

/// Removing a tree, as contracts speak of it: what is still to do stands in
/// the order in which it is done.
pub struct RemovalView {
    pub current: Chore<Seq<char>>,
    pub todo: Seq<Chore<Seq<char>>>,
}

impl View for RemoveTree {
    type V = RemovalView;

    open spec fn view(&self) -> RemovalView {
        RemovalView {
            current: self.current.deep_view(),
            todo: self.stack.deep_view().reverse(),
        }
    }
}

/// Whether an entry of a directory is a name that leads below it.
pub open spec fn leads_below(name: Seq<char>) -> bool {
    name != "."@ && name != ".."@
}

/// Whether an entry is removed as a whole directory. A symbolic link never
/// is: the link goes, not what it leads to.
pub open spec fn is_tree(a: Attrs) -> bool {
    a.is_dir && !a.is_symlink
}

/// What an entry of a directory gives to do; one without a name is passed over.
pub open spec fn chore_of(dir: Seq<char>, e: Entry<Seq<char>>) -> Seq<Chore<Seq<char>>> {
    match e.name {
        Some(name) => if !leads_below(name) {
            Seq::empty()
        } else if is_tree(e.attrs) {
            seq![Chore::Clear(below(dir, name))]
        } else {
            seq![Chore::Unlink(below(dir, name))]
        },
        None => Seq::empty(),
    }
}

/// What the entries of a directory give to do, in their order.
pub open spec fn chores(dir: Seq<char>, entries: Seq<Entry<Seq<char>>>) -> Seq<Chore<Seq<char>>>
    decreases entries.len(),
{
    if entries.len() == 0 {
        Seq::empty()
    } else {
        chore_of(dir, entries[0]) + chores(dir, entries.drop_first())
    }
}

/// The request that does a chore, or begins it.
pub open spec fn request_for(c: Chore<Seq<char>>) -> Request<Seq<char>> {
    match c {
        Chore::Clear(p) => Request::List(p),
        Chore::Unlink(p) => Request::Unlink(p),
        Chore::Rmdir(p) => Request::Rmdir(p),
    }
}

/// Doing chores in turn.
pub open spec fn do_chores(todo: Seq<Chore<Seq<char>>>) -> StepView<RemovalView, ()> {
    if todo.len() == 0 {
        Step::Finish(Ok(()))
    } else {
        Step::Ask {
            request: request_for(todo[0]),
            state: RemovalView { current: todo[0], todo: todo.drop_first() },
        }
    }
}

/// How removing a tree goes on. The first failure ends it.
pub open spec fn removal_next(state: RemovalView, reply: ReplyView) -> StepView<RemovalView, ()> {
    match (state.current, reply) {
        (_, Reply::Failed(e)) => Step::Finish(Err(e)),
        (_, Reply::Broken(e)) => Step::Finish(Err(e)),
        (Chore::Clear(dir), Reply::Entries(l)) => do_chores(
            chores(dir, l) + seq![Chore::Rmdir(dir)] + state.todo,
        ),
        (Chore::Unlink(_), Reply::Done) => do_chores(state.todo),
        (Chore::Rmdir(_), Reply::Done) => do_chores(state.todo),
        _ => Step::Finish(Err(unexpected())),
    }
}

fn pop_chore(stack: Vec<Chore>) -> (r: Step<RemoveTree, ()>)
    ensures
        r@ == do_chores(stack.deep_view().reverse()),
{
    let mut stack = stack;
    let ghost todo = stack.deep_view().reverse();
    match stack.pop() {
        None => Step::Finish(Ok(())),
        Some(current) => {
            assert(todo[0] == current.deep_view());
            assert(stack.deep_view().reverse() =~= todo.drop_first());
            let request = match &current {
                Chore::Clear(p) => Request::List(p.clone()),
                Chore::Unlink(p) => Request::Unlink(p.clone()),
                Chore::Rmdir(p) => Request::Rmdir(p.clone()),
            };
            Step::Ask { request, state: RemoveTree { current, stack } }
        },
    }
}

/// Starts to remove a directory and all that it holds.
pub fn rm_rf(dir: &str) -> (r: Step<RemoveTree, ()>)
    ensures
        r@ == do_chores(seq![Chore::Clear(dir@)]),
{
    let mut stack: Vec<Chore> = Vec::new();
    stack.push(Chore::Clear(dir.to_owned()));
    assert(stack.deep_view().reverse() =~= seq![Chore::Clear(dir@)]);
    pop_chore(stack)
}

fn push_chores(dir: &str, entries: &Vec<Entry>, stack: &mut Vec<Chore>)
    ensures
        final(stack).deep_view().reverse() == chores(dir@, entries.deep_view()) + old(
            stack,
        ).deep_view().reverse(),
{
    let ghost all = entries.deep_view();
    let ghost below_them = stack.deep_view().reverse();
    let mut i: usize = entries.len();
    assert(all.skip(all.len() as int) =~= Seq::<Entry<Seq<char>>>::empty());
    assert(chores(dir@, all.skip(i as int)) + below_them =~= below_them);
    while i > 0
        invariant
            all == entries.deep_view(),
            i <= entries@.len(),
            stack.deep_view().reverse() == chores(dir@, all.skip(i as int)) + below_them,
        decreases i,
    {
        i = i - 1;
        let e = &entries[i];
        let ghost before = stack.deep_view().reverse();
        assert(all[i as int] == e@);
        assert(all.skip(i as int)[0] == e@);
        assert(all.skip(i as int).drop_first() =~= all.skip(i + 1));
        match &e.name {
            Some(name) => {
                if !same(name.as_str(), ".") && !same(name.as_str(), "..") {
                    let full = join_remote(dir, name.as_str());
                    let chore = if e.attrs.is_dir && !e.attrs.is_symlink {
                        Chore::Clear(full)
                    } else {
                        Chore::Unlink(full)
                    };
                    let ghost shown = chore.deep_view();
                    stack.push(chore);
                    assert(stack.deep_view().reverse() =~= seq![shown] + before);
                    assert(chore_of(dir@, e@) == seq![shown]);
                } else {
                    assert(chore_of(dir@, e@) =~= Seq::<Chore<Seq<char>>>::empty());
                    assert(stack.deep_view().reverse() =~= before);
                }
            },
            None => {
                assert(chore_of(dir@, e@) =~= Seq::<Chore<Seq<char>>>::empty());
                assert(stack.deep_view().reverse() =~= before);
            },
        }
        assert(stack.deep_view().reverse() =~= chore_of(dir@, e@) + before);
        assert(chore_of(dir@, e@) + (chores(dir@, all.skip(i + 1)) + below_them) =~= chores(
            dir@,
            all.skip(i as int),
        ) + below_them);
    }
    assert(all.skip(0) =~= all);
}

impl RemoveTree {
    /// Goes on removing a tree.
    pub fn resume(self, reply: Reply) -> (r: Step<RemoveTree, ()>)
        ensures
            r@ == removal_next(self@, reply@),
    {
        match (self.current, reply) {
            (_, Reply::Failed(e)) => Step::Finish(Err(e)),
            (_, Reply::Broken(e)) => Step::Finish(Err(e)),
            (Chore::Clear(dir), Reply::Entries(l)) => {
                let mut stack = self.stack;
                let ghost todo = stack.deep_view().reverse();
                stack.push(Chore::Rmdir(dir.clone()));
                assert(stack.deep_view().reverse() =~= seq![Chore::Rmdir(dir@)] + todo);
                push_chores(dir.as_str(), &l, &mut stack);
                assert(chores(dir@, l.deep_view()) + (seq![Chore::Rmdir(dir@)] + todo) =~= chores(
                    dir@,
                    l.deep_view(),
                ) + seq![Chore::Rmdir(dir@)] + todo);
                pop_chore(stack)
            },
            (Chore::Unlink(_), Reply::Done) => pop_chore(self.stack),
            (Chore::Rmdir(_), Reply::Done) => pop_chore(self.stack),
            _ => Step::Finish(Err(unexpected_reply())),
        }
    }
}

/// Removing what stands at a path: first it is asked what it is.
pub enum Delete<S = String, T = RemoveTree> {
    Probing { path: S },
    Unlinking,
    Clearing(T),
}

/// Removing what stands at a path, as contracts speak of it.
pub type DeleteView = Delete<Seq<char>, RemovalView>;

impl View for Delete {
    type V = DeleteView;

    open spec fn view(&self) -> DeleteView {
        match self {
            Delete::Probing { path } => Delete::Probing { path: path@ },
            Delete::Unlinking => Delete::Unlinking,
            Delete::Clearing(t) => Delete::Clearing(t@),
        }
    }
}

/// Removing what stands at a path, where the removal of a tree stands at the
/// given step.
pub open spec fn delete_in(step: StepView<RemovalView, ()>) -> StepView<DeleteView, ()> {
    match step {
        Step::Ask { request, state } => Step::Ask { request, state: Delete::Clearing(state) },
        Step::Finish(r) => Step::Finish(r),
    }
}

/// How removing what stands at a path goes on: a directory goes with all that
/// it holds, anything else goes alone.
pub open spec fn delete_next(state: DeleteView, reply: ReplyView) -> StepView<DeleteView, ()> {
    match state {
        Delete::Probing { path } => match reply {
            Reply::Attrs(a) => if is_tree(a) {
                delete_in(do_chores(seq![Chore::Clear(path)]))
            } else {
                Step::Ask { request: Request::Unlink(path), state: Delete::Unlinking }
            },
            Reply::Failed(e) => Step::Finish(Err(e)),
            Reply::Broken(e) => Step::Finish(Err(e)),
            _ => Step::Finish(Err(unexpected())),
        },
        Delete::Unlinking => done_or_error(reply),
        Delete::Clearing(t) => delete_in(removal_next(t, reply)),
    }
}

fn deleting(step: Step<RemoveTree, ()>) -> (r: Step<Delete, ()>)
    ensures
        r@ == delete_in(step@),
{
    match step {
        Step::Ask { request, state } => Step::Ask { request, state: Delete::Clearing(state) },
        Step::Finish(r) => Step::Finish(r),
    }
}

/// The start of removing what stands at a path.
pub open spec fn delete_start(path: Seq<char>) -> StepView<DeleteView, ()> {
    Step::Ask { request: Request::Lstat(path), state: Delete::Probing { path } }
}

/// Starts to remove what stands at a path.
pub fn delete(path: &str) -> (r: Step<Delete, ()>)
    ensures
        r@ == delete_start(path@),
{
    Step::Ask {
        request: Request::Lstat(path.to_owned()),
        state: Delete::Probing { path: path.to_owned() },
    }
}

impl Delete {
    /// Goes on removing what stands at a path.
    pub fn resume(self, reply: Reply) -> (r: Step<Delete, ()>)
        ensures
            r@ == delete_next(self@, reply@),
    {
        match self {
            Delete::Probing { path } => match reply {
                Reply::Attrs(a) => if a.is_dir && !a.is_symlink {
                    deleting(rm_rf(path.as_str()))
                } else {
                    Step::Ask { request: Request::Unlink(path), state: Delete::Unlinking }
                },
                Reply::Failed(e) => Step::Finish(Err(e)),
                Reply::Broken(e) => Step::Finish(Err(e)),
                _ => Step::Finish(Err(unexpected_reply())),
            },
            Delete::Unlinking => finish_done(reply),
            Delete::Clearing(t) => deleting(t.resume(reply)),
        }
    }
}

/// A directory that is missing is made with permissions to read, write and enter
/// for its owner and to read and enter for others; each is asked for before.
pub proof fn all_missing_dirs_are_made(dirs: Seq<Seq<char>>, replies: Seq<ReplyView>, i: int)
    requires
        replies.len() == 2 * dirs.len(),
        forall|k: int|
            0 <= k < dirs.len() ==> (#[trigger] replies[2 * k]) is Failed && replies[2 * k + 1]
                == ReplyView::Done,
        0 <= i < dirs.len(),
    ensures
        ({
            let next = |s: MakeDirsView, r: ReplyView| make_dirs_next(s, r);
            let requests = asked(next, make_dirs(dirs), replies);
            &&& requests.len() == 2 * dirs.len()
            &&& requests[2 * i] == Request::Stat(dirs[i])
            &&& requests[2 * i + 1] == (Request::Mkdir { path: dirs[i], mode: 0o755 })
            &&& after(next, make_dirs(dirs), replies) == StepView::<MakeDirsView, ()>::Finish(Ok(()))
        }),
    decreases dirs.len(),
{
    let next = |s: MakeDirsView, r: ReplyView| make_dirs_next(s, r);
    let start = make_dirs(dirs);
    let rest = dirs.drop_first();
    let r1 = replies.drop_first();
    let r2 = r1.drop_first();
    let s1 = make_dirs_next(start->state, replies[0]);
    assert(replies[2 * 0int] is Failed);
    assert(replies[2 * 0int + 1] == ReplyView::Done);
    assert(replies =~= seq![replies[0]] + r1);
    assert(r1 =~= seq![replies[1]] + r2);
    lemma_first_reply(next, start, replies[0], r1);
    lemma_first_reply(next, s1, replies[1], r2);
    let later = asked(next, make_dirs(rest), r2);
    let requests = asked(next, start, replies);
    assert(requests =~= seq![start->request, s1->request] + later);
    assert forall|k: int| 0 <= k < rest.len() implies (#[trigger] r2[2 * k]) is Failed && r2[2 * k
        + 1] == ReplyView::Done by {
        assert(r2[2 * k] == replies[2 * (k + 1)]);
        assert(r2[2 * k + 1] == replies[2 * (k + 1) + 1]);
    }
    if rest.len() > 0 {
        let j = if i > 0 {
            i - 1
        } else {
            0
        };
        all_missing_dirs_are_made(rest, r2, j);
        if i > 0 {
            assert(rest[j] == dirs[i]);
            assert(requests[2 * i] == later[2 * j]);
            assert(requests[2 * i + 1] == later[2 * j + 1]);
        }
    }
}

/// A directory that is there is not made, and one that cannot be made ends it
/// all with the reason; nothing is made where nothing is asked for.
pub proof fn a_directory_leads_to_the_next(
    dir: Seq<char>,
    left: Seq<Seq<char>>,
    a: Attrs,
    e: Seq<char>,
)
    ensures
        make_dirs(Seq::empty()) == StepView::<MakeDirsView, ()>::Finish(Ok(())),
        make_dirs_next(
            MakeDirs { current: dir, left, making: false },
            ReplyView::Attrs(a),
        ) == make_dirs(left),
        make_dirs_next(MakeDirs { current: dir, left, making: true }, ReplyView::Failed(e))
            == StepView::<MakeDirsView, ()>::Finish(
            Err("ssh: mkdir "@ + dir + " failed: "@ + e),
        ),
        make_dirs_next(MakeDirs { current: dir, left, making: true }, ReplyView::Broken(e))
            == StepView::<MakeDirsView, ()>::Finish(
            Err("ssh: mkdir "@ + dir + " failed: "@ + e),
        ),
        make_dirs_next(MakeDirs { current: dir, left, making: false }, ReplyView::Failed(e))
            == make_dirs_next(MakeDirs { current: dir, left, making: false }, ReplyView::Broken(e)),
{
}

proof fn lemma_creating(
    step: StepView<MakeDirsView, ()>,
    replies: Seq<ReplyView>,
)
    ensures
        asked(
            |s: CreateDirView, r: ReplyView| create_dir_next(s, r),
            create_dir_in(step),
            replies,
        ) == asked(|s: MakeDirsView, r: ReplyView| make_dirs_next(s, r), step, replies),
        after(|s: CreateDirView, r: ReplyView| create_dir_next(s, r), create_dir_in(step), replies)
            == create_dir_in(
            after(|s: MakeDirsView, r: ReplyView| make_dirs_next(s, r), step, replies),
        ),
    decreases replies.len(),
{
    if let Step::Ask { request, state } = step {
        if replies.len() > 0 {
            lemma_creating(make_dirs_next(state, replies[0]), replies.drop_first());
        }
    }
}

/// Creating a directory first asks whether something stands at its path, which
/// is the complaint where it does; else it makes every directory that leads
/// there and is missing, the outermost first.
pub proof fn directories_are_created_where_nothing_stands(
    path: Seq<char>,
    missing: ReplyView,
    there: Seq<bool>,
    a: Attrs,
)
    requires
        missing is Failed || missing is Broken,
        there.len() == prefixes(path).len(),
    ensures
        ({
            let next = |s: CreateDirView, r: ReplyView| create_dir_next(s, r);
            let start = create_dir_start(path);
            let replies = seq![missing] + dir_replies(there);
            &&& asked(next, start, replies) == seq![Request::Stat(path)] + dir_requests(
                prefixes(path),
                there,
            )
            &&& after(next, start, replies) == StepView::<CreateDirView, ()>::Finish(Ok(()))
            &&& create_dir_next(CreateDir::Probing { path }, ReplyView::Attrs(a)) == StepView::<
                CreateDirView,
                (),
            >::Finish(Err("already exists: "@ + path))
        }),
{
    let next = |s: CreateDirView, r: ReplyView| create_dir_next(s, r);
    let start = create_dir_start(path);
    lemma_first_reply(next, start, missing, dir_replies(there));
    lemma_creating(make_dirs(prefixes(path)), dir_replies(there));
    missing_dirs_are_made(prefixes(path), there);
}

} // verus!
