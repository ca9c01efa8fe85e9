//! What a walk finds, said of the whole tree rather than request by request.
use vstd::prelude::*;

use crate::folders::{is_tree, leads_below};
use crate::paths::{
    at_or_below, below, lemma_below_stays, lemma_below_transitive, relative, relative_undoes_below,
};
use crate::remote::{Entry, ReplyView, Request, Step, StepView};
use crate::text::joined;
use crate::walk::{
    hidden, look, noticed, over, pruned, settle, visit_of, walk_next, walk_start, wanted, weight,
    Frame, FrameView, PlanView, Tally, TallyView, Visit, WalkView, MAX_SCANNED,
};

verus! {

/// A server, as a walk knows it: what it lists of a directory when that is the
/// given request in the walk, counted from zero; `None` where it refuses.
pub type Server = spec_fn(nat, Seq<char>) -> Option<Seq<Entry<Seq<char>>>>;

/// What a walk has found and which directories it has asked for.
pub struct Survey {
    pub tally: TallyView,
    pub dirs: Seq<Seq<char>>,
}

/// The start of a survey.
pub open spec fn nothing() -> Survey {
    Survey {
        tally: Tally { scanned: 0, hits: Seq::empty(), full: false, spent: false },
        dirs: Seq::empty(),
    }
}

/// Whether a walk has asked for these directories first.
pub open spec fn extends(more: Seq<Seq<char>>, dirs: Seq<Seq<char>>) -> bool {
    dirs.len() <= more.len() && more.take(dirs.len() as int) == dirs
}

/// How many levels are left below a depth.
pub open spec fn levels(plan: PlanView, depth: usize) -> nat {
    if depth <= plan.max_depth {
        (plan.max_depth - depth + 1) as nat
    } else {
        0
    }
}

/// A survey of a directory: its entries in turn, each directory among them
/// right after it was come by.
pub open spec fn survey_dir(
    plan: PlanView,
    server: Server,
    dir: Seq<char>,
    depth: usize,
    s: Survey,
) -> Survey
    decreases levels(plan, depth), 2nat, 0nat,
{
    let s2 = Survey { dirs: s.dirs.push(dir), ..s };
    match server(s.dirs.len(), dir) {
        Some(entries) => survey_entries(plan, server, dir, depth, entries, s2),
        None => s2,
    }
}

/// A survey of entries of a directory.
pub open spec fn survey_entries(
    plan: PlanView,
    server: Server,
    dir: Seq<char>,
    depth: usize,
    entries: Seq<Entry<Seq<char>>>,
    s: Survey,
) -> Survey
    decreases levels(plan, depth), 1nat, entries.len(),
{
    if entries.len() == 0 {
        s
    } else {
        survey_entries(
            plan,
            server,
            dir,
            depth,
            entries.drop_first(),
            survey_entry(plan, server, dir, depth, entries[0], s),
        )
    }
}

/// A survey of one entry, and of the directory that it is.
pub open spec fn survey_entry(
    plan: PlanView,
    server: Server,
    dir: Seq<char>,
    depth: usize,
    e: Entry<Seq<char>>,
    s: Survey,
) -> Survey
    decreases levels(plan, depth), 0nat, 0nat,
{
    if over(s.tally) {
        s
    } else {
        let (t2, enters) = look(plan, dir, depth, e, s.tally);
        let s2 = Survey { tally: t2, ..s };
        if enters && depth < plan.max_depth {
            survey_dir(plan, server, below(dir, e.name->0), (depth + 1) as usize, s2)
        } else {
            s2
        }
    }
}

/// The survey of the whole tree below the root of a plan.
pub open spec fn survey(plan: PlanView, server: Server) -> Survey {
    survey_dir(plan, server, plan.root, 0, nothing())
}

/// What a server replies to request number `k`.
pub open spec fn reply_to(server: Server, k: nat, request: Request<Seq<char>>) -> ReplyView {
    match request {
        Request::List(dir) => match server(k, dir) {
            Some(entries) => ReplyView::Entries(entries),
            None => ReplyView::Failed(Seq::empty()),
        },
        _ => ReplyView::Failed(Seq::empty()),
    }
}

/// Where an operation stands after `n` more replies of a server, the first of
/// which answers request number `k`.
pub open spec fn served<S, T>(
    next: spec_fn(S, ReplyView) -> StepView<S, T>,
    server: Server,
    k: nat,
    step: StepView<S, T>,
    n: nat,
) -> StepView<S, T>
    decreases n,
{
    match step {
        Step::Ask { request, state } => if n == 0 {
            step
        } else {
            served(
                next,
                server,
                k + 1,
                next(state, reply_to(server, k, request)),
                (n - 1) as nat,
            )
        },
        Step::Finish(_) => step,
    }
}

/// The requests that an operation makes for `n` more replies of a server, the
/// first of which answers request number `k`.
pub open spec fn requested<S, T>(
    next: spec_fn(S, ReplyView) -> StepView<S, T>,
    server: Server,
    k: nat,
    step: StepView<S, T>,
    n: nat,
) -> Seq<Request<Seq<char>>>
    decreases n,
{
    match step {
        Step::Ask { request, state } => if n == 0 {
            Seq::empty()
        } else {
            seq![request] + requested(
                next,
                server,
                k + 1,
                next(state, reply_to(server, k, request)),
                (n - 1) as nat,
            )
        },
        Step::Finish(_) => Seq::empty(),
    }
}

/// Requests for directories.
pub open spec fn listings(dirs: Seq<Seq<char>>) -> Seq<Request<Seq<char>>> {
    Seq::new(dirs.len(), |i: int| Request::List(dirs[i]))
}

/// How a walk goes on, as a value.
pub open spec fn walking() -> spec_fn(WalkView, ReplyView) -> StepView<WalkView, TallyView> {
    |w: WalkView, reply: ReplyView| walk_next(w, reply)
}

/// The survey of all that a walk has before it.
spec fn pending(
    plan: PlanView,
    server: Server,
    frames: Seq<FrameView>,
    s: Survey,
) -> Survey
    decreases frames.len(),
{
    if frames.len() == 0 {
        s
    } else {
        let f = frames[0];
        pending(
            plan,
            server,
            frames.drop_first(),
            survey_entries(plan, server, f.dir, f.depth, f.entries, s),
        )
    }
}

proof fn lemma_extends(a: Seq<Seq<char>>, b: Seq<Seq<char>>, c: Seq<Seq<char>>)
    requires
        extends(a, b),
        extends(b, c),
    ensures
        extends(a, c),
{
    assert(a.take(c.len() as int) =~= b.take(c.len() as int));
}

proof fn lemma_dir_grows(
    plan: PlanView,
    server: Server,
    dir: Seq<char>,
    depth: usize,
    s: Survey,
)
    ensures
        extends(survey_dir(plan, server, dir, depth, s).dirs, s.dirs.push(dir)),
    decreases levels(plan, depth), 2nat, 0nat,
{
    let s2 = Survey { dirs: s.dirs.push(dir), ..s };
    assert(s2.dirs.take(s2.dirs.len() as int) =~= s2.dirs);
    match server(s.dirs.len(), dir) {
        Some(entries) => {
            lemma_entries_grow(plan, server, dir, depth, entries, s2);
        },
        None => {},
    }
}

proof fn lemma_entries_grow(
    plan: PlanView,
    server: Server,
    dir: Seq<char>,
    depth: usize,
    entries: Seq<Entry<Seq<char>>>,
    s: Survey,
)
    ensures
        extends(survey_entries(plan, server, dir, depth, entries, s).dirs, s.dirs),
    decreases levels(plan, depth), 1nat, entries.len(),
{
    assert(s.dirs.take(s.dirs.len() as int) =~= s.dirs);
    if entries.len() > 0 {
        let e = entries[0];
        let s2 = survey_entry(plan, server, dir, depth, e, s);
        if !over(s.tally) {
            let (t2, enters) = look(plan, dir, depth, e, s.tally);
            if enters && depth < plan.max_depth {
                let sub = below(dir, e.name->0);
                lemma_dir_grows(
                    plan,
                    server,
                    sub,
                    (depth + 1) as usize,
                    Survey { tally: t2, ..s },
                );
                assert(s.dirs.push(sub).take(s.dirs.len() as int) =~= s.dirs);
                lemma_extends(s2.dirs, s.dirs.push(sub), s.dirs);
            }
        }
        lemma_entries_grow(plan, server, dir, depth, entries.drop_first(), s2);
        lemma_extends(
            survey_entries(plan, server, dir, depth, entries, s).dirs,
            s2.dirs,
            s.dirs,
        );
    }
}

proof fn lemma_pending_grows(
    plan: PlanView,
    server: Server,
    frames: Seq<FrameView>,
    s: Survey,
)
    ensures
        extends(pending(plan, server, frames, s).dirs, s.dirs),
    decreases frames.len(),
{
    assert(s.dirs.take(s.dirs.len() as int) =~= s.dirs);
    if frames.len() > 0 {
        let f = frames[0];
        let s2 = survey_entries(plan, server, f.dir, f.depth, f.entries, s);
        lemma_entries_grow(plan, server, f.dir, f.depth, f.entries, s);
        lemma_pending_grows(plan, server, frames.drop_first(), s2);
        lemma_extends(pending(plan, server, frames, s).dirs, s2.dirs, s.dirs);
    }
}

proof fn lemma_entries_over(
    plan: PlanView,
    server: Server,
    dir: Seq<char>,
    depth: usize,
    entries: Seq<Entry<Seq<char>>>,
    s: Survey,
)
    requires
        over(s.tally),
    ensures
        survey_entries(plan, server, dir, depth, entries, s) == s,
    decreases entries.len(),
{
    reveal_with_fuel(survey_entry, 2);
    if entries.len() > 0 {
        assert(survey_entry(plan, server, dir, depth, entries[0], s) == s);
        lemma_entries_over(plan, server, dir, depth, entries.drop_first(), s);
    }
}

proof fn lemma_pending_over(
    plan: PlanView,
    server: Server,
    frames: Seq<FrameView>,
    s: Survey,
)
    requires
        over(s.tally),
    ensures
        pending(plan, server, frames, s) == s,
    decreases frames.len(),
{
    if frames.len() > 0 {
        let f = frames[0];
        lemma_entries_over(plan, server, f.dir, f.depth, f.entries, s);
        lemma_pending_over(plan, server, frames.drop_first(), s);
    }
}

proof fn lemma_served(plan: PlanView, server: Server, frames: Seq<FrameView>, s: Survey)
    ensures
        extends(pending(plan, server, frames, s).dirs, s.dirs),
        served(
            walking(),
            server,
            s.dirs.len(),
            settle(plan, frames, s.tally),
            (pending(plan, server, frames, s).dirs.len() - s.dirs.len()) as nat,
        ) == StepView::<WalkView, TallyView>::Finish(Ok(pending(plan, server, frames, s).tally)),
        requested(
            walking(),
            server,
            s.dirs.len(),
            settle(plan, frames, s.tally),
            (pending(plan, server, frames, s).dirs.len() - s.dirs.len()) as nat,
        ) == listings(pending(plan, server, frames, s).dirs.skip(s.dirs.len() as int)),
    decreases pending(plan, server, frames, s).dirs.len() - s.dirs.len(), weight(frames),
{
    reveal_with_fuel(survey_entries, 3);
    reveal_with_fuel(survey_entry, 3);
    reveal_with_fuel(survey_dir, 3);
    lemma_pending_grows(plan, server, frames, s);
    let total = pending(plan, server, frames, s);
    let ahead = total.dirs.skip(s.dirs.len() as int);
    if over(s.tally) {
        lemma_pending_over(plan, server, frames, s);
        assert(listings(ahead) =~= Seq::<Request<Seq<char>>>::empty());
    } else if frames.len() > 0 {
        let f = frames[0];
        let rest = frames.drop_first();
        if f.entries.len() == 0 {
            assert(total == pending(plan, server, rest, s));
            lemma_served(plan, server, rest, s);
        } else {
            let e = f.entries[0];
            let (t2, enters) = look(plan, f.dir, f.depth, e, s.tally);
            let f2: FrameView = Frame { entries: f.entries.drop_first(), ..f };
            let left = seq![f2] + rest;
            let s2 = Survey { tally: t2, ..s };
            assert(left.drop_first() =~= rest);
            assert(left[0] == f2);
            if enters {
                let dir = below(f.dir, e.name->0);
                let depth = (f.depth + 1) as usize;
                let s3 = Survey { dirs: s.dirs.push(dir), ..s2 };
                let w = WalkView { plan, tally: t2, dir, depth, frames: left };
                let frames2 = match server(s.dirs.len(), dir) {
                    Some(entries) => {
                        let new: FrameView = Frame { dir, depth, entries };
                        seq![new] + left
                    },
                    None => left,
                };
                assert(frames2.len() > left.len() ==> frames2.drop_first() =~= left);
                assert(pending(plan, server, left, survey_dir(plan, server, dir, depth, s2))
                    == total);
                assert(pending(plan, server, frames2, s3) == total);
                lemma_pending_grows(plan, server, frames2, s3);
                lemma_served(plan, server, frames2, s3);
                let reply = reply_to(server, s.dirs.len(), Request::List(dir));
                assert(walk_next(w, reply) == settle(plan, frames2, t2));
                assert(total.dirs[s.dirs.len() as int] == dir) by {
                    assert(total.dirs.take(s3.dirs.len() as int)[s.dirs.len() as int] == dir);
                }
                assert(listings(ahead) =~= seq![Request::List(dir)] + listings(
                    total.dirs.skip(s3.dirs.len() as int),
                ));
            } else {
                assert(pending(plan, server, left, s2) == total);
                lemma_served(plan, server, left, s2);
            }
        }
    } else {
        assert(listings(ahead) =~= Seq::<Request<Seq<char>>>::empty());
    }
}

/// A walk, served by any server, is the survey of the tree: it asks for the
/// directories of the survey, in order, and once these were replied to it is
/// over with the tally of the survey.
pub proof fn walk_is_survey(plan: PlanView, server: Server)
    ensures
        served(walking(), server, 0, walk_start(plan), survey(plan, server).dirs.len())
            == StepView::<WalkView, TallyView>::Finish(Ok(survey(plan, server).tally)),
        requested(walking(), server, 0, walk_start(plan), survey(plan, server).dirs.len())
            == listings(survey(plan, server).dirs),
{
    let start = nothing();
    let first = Survey { dirs: start.dirs.push(plan.root), ..start };
    let total = survey(plan, server);
    lemma_dir_grows(plan, server, plan.root, 0, start);
    let w = WalkView {
        plan,
        tally: start.tally,
        dir: plan.root,
        depth: 0,
        frames: Seq::empty(),
    };
    let frames = match server(0, plan.root) {
        Some(entries) => {
            let f: FrameView = Frame { dir: plan.root, depth: 0, entries };
            let frames = seq![f] + Seq::empty();
            assert(frames.drop_first() =~= Seq::<FrameView>::empty());
            assert(pending(
                plan,
                server,
                Seq::empty(),
                survey_entries(plan, server, plan.root, 0, entries, first),
            ) == survey_entries(plan, server, plan.root, 0, entries, first));
            frames
        },
        None => Seq::empty(),
    };
    assert(pending(plan, server, frames, first) == total);
    lemma_served(plan, server, frames, first);
    let reply = reply_to(server, 0, Request::List(plan.root));
    assert(walk_next(w, reply) == settle(plan, frames, start.tally));
    assert(total.dirs[0] == plan.root) by {
        assert(total.dirs.take(1)[0] == plan.root);
    }
    assert(listings(total.dirs) =~= seq![Request::List(plan.root)] + listings(
        total.dirs.skip(1),
    ));
}

/// The most that a walk collects.
pub open spec fn capacity(plan: PlanView) -> nat {
    if plan.limit == 0 {
        1
    } else {
        plan.limit as nat
    }
}

/// Whether a walk takes notice of what has this name.
pub open spec fn in_sight(plan: PlanView, name: Seq<char>) -> bool {
    leads_below(name) && (plan.show_hidden || !hidden(name))
}

/// What holds of a tally at every moment of a walk.
pub open spec fn sound(plan: PlanView, t: TallyView) -> bool {
    &&& t.scanned <= MAX_SCANNED
    &&& t.hits.len() <= capacity(plan)
    &&& t.full <==> t.hits.len() == capacity(plan)
    &&& forall|i: int|
        0 <= i < t.hits.len() ==> wanted(plan.want, #[trigger] t.hits[i]) && in_sight(
            plan,
            t.hits[i].name,
        )
}

/// Whether a walk may go into a directory: the directory stands at or below the
/// root of the walk, and its name is one that the walk takes notice of and not
/// one of those that hold what tools generate.
pub open spec fn may_enter(plan: PlanView, dir: Seq<char>) -> bool {
    &&& at_or_below(dir, plan.root)
    &&& exists|parent: Seq<char>, name: Seq<char>|
        dir == #[trigger] below(parent, name) && in_sight(plan, name) && !pruned(name)
}

/// What holds of a survey at every moment.
pub open spec fn tidy(plan: PlanView, s: Survey) -> bool {
    &&& sound(plan, s.tally)
    &&& s.dirs.len() > 0
    &&& s.dirs[0] == plan.root
    &&& s.dirs.len() <= s.tally.scanned + 1
    &&& forall|i: int| 0 < i < s.dirs.len() ==> may_enter(plan, #[trigger] s.dirs[i])
}

proof fn lemma_look_sound(
    plan: PlanView,
    dir: Seq<char>,
    depth: usize,
    e: Entry<Seq<char>>,
    t: TallyView,
)
    requires
        sound(plan, t),
        !over(t),
    ensures
        sound(plan, look(plan, dir, depth, e, t).0),
        look(plan, dir, depth, e, t).0.scanned >= t.scanned,
        look(plan, dir, depth, e, t).1 ==> {
            &&& look(plan, dir, depth, e, t).0.scanned == t.scanned + 1
            &&& e.name is Some
            &&& in_sight(plan, e.name->0)
            &&& !pruned(e.name->0)
        },
{
}

proof fn lemma_entries_tidy(
    plan: PlanView,
    server: Server,
    dir: Seq<char>,
    depth: usize,
    entries: Seq<Entry<Seq<char>>>,
    s: Survey,
)
    requires
        tidy(plan, s),
        at_or_below(dir, plan.root),
    ensures
        tidy(plan, survey_entries(plan, server, dir, depth, entries, s)),
    decreases levels(plan, depth), 1nat, entries.len(),
{
    if entries.len() > 0 {
        let e = entries[0];
        let s2 = survey_entry(plan, server, dir, depth, e, s);
        if !over(s.tally) {
            lemma_look_sound(plan, dir, depth, e, s.tally);
            let (t2, enters) = look(plan, dir, depth, e, s.tally);
            if enters && depth < plan.max_depth {
                let sub = below(dir, e.name->0);
                lemma_below_stays(dir, e.name->0);
                lemma_below_transitive(sub, dir, plan.root);
                assert(may_enter(plan, sub));
                let s3 = Survey { tally: t2, dirs: s.dirs.push(sub) };
                assert(tidy(plan, s3));
                match server(s.dirs.len(), sub) {
                    Some(inner) => {
                        lemma_entries_tidy(plan, server, sub, (depth + 1) as usize, inner, s3);
                    },
                    None => {},
                }
            }
        }
        lemma_entries_tidy(plan, server, dir, depth, entries.drop_first(), s2);
    }
}

/// A walk is bounded and stays where it belongs, whatever the server lists. It
/// looks at no more than `MAX_SCANNED` entries and asks for at most one
/// directory more than it looks at entries; the first is its root, and every
/// other one it may enter. It collects only what is wanted and in sight and no
/// more than it may, and it is full exactly when it collected that much.
pub proof fn walk_is_bounded(plan: PlanView, server: Server)
    ensures
        survey(plan, server).dirs.len() <= MAX_SCANNED + 1,
        tidy(plan, survey(plan, server)),
{
    let first = Survey { dirs: nothing().dirs.push(plan.root), ..nothing() };
    match server(0, plan.root) {
        Some(entries) => {
            lemma_entries_tidy(plan, server, plan.root, 0, entries, first);
        },
        None => {},
    }
}

/// A host that lists a directory the same way each time; `None` where it
/// refuses.
pub type Host = spec_fn(Seq<char>) -> Option<Seq<Entry<Seq<char>>>>;

/// A host as a server.
pub open spec fn steady(host: Host) -> Server {
    |k: nat, dir: Seq<char>| host(dir)
}

/// All that a walk without limits comes by: what is wanted of it, in the order
/// in which it is come by, and how many entries were looked at.
pub struct Whole {
    pub hits: Seq<Visit<Seq<char>>>,
    pub entries: nat,
}

/// One thing and then another.
pub open spec fn and_next(a: Whole, b: Whole) -> Whole {
    Whole { hits: a.hits + b.hits, entries: a.entries + b.entries }
}

/// All that stands below a directory, down to the depth of a plan.
pub open spec fn whole_dir(plan: PlanView, host: Host, dir: Seq<char>, depth: usize) -> Whole
    decreases levels(plan, depth), 2nat, 0nat,
{
    match host(dir) {
        Some(entries) => whole_entries(plan, host, dir, depth, entries),
        None => Whole { hits: Seq::empty(), entries: 0 },
    }
}

/// All that entries of a directory are and that stands below them.
pub open spec fn whole_entries(
    plan: PlanView,
    host: Host,
    dir: Seq<char>,
    depth: usize,
    entries: Seq<Entry<Seq<char>>>,
) -> Whole
    decreases levels(plan, depth), 1nat, entries.len(),
{
    if entries.len() == 0 {
        Whole { hits: Seq::empty(), entries: 0 }
    } else {
        and_next(
            whole_entry(plan, host, dir, depth, entries[0]),
            whole_entries(plan, host, dir, depth, entries.drop_first()),
        )
    }
}

/// What one entry is and what stands below it: nothing where the entry is to
/// be passed over.
pub open spec fn whole_entry(
    plan: PlanView,
    host: Host,
    dir: Seq<char>,
    depth: usize,
    e: Entry<Seq<char>>,
) -> Whole
    decreases levels(plan, depth), 0nat, 0nat,
{
    let v = visit_of(plan, dir, e);
    if !noticed(plan, e) || v.rel.len() == 0 {
        Whole { hits: Seq::empty(), entries: 1 }
    } else {
        let own = Whole {
            hits: if wanted(plan.want, v) {
                seq![v]
            } else {
                Seq::empty()
            },
            entries: 1,
        };
        if v.is_dir && depth < plan.max_depth {
            and_next(own, whole_dir(plan, host, below(dir, e.name->0), (depth + 1) as usize))
        } else {
            own
        }
    }
}

/// All that stands below the root of a plan.
pub open spec fn whole(plan: PlanView, host: Host) -> Whole {
    whole_dir(plan, host, plan.root, 0)
}

/// How the tally of a walk grows from `t` to `r` over all of `w`: by the first
/// of its hits, and by all of them unless a limit is reached.
spec fn collects(plan: PlanView, t: TallyView, w: Whole, r: TallyView) -> bool {
    &&& r.scanned <= MAX_SCANNED
    &&& r.hits.len() <= t.hits.len() + w.hits.len()
    &&& r.hits == (t.hits + w.hits).take(r.hits.len() as int)
    &&& !over(r) ==> r.hits == t.hits + w.hits && r.scanned == t.scanned + w.entries
    &&& t.hits.len() + w.hits.len() < capacity(plan) ==> !r.full
    &&& t.scanned + w.entries <= MAX_SCANNED ==> !r.spent
}

proof fn lemma_collects_next(
    plan: PlanView,
    t: TallyView,
    a: Whole,
    m: TallyView,
    b: Whole,
    r: TallyView,
)
    requires
        collects(plan, t, a, m),
        if over(m) {
            r == m
        } else {
            collects(plan, m, b, r)
        },
    ensures
        collects(plan, t, and_next(a, b), r),
{
    let ab = and_next(a, b);
    assert(t.hits + ab.hits =~= (t.hits + a.hits) + b.hits);
    assert((t.hits + a.hits).take(m.hits.len() as int) =~= (t.hits + ab.hits).take(
        m.hits.len() as int,
    ));
}

proof fn lemma_entry_collects(
    plan: PlanView,
    host: Host,
    dir: Seq<char>,
    depth: usize,
    e: Entry<Seq<char>>,
    s: Survey,
)
    requires
        !over(s.tally),
        s.tally.scanned <= MAX_SCANNED,
    ensures
        collects(
            plan,
            s.tally,
            whole_entry(plan, host, dir, depth, e),
            survey_entry(plan, steady(host), dir, depth, e, s).tally,
        ),
    decreases levels(plan, depth), 0nat, 0nat,
{
    reveal_with_fuel(whole_entry, 2);
    reveal_with_fuel(survey_entry, 2);
    reveal_with_fuel(whole_dir, 2);
    reveal_with_fuel(survey_dir, 2);
    let t = s.tally;
    let (t2, enters) = look(plan, dir, depth, e, t);
    let v = visit_of(plan, dir, e);
    let all = whole_entry(plan, host, dir, depth, e);
    let r = survey_entry(plan, steady(host), dir, depth, e, s).tally;
    if t.scanned >= MAX_SCANNED || !noticed(plan, e) || v.rel.len() == 0 {
        assert(r.hits == t.hits);
        assert(r.hits =~= (t.hits + all.hits).take(r.hits.len() as int));
        if !over(r) {
            assert(t.hits + all.hits =~= r.hits);
        }
    } else {
        let own = Whole {
            hits: if wanted(plan.want, v) {
                seq![v]
            } else {
                Seq::empty()
            },
            entries: 1,
        };
        assert(t2.hits =~= t.hits + own.hits);
        assert(t2.hits =~= (t.hits + own.hits).take(t2.hits.len() as int));
        assert(collects(plan, t, own, t2));
        if v.is_dir && depth < plan.max_depth {
            let sub = below(dir, e.name->0);
            let below_it = whole_dir(plan, host, sub, (depth + 1) as usize);
            if enters {
                let s3 = Survey { tally: t2, dirs: s.dirs.push(sub) };
                match host(sub) {
                    Some(inner) => {
                        lemma_entries_collect(plan, host, sub, (depth + 1) as usize, inner, s3);
                    },
                    None => {
                        assert(t2.hits + below_it.hits =~= t2.hits);
                        assert(t2.hits.take(t2.hits.len() as int) =~= t2.hits);
                    },
                }
            }
            lemma_collects_next(plan, t, own, t2, below_it, r);
        }
    }
}

proof fn lemma_entries_collect(
    plan: PlanView,
    host: Host,
    dir: Seq<char>,
    depth: usize,
    entries: Seq<Entry<Seq<char>>>,
    s: Survey,
)
    requires
        !over(s.tally),
        s.tally.scanned <= MAX_SCANNED,
    ensures
        collects(
            plan,
            s.tally,
            whole_entries(plan, host, dir, depth, entries),
            survey_entries(plan, steady(host), dir, depth, entries, s).tally,
        ),
    decreases levels(plan, depth), 1nat, entries.len(),
{
    if entries.len() == 0 {
        let hits = s.tally.hits;
        assert(hits + Seq::empty() =~= hits);
        assert(hits.take(hits.len() as int) =~= hits);
    } else {
        let m = survey_entry(plan, steady(host), dir, depth, entries[0], s);
        let rest = entries.drop_first();
        lemma_entry_collects(plan, host, dir, depth, entries[0], s);
        if over(m.tally) {
            lemma_entries_over(plan, steady(host), dir, depth, rest, m);
        } else {
            lemma_entries_collect(plan, host, dir, depth, rest, m);
        }
        lemma_collects_next(
            plan,
            s.tally,
            whole_entry(plan, host, dir, depth, entries[0]),
            m.tally,
            whole_entries(plan, host, dir, depth, rest),
            survey_entries(plan, steady(host), dir, depth, rest, m).tally,
        );
    }
}

/// A walk that no limit ends has collected all that is wanted and not to be
/// passed over, in the order in which it stands in the tree, on a host that
/// lists a directory the same way each time. A walk that a limit ends has
/// collected the first of it. Limits end a walk exactly where as much is wanted
/// as it may collect, or where there are more than `MAX_SCANNED` entries; it is
/// full only for the one reason and spent only for the other.
pub proof fn walk_is_complete(plan: PlanView, host: Host)
    ensures
        ({
            let t = survey(plan, steady(host)).tally;
            let all = whole(plan, host);
            &&& t.hits.len() <= all.hits.len()
            &&& t.hits == all.hits.take(t.hits.len() as int)
            &&& !over(t) ==> t.hits == all.hits
            &&& over(t) <==> all.hits.len() >= capacity(plan) || all.entries > MAX_SCANNED
            &&& t.full ==> all.hits.len() >= capacity(plan)
            &&& t.spent ==> all.entries > MAX_SCANNED
        }),
{
    let first = Survey { dirs: nothing().dirs.push(plan.root), ..nothing() };
    let t = survey(plan, steady(host)).tally;
    let all = whole(plan, host);
    assert(first.tally.hits + all.hits =~= all.hits);
    walk_is_bounded(plan, steady(host));
    match host(plan.root) {
        Some(entries) => {
            lemma_entries_collect(plan, host, plan.root, 0, entries, first);
        },
        None => {},
    }
}

/// Whether all names that a host lists are names: not empty, and without a
/// separator.
pub open spec fn lists_names(host: Host) -> bool {
    forall|dir: Seq<char>, e: Entry<Seq<char>>|
        (#[trigger] host(dir)) is Some && #[trigger] host(dir)->0.contains(e) && e.name is Some
            ==> e.name->0.len() > 0 && !e.name->0.contains('/')
}

/// The path from a root down through directories of these names.
pub open spec fn path_to(root: Seq<char>, names: Seq<Seq<char>>) -> Seq<char> {
    below(root, joined(names, seq!['/']))
}

/// Whether an entry is a directory itself, and no link to one.
pub open spec fn is_folder(e: Entry<Seq<char>>) -> bool {
    e.attrs.is_dir && !e.attrs.is_symlink
}

/// Whether an entry counts in a walk: it has a name, which is not that of the
/// directory itself or of the one above, which does not begin with a dot unless
/// those are asked for, and which is not one that tools give to directories.
pub open spec fn counts(show_hidden: bool, e: Entry<Seq<char>>) -> bool {
    &&& e.name matches Some(name)
    &&& name != "."@ && name != ".."@
    &&& show_hidden || name.len() == 0 || name[0] != '.'
    &&& is_folder(e) ==> !seq![
        "node_modules"@,
        ".git"@,
        "target"@,
        "dist"@,
        "build"@,
        ".next"@,
        ".turbo"@,
        ".cache"@,
        ".venv"@,
        "__pycache__"@,
    ].contains(name)
}

/// Whether a host lists an entry in a directory.
pub open spec fn lists(host: Host, dir: Seq<char>, e: Entry<Seq<char>>) -> bool {
    host(dir) is Some && host(dir)->0.contains(e)
}

/// Whether a host lists in a directory one of this name that counts.
pub open spec fn lists_folder(
    host: Host,
    show_hidden: bool,
    dir: Seq<char>,
    name: Seq<char>,
) -> bool {
    exists|e: Entry<Seq<char>>| #[trigger]
        lists(host, dir, e) && e.name == Some(name) && is_folder(e) && counts(show_hidden, e)
}

/// Whether directories of these names lead down from a root, one in the other,
/// each of which counts.
pub open spec fn lead_down(
    root: Seq<char>,
    show_hidden: bool,
    host: Host,
    names: Seq<Seq<char>>,
) -> bool {
    forall|i: int|
        0 <= i < names.len() ==> lists_folder(
            host,
            show_hidden,
            path_to(root, names.take(i)),
            #[trigger] names[i],
        )
}

/// Whether an entry that counts stands below a root, in the directory that
/// these names lead down to.
pub open spec fn stands_below(
    root: Seq<char>,
    show_hidden: bool,
    host: Host,
    names: Seq<Seq<char>>,
    e: Entry<Seq<char>>,
) -> bool {
    &&& lead_down(root, show_hidden, host, names)
    &&& lists(host, path_to(root, names), e)
    &&& counts(show_hidden, e)
}

/// The path of an entry from the root, by the names that lead down to it and
/// its own.
pub open spec fn path_of(names: Seq<Seq<char>>, e: Entry<Seq<char>>) -> Seq<char> {
    joined(names.push(e.name->0), seq!['/'])
}

proof fn lemma_counts(plan: PlanView, e: Entry<Seq<char>>)
    ensures
        noticed(plan, e) <==> counts(plan.show_hidden, e),
        is_folder(e) == is_tree(e.attrs),
{
    if let Some(name) = e.name {
        let all = seq![
            "node_modules"@,
            ".git"@,
            "target"@,
            "dist"@,
            "build"@,
            ".next"@,
            ".turbo"@,
            ".cache"@,
            ".venv"@,
            "__pycache__"@,
        ];
        assert(all[0] == "node_modules"@ && all[1] == ".git"@ && all[2] == "target"@ && all[3]
            == "dist"@ && all[4] == "build"@ && all[5] == ".next"@ && all[6] == ".turbo"@ && all[7]
            == ".cache"@ && all[8] == ".venv"@ && all[9] == "__pycache__"@);
        if all.contains(name) {
            let i = choose|i: int| 0 <= i < all.len() && all[i] == name;
            assert(pruned(name));
        }
        if pruned(name) {
            assert(all.contains(name));
        }
    }
}

spec fn all_names(names: Seq<Seq<char>>) -> bool {
    forall|i: int|
        0 <= i < names.len() ==> (#[trigger] names[i]).len() > 0 && !names[i].contains('/')
}

proof fn lemma_joined_names(names: Seq<Seq<char>>)
    requires
        names.len() > 0,
        all_names(names),
    ensures
        joined(names, seq!['/']).len() > 0,
        joined(names, seq!['/'])[0] != '/',
        joined(names, seq!['/']).last() != '/',
    decreases names.len(),
{
    let last = names.last();
    assert(last == names[names.len() - 1]);
    assert(last.contains(last[0]) && last.contains(last[last.len() - 1]));
    if names.len() > 1 {
        let few = names.drop_last();
        assert forall|i: int| 0 <= i < few.len() implies (#[trigger] few[i]).len() > 0
            && !few[i].contains('/') by {
            assert(few[i] == names[i]);
        }
        lemma_joined_names(few);
        assert(joined(names, seq!['/'])[0] == joined(few, seq!['/'])[0]);
    }
}

/// A name more leads one level further down, and the path from the root is made
/// of the names.
proof fn lemma_path_to(root: Seq<char>, names: Seq<Seq<char>>, name: Seq<char>)
    requires
        all_names(names.push(name)),
    ensures
        path_to(root, Seq::empty()) == root,
        below(path_to(root, names), name) == path_to(root, names.push(name)),
        relative(root, path_to(root, names.push(name))) == joined(names.push(name), seq!['/']),
        joined(names.push(name), seq!['/']).len() > 0,
{
    let more = names.push(name);
    lemma_joined_names(more);
    relative_undoes_below(root, joined(more, seq!['/']));
    assert(more.drop_last() =~= names);
    assert(more.last() == name);
    assert(name.len() > 0) by {
        assert(more[names.len() as int] == name);
    }
    if names.len() > 0 {
        assert forall|i: int| 0 <= i < names.len() implies (#[trigger] names[i]).len() > 0
            && !names[i].contains('/') by {
            assert(names[i] == more[i]);
        }
        lemma_joined_names(names);
        let j = joined(names, seq!['/']);
        assert(path_to(root, names).last() == j.last());
        assert(below(path_to(root, names), name) =~= path_to(root, more));
    }
}

proof fn lemma_names_lead(
    root: Seq<char>,
    show_hidden: bool,
    host: Host,
    names: Seq<Seq<char>>,
)
    requires
        lists_names(host),
        lead_down(root, show_hidden, host, names),
    ensures
        all_names(names),
{
    assert forall|i: int| 0 <= i < names.len() implies (#[trigger] names[i]).len() > 0
        && !names[i].contains('/') by {
        let e = choose|e: Entry<Seq<char>>| #[trigger]
            lists(host, path_to(root, names.take(i)), e) && e.name == Some(names[i]) && is_folder(e)
                && counts(show_hidden, e);
        assert(host(path_to(root, names.take(i)))->0.contains(e));
    }
}

/// An entry of a directory that names lead to is one name further down.
proof fn lemma_further_down(
    root: Seq<char>,
    host: Host,
    at: Seq<Seq<char>>,
    e: Entry<Seq<char>>,
)
    requires
        lists_names(host),
        all_names(at),
        lists(host, path_to(root, at), e),
        e.name is Some,
    ensures
        all_names(at.push(e.name->0)),
        below(path_to(root, at), e.name->0) == path_to(root, at.push(e.name->0)),
        relative(root, below(path_to(root, at), e.name->0)) == path_of(at, e),
        path_of(at, e).len() > 0,
{
    let name = e.name->0;
    let more = at.push(name);
    assert(host(path_to(root, at))->0.contains(e));
    assert forall|k: int| 0 <= k < more.len() implies (#[trigger] more[k]).len() > 0
        && !more[k].contains('/') by {
        if k < at.len() {
            assert(more[k] == at[k]);
        }
    }
    lemma_path_to(root, at, name);
}

proof fn lemma_lead_on(
    root: Seq<char>,
    show_hidden: bool,
    host: Host,
    names: Seq<Seq<char>>,
    e: Entry<Seq<char>>,
)
    requires
        stands_below(root, show_hidden, host, names, e),
        is_folder(e),
    ensures
        lead_down(root, show_hidden, host, names.push(e.name->0)),
{
    let more = names.push(e.name->0);
    assert forall|i: int| 0 <= i < more.len() implies lists_folder(
        host,
        show_hidden,
        path_to(root, more.take(i)),
        #[trigger] more[i],
    ) by {
        if i < names.len() {
            assert(more.take(i) =~= names.take(i));
            assert(more[i] == names[i]);
        } else {
            assert(more.take(i) =~= names);
            assert(lists(host, path_to(root, more.take(i)), e));
        }
    }
}

/// Whether something that a walk came by is this entry below these names.
pub open spec fn is_of(v: Visit<Seq<char>>, names: Seq<Seq<char>>, e: Entry<Seq<char>>) -> bool {
    v == Visit { rel: path_of(names, e), name: e.name->0, is_dir: is_folder(e) }
}

proof fn lemma_whole_sound(
    plan: PlanView,
    host: Host,
    at: Seq<Seq<char>>,
    entries: Seq<Entry<Seq<char>>>,
    v: Visit<Seq<char>>,
)
    requires
        lists_names(host),
        lead_down(plan.root, plan.show_hidden, host, at),
        at.len() <= plan.max_depth,
        forall|i: int|
            0 <= i < entries.len() ==> lists(host, path_to(plan.root, at), #[trigger] entries[i]),
        whole_entries(plan, host, path_to(plan.root, at), at.len() as usize, entries).hits.contains(
            v,
        ),
    ensures
        exists|names: Seq<Seq<char>>, e: Entry<Seq<char>>|
            #![trigger stands_below(plan.root, plan.show_hidden, host, names, e)]
            stands_below(plan.root, plan.show_hidden, host, names, e) && names.len()
                <= plan.max_depth && is_of(v, names, e) && wanted(plan.want, v),
    decreases levels(plan, at.len() as usize), entries.len(),
{
    let root = plan.root;
    let hid = plan.show_hidden;
    let dir = path_to(root, at);
    let depth = at.len() as usize;
    let rest = entries.drop_first();
    let e = entries[0];
    let mine = whole_entry(plan, host, dir, depth, e);
    let others = whole_entries(plan, host, dir, depth, rest);
    let all = whole_entries(plan, host, dir, depth, entries);
    assert(entries.len() > 0);
    let i = choose|i: int| 0 <= i < all.hits.len() && all.hits[i] == v;
    if i >= mine.hits.len() {
        assert(others.hits[i - mine.hits.len()] == v);
        assert(others.hits.contains(v));
        assert forall|k: int| 0 <= k < rest.len() implies lists(
            host,
            path_to(root, at),
            #[trigger] rest[k],
        ) by {
            assert(rest[k] == entries[k + 1]);
        }
        lemma_whole_sound(plan, host, at, rest, v);
    } else {
        assert(mine.hits[i] == v);
        lemma_counts(plan, e);
        assert(lists(host, dir, e));
        assert(noticed(plan, e));
        let name = e.name->0;
        lemma_names_lead(root, hid, host, at);
        let more = at.push(name);
        lemma_further_down(root, host, at, e);
        let own = visit_of(plan, dir, e);
        let n: int = if wanted(plan.want, own) {
            1
        } else {
            0
        };
        assert(stands_below(root, hid, host, at, e));
        if i < n {
            assert(v == own);
            assert(is_of(v, at, e));
        } else {
            assert(own.is_dir && depth < plan.max_depth);
            let sub = below(dir, name);
            let inner = whole_dir(plan, host, sub, (depth + 1) as usize);
            assert(inner.hits[i - n] == v);
            assert(inner.hits.contains(v));
            lemma_lead_on(root, hid, host, at, e);
            assert(host(sub) is Some);
            let l = host(sub)->0;
            assert forall|k: int| 0 <= k < l.len() implies lists(
                host,
                path_to(root, more),
                #[trigger] l[k],
            ) by {
                assert(l.contains(l[k]));
            }
            lemma_whole_sound(plan, host, more, l, v);
        }
    }
}

/// What one entry adds is among what all add.
proof fn lemma_entry_among(
    plan: PlanView,
    host: Host,
    dir: Seq<char>,
    depth: usize,
    entries: Seq<Entry<Seq<char>>>,
    e: Entry<Seq<char>>,
    v: Visit<Seq<char>>,
)
    requires
        entries.contains(e),
        whole_entry(plan, host, dir, depth, e).hits.contains(v),
    ensures
        whole_entries(plan, host, dir, depth, entries).hits.contains(v),
    decreases entries.len(),
{
    let rest = entries.drop_first();
    let mine = whole_entry(plan, host, dir, depth, entries[0]);
    let others = whole_entries(plan, host, dir, depth, rest);
    let all = whole_entries(plan, host, dir, depth, entries);
    assert(all.hits == mine.hits + others.hits);
    if entries[0] == e {
        let k = choose|k: int| 0 <= k < mine.hits.len() && mine.hits[k] == v;
        assert(all.hits[k] == v);
    } else {
        let i = choose|i: int| 0 <= i < entries.len() && entries[i] == e;
        assert(rest[i - 1] == e);
        lemma_entry_among(plan, host, dir, depth, rest, e, v);
        let k = choose|k: int| 0 <= k < others.hits.len() && others.hits[k] == v;
        assert(all.hits[mine.hits.len() + k] == v);
    }
}

proof fn lemma_whole_complete(
    plan: PlanView,
    host: Host,
    at: Seq<Seq<char>>,
    names: Seq<Seq<char>>,
    e: Entry<Seq<char>>,
    v: Visit<Seq<char>>,
)
    requires
        lists_names(host),
        stands_below(plan.root, plan.show_hidden, host, names, e),
        names.len() <= plan.max_depth,
        at.len() <= names.len(),
        at == names.take(at.len() as int),
        is_of(v, names, e),
        wanted(plan.want, v),
    ensures
        whole_dir(plan, host, path_to(plan.root, at), at.len() as usize).hits.contains(v),
    decreases names.len() - at.len(),
{
    let root = plan.root;
    let hid = plan.show_hidden;
    let dir = path_to(root, at);
    let depth = at.len() as usize;
    lemma_names_lead(root, hid, host, names);
    assert forall|k: int| 0 <= k < at.len() implies (#[trigger] at[k]).len() > 0
        && !at[k].contains('/') by {
        assert(at[k] == names[k]);
    }
    if at.len() == names.len() {
        assert(at =~= names);
        lemma_counts(plan, e);
        lemma_further_down(root, host, at, e);
        assert(visit_of(plan, dir, e) == v);
        let mine = whole_entry(plan, host, dir, depth, e);
        assert(mine.hits[0] == v);
        lemma_entry_among(plan, host, dir, depth, host(dir)->0, e, v);
    } else {
        let i = at.len() as int;
        assert(lists_folder(host, hid, path_to(root, names.take(i)), names[i]));
        let by = choose|f: Entry<Seq<char>>| #[trigger]
            lists(host, path_to(root, names.take(i)), f) && f.name == Some(names[i]) && is_folder(f)
                && counts(hid, f);
        lemma_counts(plan, by);
        lemma_further_down(root, host, at, by);
        let more = at.push(names[i]);
        assert(more =~= names.take(i + 1));
        lemma_whole_complete(plan, host, more, names, e, v);
        let inner = whole_dir(plan, host, below(dir, names[i]), (depth + 1) as usize);
        let k = choose|k: int| 0 <= k < inner.hits.len() && inner.hits[k] == v;
        let mine = whole_entry(plan, host, dir, depth, by);
        let n = mine.hits.len() - inner.hits.len();
        assert(mine.hits[n + k] == v);
        lemma_entry_among(plan, host, dir, depth, host(dir)->0, by, v);
    }
}

/// What stands below the root of a walk, counts, is not too deep and is wanted
/// is collected, unless a limit ends the walk.
pub proof fn nothing_that_stands_there_is_missed(
    plan: PlanView,
    host: Host,
    names: Seq<Seq<char>>,
    e: Entry<Seq<char>>,
    v: Visit<Seq<char>>,
)
    requires
        lists_names(host),
        stands_below(plan.root, plan.show_hidden, host, names, e),
        names.len() <= plan.max_depth,
        is_of(v, names, e),
        wanted(plan.want, v),
    ensures
        !over(survey(plan, steady(host)).tally) ==> survey(plan, steady(host)).tally.hits.contains(
            v,
        ),
{
    let none = Seq::<Seq<char>>::empty();
    assert(joined(none, seq!['/']).len() == 0);
    assert(names.take(0) =~= none);
    walk_is_complete(plan, host);
    lemma_whole_complete(plan, host, none, names, e, v);
}

/// A walk that no limit ends collects exactly what stands below its root, counts,
/// is not deeper than it may go and is wanted: each such entry of a directory
/// that the host lists, with its name, its path from the root, and whether it is
/// a directory. A walk that a limit ends collects nothing else.
pub proof fn walks_collect_what_stands_there(
    plan: PlanView,
    host: Host,
    v: Visit<Seq<char>>,
)
    requires
        lists_names(host),
    ensures
        ({
            let t = survey(plan, steady(host)).tally;
            let there = exists|names: Seq<Seq<char>>, e: Entry<Seq<char>>|
                #![trigger stands_below(plan.root, plan.show_hidden, host, names, e)]
                stands_below(plan.root, plan.show_hidden, host, names, e) && names.len()
                    <= plan.max_depth && is_of(v, names, e) && wanted(plan.want, v);
            &&& t.hits.contains(v) ==> there
            &&& !over(t) ==> (t.hits.contains(v) <==> there)
        }),
{
    let t = survey(plan, steady(host)).tally;
    let all = whole(plan, host);
    let root = plan.root;
    let none = Seq::<Seq<char>>::empty();
    walk_is_complete(plan, host);
    assert(path_to(root, none) == root) by {
        assert(joined(none, seq!['/']).len() == 0);
    }
    if all.hits.contains(v) {
        assert(host(root) is Some);
        let l = host(root)->0;
        assert forall|k: int| 0 <= k < l.len() implies lists(
            host,
            path_to(root, none),
            #[trigger] l[k],
        ) by {
            assert(l.contains(l[k]));
        }
        lemma_whole_sound(plan, host, none, l, v);
    }
    if t.hits.contains(v) {
        let i = choose|i: int| 0 <= i < t.hits.len() && t.hits[i] == v;
        assert(all.hits[i] == all.hits.take(t.hits.len() as int)[i]);
        assert(all.hits.contains(v));
    }
    if exists|names: Seq<Seq<char>>, e: Entry<Seq<char>>|
        #![trigger stands_below(plan.root, plan.show_hidden, host, names, e)]
        stands_below(plan.root, plan.show_hidden, host, names, e) && names.len() <= plan.max_depth
            && is_of(v, names, e) && wanted(plan.want, v) {
        let (names, e) = choose|names: Seq<Seq<char>>, e: Entry<Seq<char>>|
            #![trigger stands_below(plan.root, plan.show_hidden, host, names, e)]
            stands_below(plan.root, plan.show_hidden, host, names, e) && names.len()
                <= plan.max_depth && is_of(v, names, e) && wanted(plan.want, v);
        nothing_that_stands_there_is_missed(plan, host, names, e, v);
    }
}

/// A tree is walked in the order in which it is listed: the entries of a
/// directory one by one, and right after a directory what stands in it. Each
/// entry is looked at once, whether or not it counts, and is collected once at
/// most.
pub proof fn trees_are_walked_in_order(
    plan: PlanView,
    host: Host,
    dir: Seq<char>,
    depth: usize,
    a: Seq<Entry<Seq<char>>>,
    e: Entry<Seq<char>>,
)
    ensures
        whole_entries(plan, host, dir, depth, Seq::empty()).hits.len() == 0,
        whole_entries(plan, host, dir, depth, Seq::empty()).entries == 0,
        ({
            let before = whole_entries(plan, host, dir, depth, a);
            let all = whole_entries(plan, host, dir, depth, a.push(e));
            let full = below(dir, e.name->0);
            let v = Visit {
                rel: relative(plan.root, full),
                name: e.name->0,
                is_dir: is_folder(e),
            };
            let listed = counts(plan.show_hidden, e) && v.rel.len() > 0;
            let own = if listed && wanted(plan.want, v) {
                seq![v]
            } else {
                Seq::empty()
            };
            let entered = listed && is_folder(e) && depth < plan.max_depth;
            let sub = whole_dir(plan, host, full, (depth + 1) as usize);
            &&& !entered ==> all.hits == before.hits + own && all.entries == before.entries + 1
            &&& entered ==> all.hits == before.hits + own + sub.hits && all.entries
                == before.entries + 1 + sub.entries
        }),
    decreases a.len(),
{
    reveal_with_fuel(whole_entries, 2);
    reveal_with_fuel(whole_entry, 1);
    lemma_counts(plan, e);
    let all = a.push(e);
    if a.len() == 0 {
        assert(all.drop_first() =~= Seq::<Entry<Seq<char>>>::empty());
        assert(all[0] == e);
        let w = whole_entry(plan, host, dir, depth, e);
        assert(w.hits + Seq::empty() =~= w.hits);
        assert(Seq::<Visit<Seq<char>>>::empty() + w.hits =~= w.hits);
        let v = visit_of(plan, dir, e);
        let own = if wanted(plan.want, v) {
            seq![v]
        } else {
            Seq::empty()
        };
        assert(Seq::<Visit<Seq<char>>>::empty() + own =~= own);
    } else {
        trees_are_walked_in_order(plan, host, dir, depth, a.drop_first(), e);
        assert(all.drop_first() =~= a.drop_first().push(e));
        assert(all[0] == a[0]);
        let first = whole_entry(plan, host, dir, depth, a[0]);
        let before = whole_entries(plan, host, dir, depth, a);
        let later = whole_entries(plan, host, dir, depth, a.drop_first());
        let v = visit_of(plan, dir, e);
        let own = if counts(plan.show_hidden, e) && v.rel.len() > 0 && wanted(plan.want, v) {
            seq![v]
        } else {
            Seq::empty()
        };
        let sub = whole_dir(plan, host, below(dir, e.name->0), (depth + 1) as usize);
        assert(first.hits + (later.hits + own) =~= before.hits + own);
        assert(first.hits + (later.hits + own + sub.hits) =~= before.hits + own + sub.hits);
    }
}

/// What stands below a root has the path of its directory and its own name,
/// which is also its path from the root, below the root.
pub proof fn path_of_stands_below_the_root(
    host: Host,
    root: Seq<char>,
    show_hidden: bool,
    names: Seq<Seq<char>>,
    e: Entry<Seq<char>>,
)
    requires
        lists_names(host),
        stands_below(root, show_hidden, host, names, e),
    ensures
        below(path_to(root, names), e.name->0) == below(root, path_of(names, e)),
{
    lemma_names_lead(root, show_hidden, host, names);
    let name = e.name->0;
    assert(host(path_to(root, names))->0.contains(e));
    let more = names.push(name);
    assert forall|k: int| 0 <= k < more.len() implies (#[trigger] more[k]).len() > 0
        && !more[k].contains('/') by {
        if k < names.len() {
            assert(more[k] == names[k]);
        }
    }
    lemma_path_to(root, names, name);
}

} // verus!
