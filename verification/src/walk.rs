//! A depth-first walk over a remote directory tree that collects what is wanted.
//!
//! The walk passes over names that are hidden (where those are not asked for)
//! and over directories that hold what tools generate; it looks at a bounded
//! number of entries and stops when it has found as much as it may.
use globset::GlobSet;
use vstd::prelude::*;
use vstd::string::*;

use crate::folders::{is_tree, leads_below};
use crate::paths::{below, join_remote, rel_remote, relative};
use crate::pattern::{is_match, paths_in};
use crate::remote::{
    unexpected, unexpected_reply, Entry, Reply, ReplyView, Request, Step, StepView,
};
use crate::text::{contains, lowercase, occurs, same, starts_with_char, to_lowercase};

verus! {

/// How many entries a walk looks at.
pub const MAX_SCANNED: usize = 50_000;

/// What a walk collects.
pub enum Want<S = String, G = GlobSet> {
    /// All that is not a directory.
    Files,
    /// All whose path in lower case holds the query.
    Matching { query: S },
    /// All that is not a directory and whose path matches the patterns.
    Glob { set: G },
}

/// What a walk collects, as contracts speak of it: patterns are the paths that
/// they match.
pub type WantView = Want<Seq<char>, Set<Seq<char>>>;

impl View for Want {
    type V = WantView;

    open spec fn view(&self) -> WantView {
        match self {
            Want::Files => Want::Files,
            Want::Matching { query } => Want::Matching { query: query@ },
            Want::Glob { set } => Want::Glob { set: paths_in(*set) },
        }
    }
}

/// Something that a walk came by: its path from the root of the walk, its
/// name, and whether it is a directory.
#[derive(Clone, Debug, PartialEq, Eq)]
pub struct Visit<S = String> {
    pub rel: S,
    pub name: S,
    pub is_dir: bool,
}

impl DeepView for Visit {
    type V = Visit<Seq<char>>;

    open spec fn deep_view(&self) -> Visit<Seq<char>> {
        Visit { rel: self.rel@, name: self.name@, is_dir: self.is_dir }
    }
}

/// What a walk is for.
pub struct Plan<S = String, W = Want> {
    pub root: S,
    pub max_depth: usize,
    pub show_hidden: bool,
    /// How much is collected before the walk stops; one thing always may be.
    pub limit: usize,
    pub want: W,
}

/// What a walk is for, as contracts speak of it.
pub type PlanView = Plan<Seq<char>, WantView>;

impl View for Plan {
    type V = PlanView;

    open spec fn view(&self) -> PlanView {
        Plan {
            root: self.root@,
            max_depth: self.max_depth,
            show_hidden: self.show_hidden,
            limit: self.limit,
            want: self.want@,
        }
    }
}

/// A directory that a walk is in and the entries that it has not looked at.
pub struct Frame<S = String, L = Vec<Entry>> {
    pub dir: S,
    pub depth: usize,
    /// In running code the last of these is the next.
    pub entries: L,
}

/// A directory that a walk is in, as contracts speak of it: the entries stand
/// in the order in which they are looked at.
pub type FrameView = Frame<Seq<char>, Seq<Entry<Seq<char>>>>;

impl DeepView for Frame {
    type V = FrameView;

    open spec fn deep_view(&self) -> FrameView {
        Frame {
            dir: self.dir@,
            depth: self.depth,
            entries: self.entries.deep_view().reverse(),
        }
    }
}

/// What a walk has done so far.
pub struct Tally<L = Vec<Visit>> {
    /// How many entries it looked at.
    pub scanned: usize,
    /// What it collected.
    pub hits: L,
    /// Whether it collected all that it may.
    pub full: bool,
    /// Whether it came by more entries than it looks at.
    pub spent: bool,
}

/// What a walk has done so far, as contracts speak of it.
pub type TallyView = Tally<Seq<Visit<Seq<char>>>>;

impl DeepView for Tally {
    type V = TallyView;

    open spec fn deep_view(&self) -> TallyView {
        Tally {
            scanned: self.scanned,
            hits: self.hits.deep_view(),
            full: self.full,
            spent: self.spent,
        }
    }
}

/// A walk that waits for the entries of a directory.
pub struct Walk {
    plan: Plan,
    tally: Tally,
    dir: String,
    depth: usize,
    frames: Vec<Frame>,
}

/// A walk, as contracts speak of it: the innermost directory comes first.
pub struct WalkView {
    pub plan: PlanView,
    pub tally: TallyView,
    pub dir: Seq<char>,
    pub depth: usize,
    pub frames: Seq<FrameView>,
}

impl View for Walk {
    type V = WalkView;

    closed spec fn view(&self) -> WalkView {
        WalkView {
            plan: self.plan@,
            tally: self.tally.deep_view(),
            dir: self.dir@,
            depth: self.depth,
            frames: self.frames.deep_view().reverse(),
        }
    }
}

/// Whether a directory of this name holds what tools generate.
pub open spec fn pruned(name: Seq<char>) -> bool {
    ||| name == "node_modules"@
    ||| name == ".git"@
    ||| name == "target"@
    ||| name == "dist"@
    ||| name == "build"@
    ||| name == ".next"@
    ||| name == ".turbo"@
    ||| name == ".cache"@
    ||| name == ".venv"@
    ||| name == "__pycache__"@
}

/// Whether a name is hidden.
pub open spec fn hidden(name: Seq<char>) -> bool {
    name.len() > 0 && name[0] == '.'
}

/// Whether a walk takes notice of an entry.
pub open spec fn noticed(plan: PlanView, e: Entry<Seq<char>>) -> bool {
    match e.name {
        Some(name) => {
            &&& leads_below(name)
            &&& plan.show_hidden || !hidden(name)
            &&& !(is_tree(e.attrs) && pruned(name))
        },
        None => false,
    }
}

/// What a walk comes by at an entry of a directory.
pub open spec fn visit_of(
    plan: PlanView,
    dir: Seq<char>,
    e: Entry<Seq<char>>,
) -> Visit<Seq<char>> {
    Visit {
        rel: relative(plan.root, below(dir, e.name->0)),
        name: e.name->0,
        is_dir: is_tree(e.attrs),
    }
}

/// Whether a walk collects what it came by.
pub open spec fn wanted(want: WantView, v: Visit<Seq<char>>) -> bool {
    match want {
        Want::Files => !v.is_dir,
        Want::Matching { query } => occurs(query, lowercase(v.rel)),
        Want::Glob { set } => !v.is_dir && set.contains(v.rel),
    }
}

/// Whether a walk is over whatever is left to look at.
pub open spec fn over(t: TallyView) -> bool {
    t.full || t.spent
}

/// The tally after something that a walk came by.
pub open spec fn tallied(plan: PlanView, t: TallyView, v: Visit<Seq<char>>) -> TallyView {
    if wanted(plan.want, v) {
        Tally { hits: t.hits.push(v), full: t.hits.len() + 1 >= plan.limit, ..t }
    } else {
        t
    }
}

/// A look at one entry: the tally after it, and whether the walk goes into it
/// as a directory.
pub open spec fn look(
    plan: PlanView,
    dir: Seq<char>,
    depth: usize,
    e: Entry<Seq<char>>,
    t: TallyView,
) -> (TallyView, bool) {
    if t.scanned >= MAX_SCANNED {
        (Tally { spent: true, ..t }, false)
    } else {
        let counted = Tally { scanned: (t.scanned + 1) as usize, ..t };
        let v = visit_of(plan, dir, e);
        if !noticed(plan, e) || v.rel.len() == 0 {
            (counted, false)
        } else {
            let t2 = tallied(plan, counted, v);
            (t2, !over(t2) && v.is_dir && depth < plan.max_depth)
        }
    }
}

/// How many entries and directories a walk has before it without asking.
pub open spec fn weight(frames: Seq<FrameView>) -> nat
    decreases frames.len(),
{
    if frames.len() == 0 {
        0
    } else {
        frames[0].entries.len() + 1 + weight(frames.drop_first())
    }
}

/// A walk looks at the entries before it until it needs those of another
/// directory, or is over.
pub open spec fn settle(
    plan: PlanView,
    frames: Seq<FrameView>,
    t: TallyView,
) -> StepView<WalkView, TallyView>
    decreases weight(frames),
    via settle_shrinks
{
    if over(t) || frames.len() == 0 {
        Step::Finish(Ok(t))
    } else {
        let f = frames[0];
        if f.entries.len() == 0 {
            settle(plan, frames.drop_first(), t)
        } else {
            let e = f.entries[0];
            let (t2, enters) = look(plan, f.dir, f.depth, e, t);
            let left = seq![Frame { entries: f.entries.drop_first(), ..f }] + frames.drop_first();
            if enters {
                let dir = below(f.dir, e.name->0);
                Step::Ask {
                    request: Request::List(dir),
                    state: WalkView {
                        plan,
                        tally: t2,
                        dir,
                        depth: (f.depth + 1) as usize,
                        frames: left,
                    },
                }
            } else {
                settle(plan, left, t2)
            }
        }
    }
}

#[via_fn]
proof fn settle_shrinks(plan: PlanView, frames: Seq<FrameView>, t: TallyView) {
    if frames.len() > 0 && frames[0].entries.len() > 0 {
        let f = frames[0];
        let left = seq![Frame { entries: f.entries.drop_first(), ..f }] + frames.drop_first();
        assert(left.drop_first() =~= frames.drop_first());
    }
}

/// A walk before its first reply.
pub open spec fn walk_start(plan: PlanView) -> StepView<WalkView, TallyView> {
    Step::Ask {
        request: Request::List(plan.root),
        state: WalkView {
            plan,
            tally: Tally { scanned: 0, hits: Seq::empty(), full: false, spent: false },
            dir: plan.root,
            depth: 0,
            frames: Seq::empty(),
        },
    }
}

/// How a walk goes on: a directory that cannot be listed is passed over.
pub open spec fn walk_next(w: WalkView, reply: ReplyView) -> StepView<WalkView, TallyView> {
    match reply {
        Reply::Entries(l) => settle(
            w.plan,
            seq![Frame { dir: w.dir, depth: w.depth, entries: l }] + w.frames,
            w.tally,
        ),
        Reply::Failed(_) | Reply::Broken(_) => settle(w.plan, w.frames, w.tally),
        _ => Step::Finish(Err(unexpected())),
    }
}

fn is_pruned(name: &str) -> (r: bool)
    ensures
        r == pruned(name@),
{
    same(name, "node_modules") || same(name, ".git") || same(name, "target") || same(name, "dist")
        || same(name, "build") || same(name, ".next") || same(name, ".turbo") || same(
        name,
        ".cache",
    ) || same(name, ".venv") || same(name, "__pycache__")
}

fn is_wanted(want: &Want, v: &Visit) -> (r: bool)
    ensures
        r == wanted(want@, v.deep_view()),
{
    match want {
        Want::Files => !v.is_dir,
        Want::Matching { query } => {
            let lower = to_lowercase(v.rel.as_str());
            contains(lower.as_str(), query.as_str())
        },
        Want::Glob { set } => !v.is_dir && is_match(set, v.rel.as_str()),
    }
}

fn look_at(plan: &Plan, dir: &str, depth: usize, e: &Entry, t: Tally) -> (r: (
    Tally,
    Option<String>,
))
    ensures
        r.0.deep_view() == look(plan@, dir@, depth, e@, t.deep_view()).0,
        r.1 is Some <==> look(plan@, dir@, depth, e@, t.deep_view()).1,
        r.1 is Some ==> e@.name is Some && r.1->0@ == below(dir@, e@.name->0),
{
    let mut t = t;
    if t.scanned >= MAX_SCANNED {
        t.spent = true;
        return (t, None);
    }
    t.scanned = t.scanned + 1;
    let name = match &e.name {
        Some(n) => n,
        None => {
            return (t, None);
        },
    };
    if same(name.as_str(), ".") || same(name.as_str(), "..") {
        return (t, None);
    }
    if !plan.show_hidden && starts_with_char(name.as_str(), '.') {
        return (t, None);
    }
    let is_dir = e.attrs.is_dir && !e.attrs.is_symlink;
    if is_dir && is_pruned(name.as_str()) {
        return (t, None);
    }
    let full = join_remote(dir, name.as_str());
    let rel = rel_remote(plan.root.as_str(), full.as_str());
    if rel.as_str().is_empty() {
        return (t, None);
    }
    let v = Visit { rel, name: name.clone(), is_dir };
    if is_wanted(&plan.want, &v) {
        let ghost before = t.hits.deep_view();
        let ghost shown = v.deep_view();
        t.hits.push(v);
        assert(t.hits.deep_view() =~= before.push(shown));
        t.full = t.hits.len() >= plan.limit;
    }
    if !t.full && !t.spent && is_dir && depth < plan.max_depth {
        (t, Some(full))
    } else {
        (t, None)
    }
}

fn settle_down(plan: Plan, stack: Vec<Frame>, so_far: Tally) -> (r: Step<Walk, Tally>)
    ensures
        r@ == settle(plan@, stack.deep_view().reverse(), so_far.deep_view()),
{
    let mut frames = stack;
    let mut tally = so_far;
    loop
        invariant
            settle(plan@, frames.deep_view().reverse(), tally.deep_view()) == settle(
                plan@,
                stack.deep_view().reverse(),
                so_far.deep_view(),
            ),
        decreases weight(frames.deep_view().reverse()),
    {
        let ghost pile = frames.deep_view().reverse();
        if tally.full || tally.spent {
            return Step::Finish(Ok(tally));
        }
        match frames.pop() {
            None => {
                return Step::Finish(Ok(tally));
            },
            Some(frame) => {
                let mut f = frame;
                let ghost shown = f.deep_view();
                assert(pile[0] == shown);
                assert(frames.deep_view().reverse() =~= pile.drop_first());
                match f.entries.pop() {
                    None => {
                        assert(shown.entries.len() == 0);
                    },
                    Some(e) => {
                        assert(shown.entries[0] == e@);
                        assert(f.entries.deep_view().reverse() =~= shown.entries.drop_first());
                        let ghost left = seq![
                            Frame { entries: shown.entries.drop_first(), ..shown },
                        ] + pile.drop_first();
                        let (t2, enters) = look_at(&plan, f.dir.as_str(), f.depth, &e, tally);
                        let depth = f.depth;
                        frames.push(f);
                        assert(frames.deep_view().reverse() =~= left);
                        assert(left.drop_first() =~= pile.drop_first());
                        tally = t2;
                        match enters {
                            Some(dir) => {
                                return Step::Ask {
                                    request: Request::List(dir.clone()),
                                    state: Walk { plan, tally, dir, depth: depth + 1, frames },
                                };
                            },
                            None => {},
                        }
                    },
                }
            },
        }
    }
}

impl Walk {
    /// Starts a walk.
    pub fn start(plan: Plan) -> (r: Step<Walk, Tally>)
        ensures
            r@ == walk_start(plan@),
    {
        let dir = plan.root.clone();
        let tally = Tally { scanned: 0, hits: Vec::new(), full: false, spent: false };
        assert(tally.hits.deep_view() =~= Seq::<Visit<Seq<char>>>::empty());
        let frames: Vec<Frame> = Vec::new();
        assert(frames.deep_view().reverse() =~= Seq::<FrameView>::empty());
        Step::Ask {
            request: Request::List(dir.clone()),
            state: Walk { plan, tally, dir, depth: 0, frames },
        }
    }

    /// Goes on walking.
    pub fn resume(self, reply: Reply) -> (r: Step<Walk, Tally>)
        ensures
            r@ == walk_next(self@, reply@),
    {
        match reply {
            Reply::Entries(l) => {
                let mut entries: Vec<Entry> = Vec::new();
                let mut l = l;
                let ghost all = l.deep_view();
                assert(entries.deep_view() + l.deep_view().reverse() =~= all.reverse());
                while l.len() > 0
                    invariant
                        entries.deep_view() + l.deep_view().reverse() == all.reverse(),
                    decreases l@.len(),
                {
                    let ghost before = entries.deep_view();
                    let ghost left = l.deep_view().reverse();
                    match l.pop() {
                        Some(e) => {
                            assert(left[0] == e@);
                            entries.push(e);
                            assert(entries.deep_view() =~= before.push(e@));
                            assert(l.deep_view().reverse() =~= left.drop_first());
                            assert(entries.deep_view() + l.deep_view().reverse() =~= before + left);
                        },
                        None => {},
                    }
                }
                assert(entries.deep_view() =~= all.reverse());
                assert(entries.deep_view().reverse() =~= all);
                let frame = Frame { dir: self.dir, depth: self.depth, entries };
                let mut frames = self.frames;
                let ghost below_it = frames.deep_view().reverse();
                let ghost shown = frame.deep_view();
                frames.push(frame);
                assert(frames.deep_view().reverse() =~= seq![shown] + below_it);
                settle_down(self.plan, frames, self.tally)
            },
            Reply::Failed(_) | Reply::Broken(_) => settle_down(self.plan, self.frames, self.tally),
            _ => Step::Finish(Err(unexpected_reply())),
        }
    }
}

/// A directory that cannot be listed is passed over, for whatever reason.
pub proof fn refused_directories_are_passed_over(w: WalkView, a: Seq<char>, b: Seq<char>)
    ensures
        walk_next(w, ReplyView::Failed(a)) == walk_next(w, ReplyView::Broken(b)),
        walk_next(w, ReplyView::Failed(a)) == walk_next(w, ReplyView::Entries(Seq::empty())),
{
    let empty: FrameView = Frame { dir: w.dir, depth: w.depth, entries: Seq::empty() };
    let frames = seq![empty] + w.frames;
    assert(frames.drop_first() =~= w.frames);
    assert(frames[0] == empty);
    if over(w.tally) {
        assert(settle(w.plan, frames, w.tally) == settle(w.plan, w.frames, w.tally));
    }
}

} // verus!
