//! What removing a directory tree does from its first request to its last.
use vstd::prelude::*;

use crate::folders::{
    chore_of, chores, delete_in, delete_next, delete_start, do_chores, is_tree, leads_below, removal_next,
    request_for, Chore, DeleteView, RemovalView,
};
use crate::paths::{at_or_below, below, lemma_below_stays, lemma_below_transitive};
use crate::remote::{
    after, asked, lemma_first_reply, Attrs, Entry, ReplyView, Request, Step, StepView,
};

verus! {

/// A directory as a server holds it: its entries, and below each that is a
/// directory what that one holds.
pub struct Tree {
    pub branches: Seq<Branch>,
}

/// An entry of a directory and what is below it.
pub struct Branch {
    pub entry: Entry<Seq<char>>,
    pub sub: Tree,
}

/// What the server lists of a directory.
pub open spec fn listing(branches: Seq<Branch>) -> Seq<Entry<Seq<char>>> {
    Seq::new(branches.len(), |i: int| branches[i].entry)
}

/// Whether an entry is removed by removing the tree below it.
pub open spec fn is_subtree(e: Entry<Seq<char>>) -> bool {
    e.name is Some && leads_below(e.name->0) && is_tree(e.attrs)
}

/// Whether an entry is removed by itself.
pub open spec fn is_leaf(e: Entry<Seq<char>>) -> bool {
    e.name is Some && leads_below(e.name->0) && !is_tree(e.attrs)
}

/// The requests that remove a directory: it is listed, then all that it holds
/// is removed, entry by entry, then the directory itself.
pub open spec fn tree_requests(dir: Seq<char>, t: Tree) -> Seq<Request<Seq<char>>>
    decreases t,
{
    seq![Request::List(dir)] + branch_requests(dir, t.branches) + seq![Request::Rmdir(dir)]
}

/// The requests that remove the entries of a directory.
pub open spec fn branch_requests(dir: Seq<char>, branches: Seq<Branch>) -> Seq<Request<Seq<char>>>
    decreases branches,
{
    if branches.len() == 0 {
        Seq::empty()
    } else {
        let b = branches[0];
        let first = if is_subtree(b.entry) {
            tree_requests(below(dir, b.entry.name->0), b.sub)
        } else if is_leaf(b.entry) {
            seq![Request::Unlink(below(dir, b.entry.name->0))]
        } else {
            Seq::empty()
        };
        first + branch_requests(dir, branches.drop_first())
    }
}

/// What a server that holds the tree and refuses nothing replies to them.
pub open spec fn tree_replies(t: Tree) -> Seq<ReplyView>
    decreases t,
{
    seq![ReplyView::Entries(listing(t.branches))] + branch_replies(t.branches) + seq![
        ReplyView::Done,
    ]
}

/// What such a server replies while the entries of a directory are removed.
pub open spec fn branch_replies(branches: Seq<Branch>) -> Seq<ReplyView>
    decreases branches,
{
    if branches.len() == 0 {
        Seq::empty()
    } else {
        let b = branches[0];
        let first = if is_subtree(b.entry) {
            tree_replies(b.sub)
        } else if is_leaf(b.entry) {
            seq![ReplyView::Done]
        } else {
            Seq::empty()
        };
        first + branch_replies(branches.drop_first())
    }
}

proof fn lemma_clear(
    dir: Seq<char>,
    t: Tree,
    todo: Seq<Chore<Seq<char>>>,
    more: Seq<ReplyView>,
)
    ensures
        asked(
            |s: RemovalView, r: ReplyView| removal_next(s, r),
            do_chores(seq![Chore::Clear(dir)] + todo),
            tree_replies(t) + more,
        ) == tree_requests(dir, t) + asked(
            |s: RemovalView, r: ReplyView| removal_next(s, r),
            do_chores(todo),
            more,
        ),
        after(
            |s: RemovalView, r: ReplyView| removal_next(s, r),
            do_chores(seq![Chore::Clear(dir)] + todo),
            tree_replies(t) + more,
        ) == after(|s: RemovalView, r: ReplyView| removal_next(s, r), do_chores(todo), more),
    decreases t, 0nat,
{
    let next = |s: RemovalView, r: ReplyView| removal_next(s, r);
    let rmdir: Chore<Seq<char>> = Chore::Rmdir(dir);
    let start = seq![Chore::Clear(dir)] + todo;
    let replies = tree_replies(t) + more;
    let done_more = seq![ReplyView::Done] + more;
    let todo2 = seq![rmdir] + todo;
    let l = listing(t.branches);
    assert(start.drop_first() =~= todo);
    assert(replies[0] == ReplyView::Entries(l));
    assert(replies.drop_first() =~= branch_replies(t.branches) + done_more);
    assert(chores(dir, l) + seq![rmdir] + todo =~= chores(dir, l) + todo2);
    lemma_branches(dir, t.branches, todo2, done_more);
    assert(todo2.drop_first() =~= todo);
    assert(done_more.drop_first() =~= more);
    assert(next(RemovalView { current: rmdir, todo }, ReplyView::Done) == do_chores(todo));
    let end = asked(next, do_chores(todo), more);
    let list: Request<Seq<char>> = Request::List(dir);
    let gone: Request<Seq<char>> = Request::Rmdir(dir);
    assert(asked(next, do_chores(todo2), done_more) == seq![gone] + end);
    assert(seq![list] + (branch_requests(dir, t.branches) + (seq![gone] + end))
        =~= tree_requests(dir, t) + end);
}

proof fn lemma_branches(
    dir: Seq<char>,
    branches: Seq<Branch>,
    todo: Seq<Chore<Seq<char>>>,
    more: Seq<ReplyView>,
)
    ensures
        asked(
            |s: RemovalView, r: ReplyView| removal_next(s, r),
            do_chores(chores(dir, listing(branches)) + todo),
            branch_replies(branches) + more,
        ) == branch_requests(dir, branches) + asked(
            |s: RemovalView, r: ReplyView| removal_next(s, r),
            do_chores(todo),
            more,
        ),
        after(
            |s: RemovalView, r: ReplyView| removal_next(s, r),
            do_chores(chores(dir, listing(branches)) + todo),
            branch_replies(branches) + more,
        ) == after(|s: RemovalView, r: ReplyView| removal_next(s, r), do_chores(todo), more),
    decreases branches, 1nat,
{
    let next = |s: RemovalView, r: ReplyView| removal_next(s, r);
    let l = listing(branches);
    let end = asked(next, do_chores(todo), more);
    if branches.len() == 0 {
        assert(chores(dir, l) + todo =~= todo);
        assert(branch_replies(branches) + more =~= more);
        assert(branch_requests(dir, branches) + end =~= end);
    } else {
        let b = branches[0];
        let rest = branches.drop_first();
        assert(l.drop_first() =~= listing(rest));
        let todo2 = chores(dir, listing(rest)) + todo;
        let more2 = branch_replies(rest) + more;
        lemma_branches(dir, rest, todo, more);
        assert(chores(dir, l) + todo =~= chore_of(dir, b.entry) + todo2);
        if is_subtree(b.entry) {
            let full = below(dir, b.entry.name->0);
            lemma_clear(full, b.sub, todo2, more2);
            assert(branch_replies(branches) + more =~= tree_replies(b.sub) + more2);
            assert(tree_requests(full, b.sub) + (branch_requests(dir, rest) + end)
                =~= branch_requests(dir, branches) + end);
        } else if is_leaf(b.entry) {
            let chore: Chore<Seq<char>> = Chore::Unlink(below(dir, b.entry.name->0));
            let start = seq![chore] + todo2;
            let replies = seq![ReplyView::Done] + more2;
            assert(branch_replies(branches) + more =~= replies);
            assert(start.drop_first() =~= todo2);
            assert(replies.drop_first() =~= more2);
            assert(next(RemovalView { current: chore, todo: todo2 }, ReplyView::Done) == do_chores(
                todo2,
            ));
            let gone: Request<Seq<char>> = Request::Unlink(below(dir, b.entry.name->0));
            assert(seq![gone] + (branch_requests(dir, rest) + end) =~= branch_requests(
                dir,
                branches,
            ) + end);
        } else {
            assert(chore_of(dir, b.entry) + todo2 =~= todo2);
            assert(branch_replies(branches) + more =~= more2);
            assert(branch_requests(dir, branches) + end =~= branch_requests(dir, rest) + end);
        }
    }
}

/// Removing a directory that the server holds succeeds and makes exactly the
/// requests that remove it from the inside out: nothing is removed twice, and
/// each directory is removed after all that it held.
pub proof fn removal_goes_inside_out(dir: Seq<char>, t: Tree)
    ensures
        asked(
            |s: RemovalView, r: ReplyView| removal_next(s, r),
            do_chores(seq![Chore::Clear(dir)]),
            tree_replies(t),
        ) == tree_requests(dir, t),
        after(
            |s: RemovalView, r: ReplyView| removal_next(s, r),
            do_chores(seq![Chore::Clear(dir)]),
            tree_replies(t),
        ) == StepView::<RemovalView, ()>::Finish(Ok(())),
{
    lemma_clear(dir, t, Seq::empty(), Seq::empty());
    assert(seq![Chore::Clear(dir)] + Seq::empty() =~= seq![Chore::Clear(dir)]);
    assert(tree_replies(t) + Seq::empty() =~= tree_replies(t));
    let next = |s: RemovalView, r: ReplyView| removal_next(s, r);
    assert(tree_requests(dir, t) + asked(next, do_chores(Seq::empty()), Seq::empty())
        =~= tree_requests(dir, t));
}

/// The path that a request to remove something is about.
pub open spec fn target(r: Request<Seq<char>>) -> Seq<char> {
    match r {
        Request::List(p) => p,
        Request::Unlink(p) => p,
        Request::Rmdir(p) => p,
        _ => Seq::empty(),
    }
}

/// Where the chores that are left stay at or below `root`, so do all
/// requests that are still made, whatever the server replies.
proof fn lemma_chores_stay(
    root: Seq<char>,
    todo: Seq<Chore<Seq<char>>>,
    replies: Seq<ReplyView>,
    i: int,
)
    requires
        forall|k: int| 0 <= k < todo.len() ==> at_or_below(target(request_for(#[trigger] todo[k])), root),
        0 <= i < asked(
            |s: RemovalView, r: ReplyView| removal_next(s, r),
            do_chores(todo),
            replies,
        ).len(),
    ensures
        at_or_below(
            target(
                asked(
                    |s: RemovalView, r: ReplyView| removal_next(s, r),
                    do_chores(todo),
                    replies,
                )[i],
            ),
            root,
        ),
    decreases replies.len(),
{
    let next = |s: RemovalView, r: ReplyView| removal_next(s, r);
    let all = asked(next, do_chores(todo), replies);
    reveal_with_fuel(asked, 2);
    assert(at_or_below(target(request_for(todo[0])), root));
    if i > 0 {
        let state = RemovalView { current: todo[0], todo: todo.drop_first() };
        let r1 = replies.drop_first();
        let step = next(state, replies[0]);
        let todo2 = match (todo[0], replies[0]) {
            (Chore::Clear(dir), ReplyView::Entries(l)) => chores(dir, l) + seq![Chore::Rmdir(dir)]
                + todo.drop_first(),
            _ => todo.drop_first(),
        };
        assert(step == do_chores(todo2) || step is Finish);
        assert(all == seq![request_for(todo[0])] + asked(next, step, r1));
        assert(all =~= seq![all[0]] + asked(next, do_chores(todo2), r1));
        assert forall|k: int| 0 <= k < todo2.len() implies at_or_below(
            target(request_for(#[trigger] todo2[k])),
            root,
        ) by {
            match (todo[0], replies[0]) {
                (Chore::Clear(dir), ReplyView::Entries(l)) => {
                    let n = chores(dir, l).len();
                    if k < n {
                        lemma_chores_below(dir, l, k);
                        lemma_below_transitive(target(request_for(todo2[k])), dir, root);
                    } else if k > n {
                        assert(todo2[k] == todo[k - n]);
                    }
                },
                _ => {
                    assert(todo2[k] == todo[k + 1]);
                },
            }
        }
        lemma_chores_stay(root, todo2, r1, i - 1);
    }
}

proof fn lemma_chores_below(dir: Seq<char>, l: Seq<Entry<Seq<char>>>, k: int)
    requires
        0 <= k < chores(dir, l).len(),
    ensures
        at_or_below(target(request_for(chores(dir, l)[k])), dir),
    decreases l.len(),
{
    let first = chore_of(dir, l[0]);
    if k < first.len() {
        lemma_below_stays(dir, l[0].name->0);
    } else {
        lemma_chores_below(dir, l.drop_first(), k - first.len());
    }
}

/// Removing a directory concerns no path but that of the directory and those
/// below it, whatever the server lists or replies: a neighbour whose name
/// begins alike is left alone.
pub proof fn removal_stays_below(dir: Seq<char>, replies: Seq<ReplyView>, i: int)
    requires
        0 <= i < asked(
            |s: RemovalView, r: ReplyView| removal_next(s, r),
            do_chores(seq![Chore::Clear(dir)]),
            replies,
        ).len(),
    ensures
        at_or_below(
            target(
                asked(
                    |s: RemovalView, r: ReplyView| removal_next(s, r),
                    do_chores(seq![Chore::Clear(dir)]),
                    replies,
                )[i],
            ),
            dir,
        ),
{
    lemma_chores_stay(dir, seq![Chore::Clear(dir)], replies, i);
}

/// A symbolic link is removed itself and never listed.
pub proof fn links_are_not_followed(dir: Seq<char>, e: Entry<Seq<char>>, i: int)
    requires
        e.attrs.is_symlink,
        0 <= i < chore_of(dir, e).len(),
    ensures
        chore_of(dir, e)[i] is Unlink,
{
}

/// What entries give to do, as requests.
pub open spec fn first_requests(dir: Seq<char>, l: Seq<Entry<Seq<char>>>) -> Seq<Request<Seq<char>>> {
    Seq::new(chores(dir, l).len(), |i: int| request_for(chores(dir, l)[i]))
}

proof fn lemma_chores_concat(dir: Seq<char>, a: Seq<Entry<Seq<char>>>, b: Seq<Entry<Seq<char>>>)
    ensures
        chores(dir, a + b) == chores(dir, a) + chores(dir, b),
    decreases a.len(),
{
    if a.len() == 0 {
        assert(a + b =~= b);
        assert(chores(dir, a) + chores(dir, b) =~= chores(dir, b));
    } else {
        lemma_chores_concat(dir, a.drop_first(), b);
        assert((a + b).drop_first() =~= a.drop_first() + b);
        assert((a + b)[0] == a[0]);
        assert(chore_of(dir, a[0]) + (chores(dir, a.drop_first()) + chores(dir, b)) =~= chores(
            dir,
            a,
        ) + chores(dir, b));
    }
}

/// Every entry of a directory that has a name goes with it, in the order in
/// which they are listed, but for the directory itself and the one above: a
/// directory is listed in turn, and all else, links to directories too, is
/// removed as it is.
pub proof fn every_entry_goes(
    dir: Seq<char>,
    a: Seq<Entry<Seq<char>>>,
    e: Entry<Seq<char>>,
    b: Seq<Entry<Seq<char>>>,
)
    ensures
        first_requests(dir, Seq::empty()) == Seq::<Request<Seq<char>>>::empty(),
        first_requests(dir, a + seq![e] + b) == first_requests(dir, a) + (match e.name {
            None => Seq::empty(),
            Some(name) => if name == "."@ || name == ".."@ {
                Seq::empty()
            } else if e.attrs.is_dir && !e.attrs.is_symlink {
                seq![Request::List(below(dir, name))]
            } else {
                seq![Request::Unlink(below(dir, name))]
            },
        }) + first_requests(dir, b),
{
    reveal_with_fuel(chores, 2);
    lemma_chores_concat(dir, a + seq![e], b);
    lemma_chores_concat(dir, a, seq![e]);
    assert(seq![e].drop_first() =~= Seq::<Entry<Seq<char>>>::empty());
    assert(chores(dir, seq![e]) =~= chore_of(dir, e));
    assert(first_requests(dir, Seq::empty()) =~= Seq::<Request<Seq<char>>>::empty());
    assert(first_requests(dir, a + seq![e] + b) =~= first_requests(dir, a) + (match e.name {
        None => Seq::empty(),
        Some(name) => if name == "."@ || name == ".."@ {
            Seq::empty()
        } else if e.attrs.is_dir && !e.attrs.is_symlink {
            seq![Request::List(below(dir, name))]
        } else {
            seq![Request::Unlink(below(dir, name))]
        },
    }) + first_requests(dir, b));
}

proof fn lemma_deleting(step: StepView<RemovalView, ()>, replies: Seq<ReplyView>)
    ensures
        asked(|s: DeleteView, r: ReplyView| delete_next(s, r), delete_in(step), replies) == asked(
            |s: RemovalView, r: ReplyView| removal_next(s, r),
            step,
            replies,
        ),
        after(|s: DeleteView, r: ReplyView| delete_next(s, r), delete_in(step), replies)
            == delete_in(after(|s: RemovalView, r: ReplyView| removal_next(s, r), step, replies)),
    decreases replies.len(),
{
    if let Step::Ask { request, state } = step {
        if replies.len() > 0 {
            lemma_deleting(removal_next(state, replies[0]), replies.drop_first());
        }
    }
}

/// Removing what stands at a path asks what it is first. A directory goes with
/// all that it holds, anything else goes by itself, and the reason why something
/// could not be removed or looked at is what is said.
pub proof fn what_stands_there_is_removed(path: Seq<char>, a: Attrs, t: Tree, e: Seq<char>)
    ensures
        ({
            let next = |s: DeleteView, r: ReplyView| delete_next(s, r);
            let start = delete_start(path);
            &&& a.is_dir && !a.is_symlink ==> {
                &&& asked(next, start, seq![ReplyView::Attrs(a)] + tree_replies(t)) == seq![
                    Request::Lstat(path),
                ] + tree_requests(path, t)
                &&& after(next, start, seq![ReplyView::Attrs(a)] + tree_replies(t)) == StepView::<
                    DeleteView,
                    (),
                >::Finish(Ok(()))
            }
            &&& !a.is_dir || a.is_symlink ==> {
                &&& asked(next, start, seq![ReplyView::Attrs(a), ReplyView::Done]) == seq![
                    Request::Lstat(path),
                    Request::Unlink(path),
                ]
                &&& after(next, start, seq![ReplyView::Attrs(a), ReplyView::Done]) == StepView::<
                    DeleteView,
                    (),
                >::Finish(Ok(()))
                &&& after(next, start, seq![ReplyView::Attrs(a), ReplyView::Failed(e)])
                    == StepView::<DeleteView, ()>::Finish(Err(e))
            }
            &&& forall|s: DeleteView| #[trigger]
                delete_next(s, ReplyView::Failed(e)) == StepView::<DeleteView, ()>::Finish(Err(e))
            &&& forall|s: DeleteView| #[trigger]
                delete_next(s, ReplyView::Broken(e)) == StepView::<DeleteView, ()>::Finish(Err(e))
        }),
{
    let next = |s: DeleteView, r: ReplyView| delete_next(s, r);
    let start = delete_start(path);
    let told = ReplyView::Attrs(a);
    let none = Seq::<ReplyView>::empty();
    if a.is_dir && !a.is_symlink {
        lemma_first_reply(next, start, told, tree_replies(t));
        lemma_deleting(do_chores(seq![Chore::Clear(path)]), tree_replies(t));
        removal_goes_inside_out(path, t);
    } else {
        let s1 = delete_next(start->state, told);
        lemma_first_reply(next, start, told, seq![ReplyView::Done] + none);
        lemma_first_reply(next, s1, ReplyView::Done, none);
        assert(seq![told, ReplyView::Done] =~= seq![told] + (seq![ReplyView::Done] + none));
        lemma_first_reply(next, start, told, seq![ReplyView::Failed(e)] + none);
        lemma_first_reply(next, s1, ReplyView::Failed(e), none);
        assert(seq![told, ReplyView::Failed(e)] =~= seq![told] + (seq![ReplyView::Failed(e)]
            + none));
        assert(asked(next, start, seq![told, ReplyView::Done]) =~= seq![
            Request::Lstat(path),
            Request::Unlink(path),
        ]);
    }
}

} // verus!
