//! The entries of one remote directory.
use vstd::prelude::*;
use vstd::string::*;

use crate::files::{millis, size_of, stat_of, to_millis};
use crate::folders::leads_below;
use crate::remote::{
    after, asked, unexpected, unexpected_reply, Attrs, Entry, Reply, ReplyView, Request, Step,
    StepView,
};
use crate::search::{caseless, sort_caseless};
use crate::sort::{
    arranged, goes_first, is_order, kept_places, key_views, keys_of, lemma_asymmetric,
    lemma_kept_order, lemma_order_covers, lemma_order_exists, lemma_sorted, lemma_sorted_members,
    sort_items, sorted, sorted_goes_by_key, text_before,
    the_dictionary_goes_by_the_first_difference, Key, SortKey,
};
use crate::text::{lowercase, same, starts_with_char, to_chars, to_lowercase};
use crate::walk::hidden;

verus! {

/// What an entry of a directory is.
#[derive(Clone, Copy, Debug, PartialEq, Eq)]
pub enum EntryKind {
    File,
    Dir,
    Symlink,
}

/// An entry of a directory.
#[derive(Clone, Debug, PartialEq, Eq)]
pub struct DirEntry<S = String> {
    pub name: S,
    pub kind: EntryKind,
    pub size: u64,
    /// Milliseconds since the epoch.
    pub mtime: u64,
}

impl DeepView for DirEntry {
    type V = DirEntry<Seq<char>>;

    open spec fn deep_view(&self) -> DirEntry<Seq<char>> {
        DirEntry { name: self.name@, kind: self.kind, size: self.size, mtime: self.mtime }
    }
}

/// What an entry with these attributes is: a link is a link even where the
/// server calls it a directory.
pub open spec fn kind_of(a: Attrs) -> EntryKind {
    if a.is_symlink {
        EntryKind::Symlink
    } else if a.is_dir {
        EntryKind::Dir
    } else {
        EntryKind::File
    }
}

/// Whether an entry is shown: it has a name that is not that of the directory
/// itself or of the one above, and is not hidden where those are left out.
pub open spec fn shown(e: Entry<Seq<char>>, show_hidden: bool) -> bool {
    match e.name {
        Some(name) => leads_below(name) && (show_hidden || !hidden(name)),
        None => false,
    }
}

/// What is told of an entry.
pub open spec fn described(e: Entry<Seq<char>>) -> DirEntry<Seq<char>> {
    DirEntry {
        name: e.name->0,
        kind: kind_of(e.attrs),
        size: size_of(e.attrs),
        mtime: millis(e.attrs.mtime),
    }
}

/// The entries that are shown, in the order in which the server lists them.
pub open spec fn shown_entries(l: Seq<Entry<Seq<char>>>, show_hidden: bool) -> Seq<
    DirEntry<Seq<char>>,
>
    decreases l.len(),
{
    if l.len() == 0 {
        Seq::empty()
    } else if shown(l.last(), show_hidden) {
        shown_entries(l.drop_last(), show_hidden).push(described(l.last()))
    } else {
        shown_entries(l.drop_last(), show_hidden)
    }
}

/// What entries are sorted by: directories, then links, then the rest; by
/// name where case does not count.
pub open spec fn entry_key(d: DirEntry<Seq<char>>) -> Key {
    SortKey {
        rank: match d.kind {
            EntryKind::Dir => 0,
            EntryKind::Symlink => 1,
            EntryKind::File => 2,
        },
        weight: 0,
        text: lowercase(d.name),
    }
}

/// A directory as it is shown.
pub open spec fn dir_listing(l: Seq<Entry<Seq<char>>>, show_hidden: bool) -> Seq<
    DirEntry<Seq<char>>,
> {
    sorted(shown_entries(l, show_hidden), |d: DirEntry<Seq<char>>| entry_key(d))
}

fn is_shown(name: &str, show_hidden: bool) -> (r: bool)
    ensures
        r == (leads_below(name@) && (show_hidden || !hidden(name@))),
{
    !same(name, ".") && !same(name, "..") && (show_hidden || !starts_with_char(name, '.'))
}

fn describe(name: &str, a: &Attrs) -> (r: DirEntry)
    ensures
        r.deep_view() == described(Entry { name: Some(name@), attrs: *a }),
{
    let kind = if a.is_symlink {
        EntryKind::Symlink
    } else if a.is_dir {
        EntryKind::Dir
    } else {
        EntryKind::File
    };
    let size: u64 = match a.size {
        Some(n) => n,
        None => 0,
    };
    DirEntry { name: name.to_owned(), kind, size, mtime: to_millis(a.mtime) }
}

fn key_of_entry(d: &DirEntry) -> (k: SortKey)
    ensures
        k@ == entry_key(d.deep_view()),
{
    let lower = to_lowercase(d.name.as_str());
    let rank: u8 = match d.kind {
        EntryKind::Dir => 0,
        EntryKind::Symlink => 1,
        EntryKind::File => 2,
    };
    SortKey { rank, weight: 0, text: to_chars(lower.as_str()) }
}

/// Shows what a server lists of a directory.
pub fn show_dir(l: &Vec<Entry>, show_hidden: bool) -> (r: Vec<DirEntry>)
    ensures
        r.deep_view() == dir_listing(l.deep_view(), show_hidden),
{
    let ghost all = l.deep_view();
    let ghost key = |d: DirEntry<Seq<char>>| entry_key(d);
    let mut out: Vec<DirEntry> = Vec::new();
    let mut keys: Vec<SortKey> = Vec::new();
    let mut i: usize = 0;
    assert(all.take(0) =~= Seq::<Entry<Seq<char>>>::empty());
    assert(out.deep_view() =~= Seq::<DirEntry<Seq<char>>>::empty());
    assert(key_views(keys@) =~= Seq::<Key>::empty());
    while i < l.len()
        invariant
            i <= l@.len(),
            all == l.deep_view(),
            out.deep_view() == shown_entries(all.take(i as int), show_hidden),
            keys@.len() == out@.len(),
            forall|j: int|
                0 <= j < keys@.len() ==> (#[trigger] keys@[j])@ == entry_key(out@[j].deep_view()),
        decreases l@.len() - i,
    {
        let e = &l[i];
        assert(all.take(i + 1).drop_last() =~= all.take(i as int));
        assert(all.take(i + 1).last() == e@);
        match &e.name {
            Some(name) => {
                if is_shown(name.as_str(), show_hidden) {
                    let ghost before = out.deep_view();
                    let d = describe(name.as_str(), &e.attrs);
                    keys.push(key_of_entry(&d));
                    out.push(d);
                    assert(out.deep_view() =~= before.push(d.deep_view()));
                }
            },
            None => {},
        }
        i = i + 1;
    }
    assert(all.take(i as int) =~= all);
    assert(key_views(keys@) =~= keys_of(out.deep_view(), key));
    sort_items(out, &keys, Ghost(key))
}

/// Showing a directory.
pub struct ReadDir {
    pub show_hidden: bool,
}

impl View for ReadDir {
    type V = ReadDir;

    open spec fn view(&self) -> ReadDir {
        *self
    }
}

/// How showing a directory goes on.
pub open spec fn read_dir_next(state: ReadDir, reply: ReplyView) -> StepView<
    ReadDir,
    Seq<DirEntry<Seq<char>>>,
> {
    match reply {
        Reply::Entries(l) => Step::Finish(Ok(dir_listing(l, state.show_hidden))),
        Reply::Failed(e) | Reply::Broken(e) => Step::Finish(Err(e)),
        _ => Step::Finish(Err(unexpected())),
    }
}

/// The start of showing a directory.
pub open spec fn read_dir_start(path: Seq<char>, show_hidden: bool) -> StepView<
    ReadDir,
    Seq<DirEntry<Seq<char>>>,
> {
    Step::Ask { request: Request::List(path), state: ReadDir { show_hidden } }
}

/// Shows the entries of a directory.
pub fn read_dir(path: &str, show_hidden: bool) -> (r: Step<ReadDir, Vec<DirEntry>>)
    ensures
        r@ == read_dir_start(path@, show_hidden),
{
    Step::Ask { request: Request::List(path.to_owned()), state: ReadDir { show_hidden } }
}

impl ReadDir {
    /// Goes on with the reply to its request.
    pub fn resume(self, reply: Reply) -> (r: Step<ReadDir, Vec<DirEntry>>)
        ensures
            r@ == read_dir_next(self@, reply@),
    {
        match reply {
            Reply::Entries(l) => Step::Finish(Ok(show_dir(&l, self.show_hidden))),
            Reply::Failed(e) | Reply::Broken(e) => Step::Finish(Err(e)),
            _ => Step::Finish(Err(unexpected_reply())),
        }
    }
}

/// The names of the directories among the entries that are shown, in the
/// order in which the server lists them.
pub open spec fn subdirs(l: Seq<Entry<Seq<char>>>, show_hidden: bool) -> Seq<Seq<char>>
    decreases l.len(),
{
    if l.len() == 0 {
        Seq::empty()
    } else if l.last().attrs.is_dir && shown(l.last(), show_hidden) {
        subdirs(l.drop_last(), show_hidden).push(l.last().name->0)
    } else {
        subdirs(l.drop_last(), show_hidden)
    }
}

/// The names of the directories in a directory, in order where case does not
/// count.
pub open spec fn subdir_listing(l: Seq<Entry<Seq<char>>>, show_hidden: bool) -> Seq<Seq<char>> {
    sorted(subdirs(l, show_hidden), |s: Seq<char>| caseless(s))
}

/// Names the directories among what a server lists.
pub fn show_subdirs(l: &Vec<Entry>, show_hidden: bool) -> (r: Vec<String>)
    ensures
        r.deep_view() == subdir_listing(l.deep_view(), show_hidden),
{
    let ghost all = l.deep_view();
    let mut out: Vec<String> = Vec::new();
    let mut i: usize = 0;
    assert(all.take(0) =~= Seq::<Entry<Seq<char>>>::empty());
    assert(out.deep_view() =~= Seq::<Seq<char>>::empty());
    while i < l.len()
        invariant
            i <= l@.len(),
            all == l.deep_view(),
            out.deep_view() == subdirs(all.take(i as int), show_hidden),
        decreases l@.len() - i,
    {
        let e = &l[i];
        assert(all.take(i + 1).drop_last() =~= all.take(i as int));
        assert(all.take(i + 1).last() == e@);
        match &e.name {
            Some(name) => {
                if e.attrs.is_dir && is_shown(name.as_str(), show_hidden) {
                    let ghost before = out.deep_view();
                    out.push(name.clone());
                    assert(out.deep_view() =~= before.push(name@));
                }
            },
            None => {},
        }
        i = i + 1;
    }
    assert(all.take(i as int) =~= all);
    sort_caseless(out)
}

/// Naming the directories in a directory.
pub struct ListSubdirs {
    pub show_hidden: bool,
}

impl View for ListSubdirs {
    type V = ListSubdirs;

    open spec fn view(&self) -> ListSubdirs {
        *self
    }
}

/// How naming the directories goes on.
pub open spec fn list_subdirs_next(state: ListSubdirs, reply: ReplyView) -> StepView<
    ListSubdirs,
    Seq<Seq<char>>,
> {
    match reply {
        Reply::Entries(l) => Step::Finish(Ok(subdir_listing(l, state.show_hidden))),
        Reply::Failed(e) | Reply::Broken(e) => Step::Finish(Err(e)),
        _ => Step::Finish(Err(unexpected())),
    }
}

/// The start of naming the directories.
pub open spec fn list_subdirs_start(path: Seq<char>, show_hidden: bool) -> StepView<
    ListSubdirs,
    Seq<Seq<char>>,
> {
    Step::Ask { request: Request::List(path), state: ListSubdirs { show_hidden } }
}

/// Names the directories in a directory.
pub fn list_subdirs(path: &str, show_hidden: bool) -> (r: Step<ListSubdirs, Vec<String>>)
    ensures
        r@ == list_subdirs_start(path@, show_hidden),
{
    Step::Ask { request: Request::List(path.to_owned()), state: ListSubdirs { show_hidden } }
}

impl ListSubdirs {
    /// Goes on with the reply to its request.
    pub fn resume(self, reply: Reply) -> (r: Step<ListSubdirs, Vec<String>>)
        ensures
            r@ == list_subdirs_next(self@, reply@),
    {
        match reply {
            Reply::Entries(l) => Step::Finish(Ok(show_subdirs(&l, self.show_hidden))),
            Reply::Failed(e) | Reply::Broken(e) => Step::Finish(Err(e)),
            _ => Step::Finish(Err(unexpected_reply())),
        }
    }
}

/// In a directory as it is shown, directories come before links and links
/// before the rest.
pub proof fn directories_come_first(
    l: Seq<Entry<Seq<char>>>,
    show_hidden: bool,
    i: int,
    j: int,
)
    requires
        0 <= i < j < dir_listing(l, show_hidden).len(),
    ensures
        dir_listing(l, show_hidden)[j].kind is Dir ==> dir_listing(l, show_hidden)[i].kind is Dir,
        dir_listing(l, show_hidden)[i].kind is File ==> dir_listing(l, show_hidden)[j].kind is File,
{
    let items = shown_entries(l, show_hidden);
    let key = |d: DirEntry<Seq<char>>| entry_key(d);
    lemma_sorted_members(items, key, items[0]);
    sorted_goes_by_key(items, key, i, j);
}

/// The positions of the directories among entries.
pub open spec fn dir_places(es: Seq<DirEntry<Seq<char>>>) -> Seq<int>
    decreases es.len(),
{
    if es.len() == 0 {
        Seq::empty()
    } else if es.last().kind is Dir {
        dir_places(es.drop_last()).push(es.len() - 1)
    } else {
        dir_places(es.drop_last())
    }
}

/// The names of the directories among entries, in the order of the entries.
pub open spec fn dir_names(es: Seq<DirEntry<Seq<char>>>) -> Seq<Seq<char>> {
    Seq::new(dir_places(es).len(), |j: int| es[dir_places(es)[j]].name)
}

/// The positions of directories rise, and each directory stands at one.
proof fn lemma_dir_places(es: Seq<DirEntry<Seq<char>>>)
    ensures
        forall|j: int|
            0 <= j < dir_places(es).len() ==> 0 <= #[trigger] dir_places(es)[j] < es.len()
                && es[dir_places(es)[j]].kind is Dir,
        forall|i: int, j: int|
            0 <= i < j < dir_places(es).len() ==> #[trigger] dir_places(es)[i]
                < #[trigger] dir_places(es)[j],
        forall|k: int|
            0 <= k < es.len() && (#[trigger] es[k]).kind is Dir ==> dir_places(es).contains(k),
    decreases es.len(),
{
    if es.len() > 0 {
        let rest = es.drop_last();
        lemma_dir_places(rest);
        let few = dir_places(rest);
        let all = dir_places(es);
        assert forall|k: int| 0 <= k < es.len() && (#[trigger] es[k]).kind is Dir implies
            all.contains(k) by {
            if k < rest.len() {
                assert(rest[k] == es[k]);
                assert(few.contains(k));
                let j = choose|j: int| 0 <= j < few.len() && few[j] == k;
                assert(all[j] == k);
            } else {
                assert(all[few.len() as int] == k);
            }
        }
        assert forall|j: int| 0 <= j < all.len() implies 0 <= #[trigger] all[j] < es.len()
            && es[all[j]].kind is Dir by {
            if j < few.len() {
                assert(all[j] == few[j]);
                assert(rest[few[j]] == es[few[j]]);
            }
        }
    }
}

proof fn lemma_subdirs(l: Seq<Entry<Seq<char>>>, show_hidden: bool)
    requires
        forall|i: int|
            0 <= i < l.len() ==> !((#[trigger] l[i]).attrs.is_dir && l[i].attrs.is_symlink),
    ensures
        subdirs(l, show_hidden) == dir_names(shown_entries(l, show_hidden)),
    decreases l.len(),
{
    let es = shown_entries(l, show_hidden);
    if l.len() > 0 {
        let rest = l.drop_last();
        assert forall|i: int| 0 <= i < rest.len() implies !((#[trigger] rest[i]).attrs.is_dir
            && rest[i].attrs.is_symlink) by {
            assert(rest[i] == l[i]);
        }
        lemma_subdirs(rest, show_hidden);
        let few = shown_entries(rest, show_hidden);
        assert(l[l.len() - 1] == l.last());
        if shown(l.last(), show_hidden) {
            assert(es.drop_last() =~= few);
            lemma_dir_places(few);
            let names = dir_names(few);
            assert forall|j: int| 0 <= j < names.len() implies es[dir_places(few)[j]].name
                == #[trigger] names[j] by {
                assert(es[dir_places(few)[j]] == few[dir_places(few)[j]]);
            }
            if l.last().attrs.is_dir {
                assert(dir_names(es) =~= names.push(l.last().name->0));
            } else {
                assert(dir_names(es) =~= names);
            }
        }
    }
    assert(subdirs(l, show_hidden) =~= dir_names(es));
}

/// The directories that are named are those that are shown, in the same order,
/// where the host calls no link a directory.
pub proof fn subdirs_are_the_directories_shown(l: Seq<Entry<Seq<char>>>, show_hidden: bool)
    requires
        forall|i: int|
            0 <= i < l.len() ==> !((#[trigger] l[i]).attrs.is_dir && l[i].attrs.is_symlink),
    ensures
        subdir_listing(l, show_hidden) == dir_names(dir_listing(l, show_hidden)),
{
    let items = shown_entries(l, show_hidden);
    let subs = subdirs(l, show_hidden);
    let key = |d: DirEntry<Seq<char>>| entry_key(d);
    let name_key = |s: Seq<char>| caseless(s);
    let keys = keys_of(items, key);
    let p = lemma_order_exists(keys);
    lemma_sorted(items, key, p);
    let out = dir_listing(l, show_hidden);
    lemma_subdirs(l, show_hidden);
    lemma_dir_places(items);
    lemma_dir_places(out);
    let b = dir_places(items);
    let k = dir_places(out);
    // The positions among the items of the directories that are shown.
    let a = Seq::new(k.len(), |j: int| p[k[j]]);
    assert forall|i: int, j: int| 0 <= i < j < a.len() implies a[i] != a[j] by {
        assert(k[i] < k[j]);
        lemma_asymmetric(keys, p[k[i]], p[k[j]]);
    }
    assert forall|j: int| 0 <= j < a.len() implies b.contains(#[trigger] a[j]) by {
        assert(out[k[j]] == items[p[k[j]]]);
        assert(items[a[j]].kind is Dir);
    }
    assert forall|j: int| 0 <= j < b.len() implies a.contains(#[trigger] b[j]) by {
        lemma_order_covers(keys, p, b[j]);
        let m = choose|m: int| 0 <= m < p.len() && p[m] == b[j];
        assert(out[m] == items[b[j]]);
        assert(k.contains(m));
        let n = choose|n: int| 0 <= n < k.len() && k[n] == m;
        assert(a[n] == b[j]);
    }
    assert(a.no_duplicates());
    assert(b.no_duplicates());
    a.unique_seq_to_set();
    b.unique_seq_to_set();
    assert(a.to_set() =~= b.to_set());
    let q = Seq::new(a.len(), |j: int| choose|x: int| 0 <= x < b.len() && b[x] == a[j]);
    assert forall|j: int| 0 <= j < q.len() implies 0 <= #[trigger] q[j] < b.len() && b[q[j]]
        == a[j] by {
        assert(b.contains(a[j]));
    }
    let name_keys = keys_of(subs, name_key);
    assert forall|i: int, j: int| 0 <= i < j < q.len() implies goes_first(
        name_keys,
        #[trigger] q[i],
        #[trigger] q[j],
    ) by {
        assert(k[i] < k[j]);
        assert(goes_first(keys, p[k[i]], p[k[j]]));
        assert(b[q[i]] == a[i] && b[q[j]] == a[j]);
        assert(items[a[i]].kind is Dir && items[a[j]].kind is Dir);
        assert(subs[q[i]] == items[a[i]].name && subs[q[j]] == items[a[j]].name);
        if a[i] < a[j] && q[i] > q[j] {
            assert(b[q[j]] < b[q[i]]);
        }
    }
    assert(is_order(name_keys, q));
    lemma_sorted(subs, name_key, q);
    assert forall|j: int| 0 <= j < q.len() implies #[trigger] arranged(subs, q)[j] == dir_names(
        out,
    )[j] by {
        assert(b[q[j]] == a[j]);
        assert(out[k[j]] == items[a[j]]);
    }
    assert(arranged(subs, q) =~= dir_names(out));
}

/// A listing tells of an entry what asking for the entry itself tells.
pub proof fn listings_agree_with_stat(e: Entry<Seq<char>>)
    ensures
        described(e).size == stat_of(e.attrs).size,
        described(e).mtime == stat_of(e.attrs).mtime,
        described(e).kind is Dir <==> stat_of(e.attrs).kind is Dir,
        described(e).kind is Symlink <==> stat_of(e.attrs).kind is Symlink,
{
}

/// A directory is shown with nothing lost and nothing added: an entry is
/// shown exactly where some shown entry of the server is described so.
pub proof fn listing_shows_what_is_there(
    l: Seq<Entry<Seq<char>>>,
    show_hidden: bool,
    d: DirEntry<Seq<char>>,
)
    ensures
        dir_listing(l, show_hidden).contains(d) <==> exists|i: int|
            0 <= i < l.len() && shown(#[trigger] l[i], show_hidden) && described(l[i]) == d,
{
    lemma_shown_entries(l, show_hidden, d);
    let items = shown_entries(l, show_hidden);
    let key = |e: DirEntry<Seq<char>>| entry_key(e);
    lemma_sorted_members(items, key, d);
}

proof fn lemma_shown_entries(l: Seq<Entry<Seq<char>>>, show_hidden: bool, d: DirEntry<Seq<char>>)
    ensures
        shown_entries(l, show_hidden).contains(d) <==> exists|i: int|
            0 <= i < l.len() && shown(#[trigger] l[i], show_hidden) && described(l[i]) == d,
    decreases l.len(),
{
    if l.len() > 0 {
        let rest = l.drop_last();
        lemma_shown_entries(rest, show_hidden, d);
        let before = shown_entries(rest, show_hidden);
        let now = shown_entries(l, show_hidden);
        if exists|i: int|
            0 <= i < l.len() && shown(#[trigger] l[i], show_hidden) && described(l[i]) == d {
            let i = choose|i: int|
                0 <= i < l.len() && shown(#[trigger] l[i], show_hidden) && described(l[i]) == d;
            if i < rest.len() {
                assert(rest[i] == l[i]);
                assert(before.contains(d));
                let k = choose|k: int| 0 <= k < before.len() && before[k] == d;
                assert(now[k] == d);
            } else {
                assert(now[before.len() as int] == d);
            }
        }
        if now.contains(d) {
            let k = choose|k: int| 0 <= k < now.len() && now[k] == d;
            if k < before.len() {
                assert(before[k] == d);
                let i = choose|i: int|
                    0 <= i < rest.len() && shown(#[trigger] rest[i], show_hidden) && described(
                        rest[i],
                    ) == d;
                assert(l[i] == rest[i]);
            } else {
                assert(l[l.len() - 1] == l.last());
            }
        }
    }
}

/// Whether an entry is to be shown: it has a name, which is not that of the
/// directory itself or of the one above and does not begin with a dot unless
/// those are asked for.
pub open spec fn to_be_shown(e: Entry<Seq<char>>, show_hidden: bool) -> bool {
    &&& e.name matches Some(name)
    &&& name != "."@
    &&& name != ".."@
    &&& show_hidden || name.len() == 0 || name[0] != '.'
}

/// Whether a description is that of an entry: its name, its size, its time in
/// milliseconds as far as 64 bits hold those, and what it is, where a link is a
/// link before it is anything else.
pub open spec fn tells_of(d: DirEntry<Seq<char>>, e: Entry<Seq<char>>) -> bool {
    &&& e.name == Some(d.name)
    &&& e.attrs.size matches Some(n) ==> d.size == n
    &&& e.attrs.size is None ==> d.size == 0
    &&& e.attrs.mtime is None ==> d.mtime == 0
    &&& e.attrs.mtime matches Some(t) ==> {
        &&& t <= 18_446_744_073_709_551 ==> d.mtime == 1000 * t
        &&& t > 18_446_744_073_709_551 ==> d.mtime == 18_446_744_073_709_551_615
    }
    &&& d.kind is Symlink <==> e.attrs.is_symlink
    &&& d.kind is Dir <==> e.attrs.is_dir && !e.attrs.is_symlink
    &&& d.kind is File <==> !e.attrs.is_dir && !e.attrs.is_symlink
}

proof fn lemma_shown_places(l: Seq<Entry<Seq<char>>>, show_hidden: bool)
    ensures
        ({
            let places = kept_places(l, |e: Entry<Seq<char>>| to_be_shown(e, show_hidden));
            let es = shown_entries(l, show_hidden);
            &&& es.len() == places.len()
            &&& forall|j: int|
                0 <= j < places.len() ==> 0 <= #[trigger] places[j] < l.len() && tells_of(
                    es[j],
                    l[places[j]],
                )
        }),
    decreases l.len(),
{
    if l.len() > 0 {
        let rest = l.drop_last();
        lemma_shown_places(rest, show_hidden);
        let keep = |e: Entry<Seq<char>>| to_be_shown(e, show_hidden);
        let few = kept_places(rest, keep);
        let places = kept_places(l, keep);
        let es = shown_entries(l, show_hidden);
        assert(shown(l.last(), show_hidden) <==> keep(l.last()));
        assert forall|j: int| 0 <= j < places.len() implies 0 <= #[trigger] places[j] < l.len()
            && tells_of(es[j], l[places[j]]) by {
            if j < few.len() {
                assert(places[j] == few[j]);
                assert(rest[few[j]] == l[few[j]]);
                assert(es[j] == shown_entries(rest, show_hidden)[j]);
            }
        }
    }
}

proof fn lemma_subdir_places(l: Seq<Entry<Seq<char>>>, show_hidden: bool)
    ensures
        ({
            let places = kept_places(
                l,
                |e: Entry<Seq<char>>| to_be_shown(e, show_hidden) && e.attrs.is_dir,
            );
            let names = subdirs(l, show_hidden);
            &&& names.len() == places.len()
            &&& forall|j: int|
                0 <= j < places.len() ==> 0 <= #[trigger] places[j] < l.len() && l[places[j]].name
                    == Some(names[j])
        }),
    decreases l.len(),
{
    if l.len() > 0 {
        let rest = l.drop_last();
        lemma_subdir_places(rest, show_hidden);
        let keep = |e: Entry<Seq<char>>| to_be_shown(e, show_hidden) && e.attrs.is_dir;
        let few = kept_places(rest, keep);
        let places = kept_places(l, keep);
        let names = subdirs(l, show_hidden);
        assert(shown(l.last(), show_hidden) && l.last().attrs.is_dir <==> keep(l.last()));
        assert forall|j: int| 0 <= j < places.len() implies 0 <= #[trigger] places[j] < l.len()
            && l[places[j]].name == Some(names[j]) by {
            if j < few.len() {
                assert(places[j] == few[j]);
                assert(rest[few[j]] == l[few[j]]);
                assert(names[j] == subdirs(rest, show_hidden)[j]);
            }
        }
    }
}

/// A directory is shown entry for entry: each that is to be shown once, with
/// what the host says of it. Directories come first, then links, then the rest;
/// those of a kind stand in the order of the dictionary where case does not
/// count, and then as the host lists them.
pub proof fn directories_are_shown_entry_for_entry(l: Seq<Entry<Seq<char>>>, show_hidden: bool)
    ensures
        exists|p: Seq<int>|
            {
                let out = dir_listing(l, show_hidden);
                &&& #[trigger] p.no_duplicates()
                &&& p.len() == out.len()
                &&& forall|x: int|
                    #![trigger p.contains(x)]
                    p.contains(x) <==> 0 <= x < l.len() && to_be_shown(l[x], show_hidden)
                &&& forall|k: int|
                    0 <= k < p.len() ==> 0 <= p[k] < l.len() && tells_of(
                        #[trigger] out[k],
                        l[p[k]],
                    )
                &&& forall|i: int, j: int|
                    0 <= i < j < p.len() ==> {
                        let a = #[trigger] out[i];
                        let b = #[trigger] out[j];
                        &&& b.kind is Dir ==> a.kind is Dir
                        &&& a.kind is File ==> b.kind is File
                        &&& a.kind == b.kind ==> !text_before(lowercase(b.name), lowercase(a.name))
                        &&& a.kind == b.kind && lowercase(a.name) == lowercase(b.name) ==> p[i]
                            < p[j]
                    }
            },
{
    let keep = |e: Entry<Seq<char>>| to_be_shown(e, show_hidden);
    let es = shown_entries(l, show_hidden);
    let key = |d: DirEntry<Seq<char>>| entry_key(d);
    let out = dir_listing(l, show_hidden);
    lemma_shown_places(l, show_hidden);
    let p = lemma_kept_order(l, keep, es, key);
    assert forall|k: int| 0 <= k < p.len() implies 0 <= p[k] < l.len() && tells_of(
        #[trigger] out[k],
        l[p[k]],
    ) by {
        assert(0 <= p[k] < l.len());
        let j = choose|j: int|
            0 <= j < es.len() && #[trigger] kept_places(l, keep)[j] == p[k] && out[k] == es[j];
        assert(tells_of(es[j], l[kept_places(l, keep)[j]]));
    }
    assert forall|i: int, j: int| 0 <= i < j < p.len() implies ({
        let a = #[trigger] out[i];
        let b = #[trigger] out[j];
        &&& b.kind is Dir ==> a.kind is Dir
        &&& a.kind is File ==> b.kind is File
        &&& a.kind == b.kind ==> !text_before(lowercase(b.name), lowercase(a.name))
        &&& a.kind == b.kind && lowercase(a.name) == lowercase(b.name) ==> p[i] < p[j]
    }) by {
        let x = lowercase(out[i].name);
        the_dictionary_goes_by_the_first_difference(x, x, x);
        sorted_goes_by_key(es, key, i, j);
    }
}

/// The directories of a directory are named entry for entry: each that is to be
/// shown and that the host calls a directory once, in the order of the dictionary
/// where case does not count, and then as the host lists them.
pub proof fn subdirs_are_named_entry_for_entry(l: Seq<Entry<Seq<char>>>, show_hidden: bool)
    ensures
        exists|p: Seq<int>|
            {
                let out = subdir_listing(l, show_hidden);
                &&& #[trigger] p.no_duplicates()
                &&& p.len() == out.len()
                &&& forall|x: int|
                    #![trigger p.contains(x)]
                    p.contains(x) <==> 0 <= x < l.len() && to_be_shown(l[x], show_hidden)
                        && l[x].attrs.is_dir
                &&& forall|k: int|
                    0 <= k < p.len() ==> 0 <= p[k] < l.len() && l[p[k]].name == Some(
                        #[trigger] out[k],
                    )
                &&& forall|i: int, j: int|
                    0 <= i < j < p.len() ==> {
                        let a = lowercase(#[trigger] out[i]);
                        let b = lowercase(#[trigger] out[j]);
                        &&& !text_before(b, a)
                        &&& a == b ==> p[i] < p[j]
                    }
            },
{
    let keep = |e: Entry<Seq<char>>| to_be_shown(e, show_hidden) && e.attrs.is_dir;
    let names = subdirs(l, show_hidden);
    let key = |s: Seq<char>| caseless(s);
    let out = subdir_listing(l, show_hidden);
    lemma_subdir_places(l, show_hidden);
    let p = lemma_kept_order(l, keep, names, key);
    assert forall|k: int| 0 <= k < p.len() implies 0 <= p[k] < l.len() && l[p[k]].name == Some(
        #[trigger] out[k],
    ) by {
        assert(0 <= p[k] < l.len());
        let j = choose|j: int|
            0 <= j < names.len() && #[trigger] kept_places(l, keep)[j] == p[k] && out[k]
                == names[j];
        assert(l[kept_places(l, keep)[j]].name == Some(names[j]));
    }
    assert forall|x: int|
        #![trigger p.contains(x)]
        p.contains(x) <==> 0 <= x < l.len() && to_be_shown(l[x], show_hidden)
            && l[x].attrs.is_dir by {
        assert(0 <= x < l.len() ==> keep(l[x]) == (to_be_shown(l[x], show_hidden)
            && l[x].attrs.is_dir));
    }
    assert forall|i: int, j: int| 0 <= i < j < p.len() implies ({
        let a = lowercase(#[trigger] out[i]);
        let b = lowercase(#[trigger] out[j]);
        &&& !text_before(b, a)
        &&& a == b ==> p[i] < p[j]
    }) by {
        let x = lowercase(out[i]);
        the_dictionary_goes_by_the_first_difference(x, x, x);
        sorted_goes_by_key(names, key, i, j);
    }
}

/// What the host lists of a directory is what is shown, with names that begin
/// with a dot where those are asked for, and what it says against that is what
/// is said. Nothing else is asked for.
pub proof fn what_is_listed_is_shown(
    path: Seq<char>,
    l: Seq<Entry<Seq<char>>>,
    show_hidden: bool,
    e: Seq<char>,
)
    ensures
        ({
            let next = |s: ReadDir, r: ReplyView| read_dir_next(s, r);
            let start = read_dir_start(path, show_hidden);
            &&& asked(next, start, seq![ReplyView::Entries(l)]) == seq![Request::List(path)]
            &&& after(next, start, seq![ReplyView::Entries(l)]) == StepView::<
                ReadDir,
                Seq<DirEntry<Seq<char>>>,
            >::Finish(Ok(dir_listing(l, show_hidden)))
            &&& after(next, start, seq![ReplyView::Failed(e)]) == StepView::<
                ReadDir,
                Seq<DirEntry<Seq<char>>>,
            >::Finish(Err(e))
            &&& after(next, start, seq![ReplyView::Broken(e)]) == StepView::<
                ReadDir,
                Seq<DirEntry<Seq<char>>>,
            >::Finish(Err(e))
        }),
        ({
            let next = |s: ListSubdirs, r: ReplyView| list_subdirs_next(s, r);
            let start = list_subdirs_start(path, show_hidden);
            &&& asked(next, start, seq![ReplyView::Entries(l)]) == seq![Request::List(path)]
            &&& after(next, start, seq![ReplyView::Entries(l)]) == StepView::<
                ListSubdirs,
                Seq<Seq<char>>,
            >::Finish(Ok(subdir_listing(l, show_hidden)))
            &&& after(next, start, seq![ReplyView::Failed(e)]) == StepView::<
                ListSubdirs,
                Seq<Seq<char>>,
            >::Finish(Err(e))
            &&& after(next, start, seq![ReplyView::Broken(e)]) == StepView::<
                ListSubdirs,
                Seq<Seq<char>>,
            >::Finish(Err(e))
        }),
{
    reveal_with_fuel(after, 2);
    reveal_with_fuel(asked, 2);
    let one: Request<Seq<char>> = Request::List(path);
    assert(seq![one] + Seq::empty() =~= seq![one]);
}

} // verus!
