//! Finding files below a remote directory: by listing them all, by a part of
//! their path, or by a glob pattern.
use globset::GlobSet;
use vstd::prelude::*;
use vstd::string::*;
use vstd::utf8::*;

use crate::paths::{below, join_remote};
use crate::pattern::{compile_pattern, paths_in, pattern_fault, pattern_paths};
use crate::remote::{Entry, Reply, ReplyView, Request, Step, StepView};
use crate::sort::{
    goes_first, key_views, keys_of, lemma_asymmetric, lemma_order_exists, lemma_sorted,
    lemma_sorted_members, sort_items, sorted, sorted_goes_by_key, text_before,
    the_dictionary_goes_by_the_first_difference, Key, SortKey,
};
use crate::survey::{
    capacity, is_folder, is_of, lists_names, nothing_that_stands_there_is_missed, path_of,
    path_of_stands_below_the_root, path_to,
    reply_to, served, stands_below, steady, survey, walk_is_bounded, walk_is_complete,
    walk_is_survey, walking, walks_collect_what_stands_there, whole, Host, Server,
};
use crate::text::{
    all_ascii, ascii_lowered, contains, lemma_lower_trimmed, lowercase, occurs, to_chars,
    to_lowercase, trim, trimmed, trimming_ignores_space_around, whitespace,
};
use crate::walk::{
    over, walk_next, walk_start, wanted, Plan, PlanView, Tally, TallyView, Visit, Walk, WalkView,
    Want, MAX_SCANNED,
};

verus! {

/// How deep a search goes; the number of entries is the real limit.
pub const SEARCH_DEPTH: usize = 64;

/// The files below a directory.
#[derive(Clone, Debug, PartialEq, Eq)]
pub struct ListFilesResult<L = Vec<String>> {
    pub files: L,
    /// Whether there may be more.
    pub truncated: bool,
}

/// The files below a directory, as contracts speak of them.
pub type ListFilesView = ListFilesResult<Seq<Seq<char>>>;

impl DeepView for ListFilesResult {
    type V = ListFilesView;

    open spec fn deep_view(&self) -> ListFilesView {
        ListFilesResult { files: self.files.deep_view(), truncated: self.truncated }
    }
}

/// What a text is sorted by where case does not count.
pub open spec fn caseless(s: Seq<char>) -> Key {
    SortKey { rank: 0, weight: 0, text: lowercase(s) }
}

/// The paths of what a walk collected.
pub open spec fn rels(hits: Seq<Visit<Seq<char>>>) -> Seq<Seq<char>> {
    Seq::new(hits.len(), |i: int| hits[i].rel)
}

/// What listing files makes of a walk.
pub open spec fn files_of(t: TallyView) -> ListFilesView {
    ListFilesResult {
        files: sorted(rels(t.hits), |s: Seq<char>| caseless(s)),
        truncated: t.full || t.spent,
    }
}

/// The key of a text where case does not count.
pub(crate) fn caseless_key(s: &str) -> (k: SortKey)
    ensures
        k@ == caseless(s@),
{
    let lower = to_lowercase(s);
    SortKey { rank: 0, weight: 0, text: to_chars(lower.as_str()) }
}

/// The texts in order where case does not count.
pub(crate) fn sort_caseless(items: Vec<String>) -> (r: Vec<String>)
    ensures
        r.deep_view() == sorted(items.deep_view(), |s: Seq<char>| caseless(s)),
{
    let ghost key = |s: Seq<char>| caseless(s);
    let mut keys: Vec<SortKey> = Vec::new();
    let mut i: usize = 0;
    while i < items.len()
        invariant
            i <= items@.len(),
            keys@.len() == i,
            forall|j: int| 0 <= j < i ==> (#[trigger] keys@[j])@ == caseless(items@[j]@),
        decreases items@.len() - i,
    {
        keys.push(caseless_key(items[i].as_str()));
        i = i + 1;
    }
    assert(key_views(keys@) =~= keys_of(items.deep_view(), key));
    sort_items(items, &keys, Ghost(key))
}

fn list_found(t: Tally) -> (r: ListFilesResult)
    ensures
        r.deep_view() == files_of(t.deep_view()),
{
    let truncated = t.full || t.spent;
    let mut files: Vec<String> = Vec::new();
    let mut i: usize = 0;
    while i < t.hits.len()
        invariant
            i <= t.hits@.len(),
            files@.len() == i,
            forall|j: int| 0 <= j < i ==> (#[trigger] files@[j])@ == t.hits@[j].rel@,
        decreases t.hits@.len() - i,
    {
        files.push(t.hits[i].rel.clone());
        i = i + 1;
    }
    assert(files.deep_view() =~= rels(t.hits.deep_view()));
    ListFilesResult { files: sort_caseless(files), truncated }
}

/// Listing the files below a directory.
pub struct ListFiles<W = Walk> {
    pub walk: W,
}

impl View for ListFiles {
    type V = ListFiles<WalkView>;

    open spec fn view(&self) -> ListFiles<WalkView> {
        ListFiles { walk: self.walk@ }
    }
}

/// Where listing files stands when its walk stands there.
pub open spec fn listing_at(step: StepView<WalkView, TallyView>) -> StepView<
    ListFiles<WalkView>,
    ListFilesView,
> {
    match step {
        Step::Ask { request, state } => Step::Ask { request, state: ListFiles { walk: state } },
        Step::Finish(Ok(t)) => Step::Finish(Ok(files_of(t))),
        Step::Finish(Err(e)) => Step::Finish(Err(e)),
    }
}

fn listing_on(step: Step<Walk, Tally>) -> (r: Step<ListFiles, ListFilesResult>)
    ensures
        r@ == listing_at(step@),
{
    match step {
        Step::Ask { request, state } => Step::Ask { request, state: ListFiles { walk: state } },
        Step::Finish(Ok(t)) => Step::Finish(Ok(list_found(t))),
        Step::Finish(Err(e)) => Step::Finish(Err(e)),
    }
}

/// What listing files walks for.
pub open spec fn files_plan(
    root: Seq<char>,
    limit: usize,
    max_depth: usize,
    show_hidden: bool,
) -> PlanView {
    Plan { root, max_depth, show_hidden, limit, want: Want::Files }
}

/// The start of listing files.
pub open spec fn list_files_start(
    root: Seq<char>,
    limit: usize,
    max_depth: usize,
    show_hidden: bool,
) -> StepView<ListFiles<WalkView>, ListFilesView> {
    listing_at(walk_start(files_plan(root, limit, max_depth, show_hidden)))
}

/// Lists the files below a directory, in order where case does not count.
pub fn list_files(root: &str, limit: usize, max_depth: usize, show_hidden: bool) -> (r: Step<
    ListFiles,
    ListFilesResult,
>)
    ensures
        r@ == list_files_start(root@, limit, max_depth, show_hidden),
{
    listing_on(
        Walk::start(
            Plan { root: root.to_owned(), max_depth, show_hidden, limit, want: Want::Files },
        ),
    )
}

impl ListFiles {
    /// Goes on listing.
    pub fn resume(self, reply: Reply) -> (r: Step<ListFiles, ListFilesResult>)
        ensures
            r@ == listing_at(walk_next(self@.walk, reply@)),
    {
        listing_on(self.walk.resume(reply))
    }
}

/// Something whose path holds what was searched for.
#[derive(Clone, Debug, PartialEq, Eq)]
pub struct SearchHit<S = String> {
    pub path: S,
    pub rel: S,
    pub name: S,
    pub is_dir: bool,
}

impl DeepView for SearchHit {
    type V = SearchHit<Seq<char>>;

    open spec fn deep_view(&self) -> SearchHit<Seq<char>> {
        SearchHit { path: self.path@, rel: self.rel@, name: self.name@, is_dir: self.is_dir }
    }
}

/// What a search found.
#[derive(Clone, Debug, PartialEq, Eq)]
pub struct SearchResult<L = Vec<SearchHit>> {
    pub hits: L,
    /// Whether there may be more.
    pub truncated: bool,
}

/// What a search found, as contracts speak of it.
pub type SearchResultView = SearchResult<Seq<SearchHit<Seq<char>>>>;

impl DeepView for SearchResult {
    type V = SearchResultView;

    open spec fn deep_view(&self) -> SearchResultView {
        SearchResult { hits: self.hits.deep_view(), truncated: self.truncated }
    }
}

/// What is searched for: the query in lower case, without white space around it.
pub open spec fn needle(query: Seq<char>) -> Seq<char> {
    lowercase(trimmed(query))
}

/// What a search tells of something that its walk came by.
pub open spec fn hit_of(root: Seq<char>, v: Visit<Seq<char>>) -> SearchHit<Seq<char>> {
    SearchHit { path: below(root, v.rel), rel: v.rel, name: v.name, is_dir: v.is_dir }
}

/// What a search tells of all that its walk collected, in order of the walk.
pub open spec fn hits_of(root: Seq<char>, hits: Seq<Visit<Seq<char>>>) -> Seq<
    SearchHit<Seq<char>>,
> {
    Seq::new(hits.len(), |i: int| hit_of(root, hits[i]))
}

/// What hits are sorted by: those whose name holds what is searched for come
/// first, and shorter paths before longer ones.
pub open spec fn hit_key(q: Seq<char>, h: SearchHit<Seq<char>>) -> Key {
    SortKey {
        rank: if occurs(q, lowercase(h.name)) {
            0
        } else {
            1
        },
        weight: encode_utf8(h.rel).len(),
        text: Seq::empty(),
    }
}

/// What a search makes of a walk.
pub open spec fn found_of(root: Seq<char>, q: Seq<char>, t: TallyView) -> SearchResultView {
    SearchResult {
        hits: sorted(hits_of(root, t.hits), |h: SearchHit<Seq<char>>| hit_key(q, h)),
        truncated: t.full || t.spent,
    }
}

fn key_of_hit(q: &str, h: &SearchHit) -> (k: SortKey)
    ensures
        k@ == hit_key(q@, h.deep_view()),
{
    let lower = to_lowercase(h.name.as_str());
    let rank: u8 = if contains(lower.as_str(), q) {
        0
    } else {
        1
    };
    let weight: usize = h.rel.as_str().as_bytes().len();
    let k = SortKey { rank, weight, text: Vec::new() };
    assert(k@.text =~= Seq::<char>::empty());
    k
}

fn search_found(root: &str, q: &str, t: Tally) -> (r: SearchResult)
    ensures
        r.deep_view() == found_of(root@, q@, t.deep_view()),
{
    let truncated = t.full || t.spent;
    let ghost key = |h: SearchHit<Seq<char>>| hit_key(q@, h);
    let mut hits: Vec<SearchHit> = Vec::new();
    let mut keys: Vec<SortKey> = Vec::new();
    let mut i: usize = 0;
    while i < t.hits.len()
        invariant
            i <= t.hits@.len(),
            hits@.len() == i,
            keys@.len() == i,
            forall|j: int|
                0 <= j < i ==> (#[trigger] hits@[j]).deep_view() == hit_of(
                    root@,
                    t.hits@[j].deep_view(),
                ),
            forall|j: int|
                0 <= j < i ==> (#[trigger] keys@[j])@ == hit_key(q@, hits@[j].deep_view()),
        decreases t.hits@.len() - i,
    {
        let v = &t.hits[i];
        let hit = SearchHit {
            path: join_remote(root, v.rel.as_str()),
            rel: v.rel.clone(),
            name: v.name.clone(),
            is_dir: v.is_dir,
        };
        keys.push(key_of_hit(q, &hit));
        hits.push(hit);
        i = i + 1;
    }
    assert(hits.deep_view() =~= hits_of(root@, t.hits.deep_view()));
    assert(key_views(keys@) =~= keys_of(hits.deep_view(), key));
    SearchResult { hits: sort_items(hits, &keys, Ghost(key)), truncated }
}

/// Searching below a directory.
pub struct Search<S = String, W = Walk> {
    pub root: S,
    pub q: S,
    pub walk: W,
}

/// Searching below a directory, as contracts speak of it.
pub type SearchView = Search<Seq<char>, WalkView>;

impl View for Search {
    type V = SearchView;

    open spec fn view(&self) -> SearchView {
        Search { root: self.root@, q: self.q@, walk: self.walk@ }
    }
}

/// Where a search stands when its walk stands there.
pub open spec fn search_at(
    root: Seq<char>,
    q: Seq<char>,
    step: StepView<WalkView, TallyView>,
) -> StepView<SearchView, SearchResultView> {
    match step {
        Step::Ask { request, state } => Step::Ask { request, state: Search { root, q, walk: state } },
        Step::Finish(Ok(t)) => Step::Finish(Ok(found_of(root, q, t))),
        Step::Finish(Err(e)) => Step::Finish(Err(e)),
    }
}

fn search_on(root: String, q: String, step: Step<Walk, Tally>) -> (r: Step<Search, SearchResult>)
    ensures
        r@ == search_at(root@, q@, step@),
{
    match step {
        Step::Ask { request, state } => Step::Ask { request, state: Search { root, q, walk: state } },
        Step::Finish(Ok(t)) => Step::Finish(Ok(search_found(root.as_str(), q.as_str(), t))),
        Step::Finish(Err(e)) => Step::Finish(Err(e)),
    }
}

/// What a search walks for.
pub open spec fn search_plan(
    root: Seq<char>,
    q: Seq<char>,
    limit: usize,
    show_hidden: bool,
) -> PlanView {
    Plan { root, max_depth: SEARCH_DEPTH, show_hidden, limit, want: Want::Matching { query: q } }
}

/// The start of a search for what the query was made into: without anything to
/// search for it is over at once.
pub open spec fn search_for(
    root: Seq<char>,
    q: Seq<char>,
    limit: usize,
    show_hidden: bool,
) -> StepView<SearchView, SearchResultView> {
    if q.len() == 0 {
        Step::Finish(Ok(SearchResult { hits: Seq::empty(), truncated: false }))
    } else {
        search_at(root, q, walk_start(search_plan(root, q, limit, show_hidden)))
    }
}

/// The start of a search.
pub open spec fn search_start(
    root: Seq<char>,
    query: Seq<char>,
    limit: usize,
    show_hidden: bool,
) -> StepView<SearchView, SearchResultView> {
    search_for(root, needle(query), limit, show_hidden)
}

/// Searches below a directory for files and directories whose path, in lower
/// case, holds a text.
pub fn search_with(root: &str, q: String, limit: usize, show_hidden: bool) -> (r: Step<
    Search,
    SearchResult,
>)
    ensures
        r@ == search_for(root@, q@, limit, show_hidden),
{
    if q.as_str().is_empty() {
        let hits: Vec<SearchHit> = Vec::new();
        assert(hits.deep_view() =~= Seq::<SearchHit<Seq<char>>>::empty());
        return Step::Finish(Ok(SearchResult { hits, truncated: false }));
    }
    let plan = Plan {
        root: root.to_owned(),
        max_depth: SEARCH_DEPTH,
        show_hidden,
        limit,
        want: Want::Matching { query: q.clone() },
    };
    search_on(root.to_owned(), q, Walk::start(plan))
}

/// Searches below a directory for files and directories whose path holds the
/// query, where case does not count.
pub fn search(root: &str, query: &str, limit: usize, show_hidden: bool) -> (r: Step<
    Search,
    SearchResult,
>)
    ensures
        r@ == search_start(root@, query@, limit, show_hidden),
{
    let bare = trim(query);
    search_with(root, to_lowercase(bare.as_str()), limit, show_hidden)
}

impl Search {
    /// Goes on searching.
    pub fn resume(self, reply: Reply) -> (r: Step<Search, SearchResult>)
        ensures
            r@ == search_at(self@.root, self@.q, walk_next(self@.walk, reply@)),
    {
        search_on(self.root, self.q, self.walk.resume(reply))
    }
}

/// A file whose path matches a pattern.
#[derive(Clone, Debug, PartialEq, Eq)]
pub struct GlobHit<S = String> {
    pub path: S,
    pub rel: S,
}

impl DeepView for GlobHit {
    type V = GlobHit<Seq<char>>;

    open spec fn deep_view(&self) -> GlobHit<Seq<char>> {
        GlobHit { path: self.path@, rel: self.rel@ }
    }
}

/// The files whose paths match a pattern.
#[derive(Clone, Debug, PartialEq, Eq)]
pub struct GlobResponse<L = Vec<GlobHit>> {
    pub hits: L,
    /// Whether the search stopped because it had found enough.
    pub truncated: bool,
}

/// The files whose paths match a pattern, as contracts speak of them.
pub type GlobResponseView = GlobResponse<Seq<GlobHit<Seq<char>>>>;

impl DeepView for GlobResponse {
    type V = GlobResponseView;

    open spec fn deep_view(&self) -> GlobResponseView {
        GlobResponse { hits: self.hits.deep_view(), truncated: self.truncated }
    }
}

/// What matching a pattern calls what a walk collected.
pub open spec fn globbed_of(root: Seq<char>, hits: Seq<Visit<Seq<char>>>) -> Seq<
    GlobHit<Seq<char>>,
> {
    Seq::new(hits.len(), |i: int| GlobHit { path: below(root, hits[i].rel), rel: hits[i].rel })
}

/// What matching a pattern makes of a walk: its hits, in order of the walk.
pub open spec fn matched_of(root: Seq<char>, t: TallyView) -> GlobResponseView {
    GlobResponse {
        hits: globbed_of(root, t.hits),
        truncated: t.full,
    }
}

fn glob_found(root: &str, t: Tally) -> (r: GlobResponse)
    ensures
        r.deep_view() == matched_of(root@, t.deep_view()),
{
    let truncated = t.full;
    let mut hits: Vec<GlobHit> = Vec::new();
    let mut i: usize = 0;
    while i < t.hits.len()
        invariant
            i <= t.hits@.len(),
            hits@.len() == i,
            forall|j: int|
                0 <= j < i ==> (#[trigger] hits@[j]).deep_view() == (GlobHit {
                    path: below(root@, t.hits@[j].rel@),
                    rel: t.hits@[j].rel@,
                }),
        decreases t.hits@.len() - i,
    {
        let v = &t.hits[i];
        hits.push(GlobHit { path: join_remote(root, v.rel.as_str()), rel: v.rel.clone() });
        i = i + 1;
    }
    assert(hits.deep_view() =~= matched_of(root@, t.deep_view()).hits);
    GlobResponse { hits, truncated }
}

/// Matching a pattern below a directory.
pub struct GlobSearch<S = String, W = Walk> {
    pub root: S,
    pub walk: W,
}

/// Matching a pattern below a directory, as contracts speak of it.
pub type GlobSearchView = GlobSearch<Seq<char>, WalkView>;

impl View for GlobSearch {
    type V = GlobSearchView;

    open spec fn view(&self) -> GlobSearchView {
        GlobSearch { root: self.root@, walk: self.walk@ }
    }
}

/// Where matching a pattern stands when its walk stands there.
pub open spec fn glob_at(root: Seq<char>, step: StepView<WalkView, TallyView>) -> StepView<
    GlobSearchView,
    GlobResponseView,
> {
    match step {
        Step::Ask { request, state } => Step::Ask { request, state: GlobSearch { root, walk: state } },
        Step::Finish(Ok(t)) => Step::Finish(Ok(matched_of(root, t))),
        Step::Finish(Err(e)) => Step::Finish(Err(e)),
    }
}

fn glob_on(root: String, step: Step<Walk, Tally>) -> (r: Step<GlobSearch, GlobResponse>)
    ensures
        r@ == glob_at(root@, step@),
{
    match step {
        Step::Ask { request, state } => Step::Ask { request, state: GlobSearch { root, walk: state } },
        Step::Finish(Ok(t)) => Step::Finish(Ok(glob_found(root.as_str(), t))),
        Step::Finish(Err(e)) => Step::Finish(Err(e)),
    }
}

/// What matching patterns walks for: files whose paths are among these.
pub open spec fn glob_plan(
    paths: Set<Seq<char>>,
    root: Seq<char>,
    max_results: usize,
) -> PlanView {
    Plan {
        root,
        max_depth: SEARCH_DEPTH,
        show_hidden: true,
        limit: max_results,
        want: Want::Glob { set: paths },
    }
}

/// The start of matching a pattern, given the paths that it matches or what is
/// wrong with it.
pub open spec fn glob_begin(
    pattern: Seq<char>,
    root: Seq<char>,
    max_results: usize,
    compiled: Result<Set<Seq<char>>, Seq<char>>,
) -> StepView<GlobSearchView, GlobResponseView> {
    if pattern.len() == 0 {
        Step::Finish(Err("empty pattern"@))
    } else {
        match compiled {
            Ok(paths) => glob_at(root, walk_start(glob_plan(paths, root, max_results))),
            Err(e) => Step::Finish(Err("bad glob: "@ + e)),
        }
    }
}

/// The start of matching a pattern, given what is wrong with it, if anything.
pub open spec fn glob_start(
    pattern: Seq<char>,
    root: Seq<char>,
    max_results: usize,
    fault: Option<Seq<char>>,
) -> StepView<GlobSearchView, GlobResponseView> {
    glob_begin(
        pattern,
        root,
        max_results,
        match fault {
            Some(e) => Err(e),
            None => Ok(pattern_paths(pattern)),
        },
    )
}

/// A pattern that was compiled, as contracts speak of it.
pub open spec fn compiled_view(compiled: Result<GlobSet, String>) -> Result<
    Set<Seq<char>>,
    Seq<char>,
> {
    match compiled {
        Ok(set) => Ok(paths_in(set)),
        Err(e) => Err(e@),
    }
}

/// Starts matching a pattern that was compiled, or could not be.
pub fn glob_with(
    pattern: &str,
    root: &str,
    max_results: usize,
    compiled: Result<GlobSet, String>,
) -> (r: Step<GlobSearch, GlobResponse>)
    ensures
        r@ == glob_begin(pattern@, root@, max_results, compiled_view(compiled)),
{
    if pattern.is_empty() {
        return Step::Finish(Err("empty pattern".to_owned()));
    }
    match compiled {
        Ok(set) => {
            let plan = Plan {
                root: root.to_owned(),
                max_depth: SEARCH_DEPTH,
                show_hidden: true,
                limit: max_results,
                want: Want::Glob { set },
            };
            glob_on(root.to_owned(), Walk::start(plan))
        },
        Err(e) => Step::Finish(Err("bad glob: ".to_owned().concat(e.as_str()))),
    }
}

/// Finds the files below a directory whose paths match a glob pattern.
pub fn glob(pattern: &str, root: &str, max_results: usize) -> (r: Step<GlobSearch, GlobResponse>)
    ensures
        r@ == glob_start(pattern@, root@, max_results, pattern_fault(pattern@)),
{
    glob_with(pattern, root, max_results, compile_pattern(pattern))
}

impl GlobSearch {
    /// Goes on matching.
    pub fn resume(self, reply: Reply) -> (r: Step<GlobSearch, GlobResponse>)
        ensures
            r@ == glob_at(self@.root, walk_next(self@.walk, reply@)),
    {
        glob_on(self.root, self.walk.resume(reply))
    }
}

/// A blank query finds nothing, and nothing is asked for.
pub proof fn blank_queries_find_nothing(
    root: Seq<char>,
    query: Seq<char>,
    limit: usize,
    show_hidden: bool,
)
    requires
        forall|i: int| 0 <= i < query.len() ==> whitespace(#[trigger] query[i]),
    ensures
        search_start(root, query, limit, show_hidden) == StepView::<
            SearchView,
            SearchResultView,
        >::Finish(Ok(SearchResult { hits: Seq::empty(), truncated: false })),
{
    let none = Seq::<char>::empty();
    trimming_ignores_space_around(query, none, none);
    assert(query + none + none =~= query);
    assert(trimmed(none) =~= none);
    assert(lowercase(none) =~= none);
}

/// Neither the case of ASCII letters in a query nor white space around it
/// counts: such queries make the same search.
pub proof fn queries_ignore_case_and_space(
    root: Seq<char>,
    q: Seq<char>,
    before: Seq<char>,
    recased: Seq<char>,
    behind: Seq<char>,
    limit: usize,
    show_hidden: bool,
)
    requires
        all_ascii(q),
        all_ascii(recased),
        ascii_lowered(recased) == ascii_lowered(q),
        forall|i: int| 0 <= i < before.len() ==> whitespace(#[trigger] before[i]),
        forall|i: int| 0 <= i < behind.len() ==> whitespace(#[trigger] behind[i]),
    ensures
        search_start(root, before + recased + behind, limit, show_hidden) == search_start(
            root,
            q,
            limit,
            show_hidden,
        ),
{
    trimming_ignores_space_around(before, recased, behind);
    lemma_lower_trimmed(q);
    lemma_lower_trimmed(recased);
}

/// How listing files goes on, as a value.
pub open spec fn listing() -> spec_fn(ListFiles<WalkView>, ReplyView) -> StepView<
    ListFiles<WalkView>,
    ListFilesView,
> {
    |s: ListFiles<WalkView>, reply: ReplyView| listing_at(walk_next(s.walk, reply))
}

/// How a search goes on, as a value.
pub open spec fn searching() -> spec_fn(SearchView, ReplyView) -> StepView<
    SearchView,
    SearchResultView,
> {
    |s: SearchView, reply: ReplyView| search_at(s.root, s.q, walk_next(s.walk, reply))
}

/// How matching a pattern goes on, as a value.
pub open spec fn globbing() -> spec_fn(GlobSearchView, ReplyView) -> StepView<
    GlobSearchView,
    GlobResponseView,
> {
    |s: GlobSearchView, reply: ReplyView| glob_at(s.root, walk_next(s.walk, reply))
}

proof fn lemma_listing_served(
    server: Server,
    k: nat,
    step: StepView<WalkView, TallyView>,
    n: nat,
)
    ensures
        served(listing(), server, k, listing_at(step), n) == listing_at(
            served(walking(), server, k, step, n),
        ),
    decreases n,
{
    if let Step::Ask { request, state } = step {
        if n > 0 {
            let next = walk_next(state, reply_to(server, k, request));
            lemma_listing_served(server, k + 1, next, (n - 1) as nat);
        }
    }
}

proof fn lemma_search_served(
    server: Server,
    k: nat,
    root: Seq<char>,
    q: Seq<char>,
    step: StepView<WalkView, TallyView>,
    n: nat,
)
    ensures
        served(searching(), server, k, search_at(root, q, step), n) == search_at(
            root,
            q,
            served(walking(), server, k, step, n),
        ),
    decreases n,
{
    if let Step::Ask { request, state } = step {
        if n > 0 {
            let next = walk_next(state, reply_to(server, k, request));
            lemma_search_served(server, k + 1, root, q, next, (n - 1) as nat);
        }
    }
}

proof fn lemma_glob_served(
    server: Server,
    k: nat,
    root: Seq<char>,
    step: StepView<WalkView, TallyView>,
    n: nat,
)
    ensures
        served(globbing(), server, k, glob_at(root, step), n) == glob_at(
            root,
            served(walking(), server, k, step, n),
        ),
    decreases n,
{
    if let Step::Ask { request, state } = step {
        if n > 0 {
            let next = walk_next(state, reply_to(server, k, request));
            lemma_glob_served(server, k + 1, root, next, (n - 1) as nat);
        }
    }
}

/// Whatever the server lists, listing files ends after a bounded number of
/// requests, with the files that the survey of the tree comes by: no
/// directory is among them, and no more than the limit (or one) are.
pub proof fn listing_finds_the_files(
    server: Server,
    root: Seq<char>,
    limit: usize,
    max_depth: usize,
    show_hidden: bool,
)
    ensures
        ({
            let plan = files_plan(root, limit, max_depth, show_hidden);
            let s = survey(plan, server);
            &&& s.dirs.len() <= MAX_SCANNED + 1
            &&& served(listing(), server, 0, listing_at(walk_start(plan)), s.dirs.len()) == StepView::<
                ListFiles<WalkView>,
                ListFilesView,
            >::Finish(Ok(files_of(s.tally)))
            &&& s.tally.hits.len() <= capacity(plan)
            &&& forall|i: int| 0 <= i < s.tally.hits.len() ==> !(#[trigger] s.tally.hits[i]).is_dir
        }),
{
    let plan = files_plan(root, limit, max_depth, show_hidden);
    let s = survey(plan, server);
    walk_is_bounded(plan, server);
    walk_is_survey(plan, server);
    lemma_listing_served(server, 0, walk_start(plan), s.dirs.len());
    assert forall|i: int| 0 <= i < s.tally.hits.len() implies !(#[trigger] s.tally.hits[i]).is_dir by {
        assert(wanted(plan.want, s.tally.hits[i]));
    }
}

/// Whatever the server lists, a search ends after a bounded number of
/// requests, with what the survey of the tree comes by; the path of each hit
/// holds what was searched for, and no more than the limit (or one) are found.
pub proof fn search_finds_the_query(
    server: Server,
    root: Seq<char>,
    query: Seq<char>,
    limit: usize,
    show_hidden: bool,
)
    requires
        needle(query).len() > 0,
    ensures
        ({
            let q = needle(query);
            let plan = search_plan(root, q, limit, show_hidden);
            let s = survey(plan, server);
            &&& s.dirs.len() <= MAX_SCANNED + 1
            &&& served(
                searching(),
                server,
                0,
                search_start(root, query, limit, show_hidden),
                s.dirs.len(),
            ) == StepView::<SearchView, SearchResultView>::Finish(Ok(found_of(root, q, s.tally)))
            &&& s.tally.hits.len() <= capacity(plan)
            &&& forall|i: int|
                0 <= i < s.tally.hits.len() ==> occurs(q, lowercase((#[trigger] s.tally.hits[i]).rel))
        }),
{
    let q = needle(query);
    let plan = search_plan(root, q, limit, show_hidden);
    let s = survey(plan, server);
    walk_is_bounded(plan, server);
    walk_is_survey(plan, server);
    lemma_search_served(server, 0, root, q, walk_start(plan), s.dirs.len());
    assert forall|i: int| 0 <= i < s.tally.hits.len() implies occurs(
        q,
        lowercase((#[trigger] s.tally.hits[i]).rel),
    ) by {
        assert(wanted(plan.want, s.tally.hits[i]));
    }
}

/// Whatever the server lists, matching a pattern ends after a bounded number
/// of requests, with what the survey of the tree comes by; each hit is a file
/// whose path matches, and no more than the limit (or one) are found.
pub proof fn glob_finds_the_matches(
    server: Server,
    pattern: Seq<char>,
    root: Seq<char>,
    max_results: usize,
)
    requires
        pattern.len() > 0,
        pattern_fault(pattern) is None,
    ensures
        ({
            let plan = glob_plan(pattern_paths(pattern), root, max_results);
            let s = survey(plan, server);
            let found = matched_of(root, s.tally);
            &&& s.dirs.len() <= MAX_SCANNED + 1
            &&& served(
                globbing(),
                server,
                0,
                glob_start(pattern, root, max_results, pattern_fault(pattern)),
                s.dirs.len(),
            ) == StepView::<GlobSearchView, GlobResponseView>::Finish(Ok(found))
            &&& found.hits.len() <= capacity(plan)
            &&& found.truncated <==> found.hits.len() == capacity(plan)
            &&& forall|i: int|
                0 <= i < found.hits.len() ==> !s.tally.hits[i].is_dir && pattern_paths(
                    pattern,
                ).contains((#[trigger] found.hits[i]).rel) && found.hits[i].path == below(
                    root,
                    found.hits[i].rel,
                )
        }),
{
    let plan = glob_plan(pattern_paths(pattern), root, max_results);
    let s = survey(plan, server);
    walk_is_bounded(plan, server);
    walk_is_survey(plan, server);
    lemma_glob_served(server, 0, root, walk_start(plan), s.dirs.len());
    let found = matched_of(root, s.tally);
    assert forall|i: int| 0 <= i < found.hits.len() implies !s.tally.hits[i].is_dir && pattern_paths(
        pattern,
    ).contains((#[trigger] found.hits[i]).rel) && found.hits[i].path == below(
        root,
        found.hits[i].rel,
    ) by {
        assert(wanted(plan.want, s.tally.hits[i]));
    }
}

/// On a host that lists a directory the same way each time, a list of files
/// that is not truncated holds every file that stands in the tree, is not to be
/// passed over and is not too deep, once for each time that it stands there.
/// It is truncated exactly where there are as many files as the limit (or one),
/// or more entries than a walk looks at.
pub proof fn full_listings_miss_nothing(
    host: Host,
    root: Seq<char>,
    limit: usize,
    max_depth: usize,
    show_hidden: bool,
)
    ensures
        ({
            let plan = files_plan(root, limit, max_depth, show_hidden);
            let all = whole(plan, host);
            let s = survey(plan, steady(host));
            let found = files_of(s.tally);
            &&& served(listing(), steady(host), 0, listing_at(walk_start(plan)), s.dirs.len())
                == StepView::<ListFiles<WalkView>, ListFilesView>::Finish(Ok(found))
            &&& found.truncated <==> all.hits.len() >= capacity(plan) || all.entries > MAX_SCANNED
            &&& !found.truncated ==> found.files == sorted(
                rels(all.hits),
                |s: Seq<char>| caseless(s),
            )
        }),
{
    listing_finds_the_files(steady(host), root, limit, max_depth, show_hidden);
    walk_is_complete(files_plan(root, limit, max_depth, show_hidden), host);
}

/// On a host that lists a directory the same way each time, a search that is
/// not truncated has found all that stands in the tree, is not to be passed
/// over and whose path holds the query. It is truncated exactly where that is
/// as much as the limit (or one), or where there are more entries than a walk
/// looks at.
pub proof fn full_searches_miss_nothing(
    host: Host,
    root: Seq<char>,
    query: Seq<char>,
    limit: usize,
    show_hidden: bool,
)
    requires
        needle(query).len() > 0,
    ensures
        ({
            let q = needle(query);
            let plan = search_plan(root, q, limit, show_hidden);
            let all = whole(plan, host);
            let s = survey(plan, steady(host));
            let found = found_of(root, q, s.tally);
            &&& served(
                searching(),
                steady(host),
                0,
                search_start(root, query, limit, show_hidden),
                s.dirs.len(),
            ) == StepView::<SearchView, SearchResultView>::Finish(Ok(found))
            &&& found.truncated <==> all.hits.len() >= capacity(plan) || all.entries > MAX_SCANNED
            &&& !found.truncated ==> found.hits == sorted(
                hits_of(root, all.hits),
                |h: SearchHit<Seq<char>>| hit_key(q, h),
            )
        }),
{
    let q = needle(query);
    search_finds_the_query(steady(host), root, query, limit, show_hidden);
    walk_is_complete(search_plan(root, q, limit, show_hidden), host);
}

/// On a host that lists a directory the same way each time, the paths that a
/// pattern finds are the first of those that match and stand in the tree, in
/// the order in which they stand there, and all of them where the result is not
/// truncated and there are no more entries than a walk looks at.
pub proof fn full_globs_miss_nothing(
    host: Host,
    pattern: Seq<char>,
    root: Seq<char>,
    max_results: usize,
)
    requires
        pattern.len() > 0,
        pattern_fault(pattern) is None,
    ensures
        ({
            let plan = glob_plan(pattern_paths(pattern), root, max_results);
            let all = whole(plan, host);
            let s = survey(plan, steady(host));
            let found = matched_of(root, s.tally);
            &&& served(
                globbing(),
                steady(host),
                0,
                glob_start(pattern, root, max_results, pattern_fault(pattern)),
                s.dirs.len(),
            ) == StepView::<GlobSearchView, GlobResponseView>::Finish(Ok(found))
            &&& found.hits.len() <= all.hits.len()
            &&& found.hits == globbed_of(root, all.hits).take(found.hits.len() as int)
            &&& !found.truncated && all.entries <= MAX_SCANNED ==> found.hits == globbed_of(
                root,
                all.hits,
            )
        }),
{
    let plan = glob_plan(pattern_paths(pattern), root, max_results);
    let s = survey(plan, steady(host));
    let all = whole(plan, host);
    let found = matched_of(root, s.tally);
    glob_finds_the_matches(steady(host), pattern, root, max_results);
    walk_is_complete(plan, host);
    assert(found.hits =~= globbed_of(root, all.hits).take(found.hits.len() as int));
    assert(!found.truncated && all.entries <= MAX_SCANNED ==> !over(s.tally));
}

/// The files of a list are those that were collected, each as often as it was,
/// in the order of the dictionary where case does not count; those that are the
/// same then stay in the order in which they were collected.
pub proof fn lists_are_in_caseless_order(t: TallyView)
    ensures
        exists|p: Seq<int>|
            {
                let files = files_of(t).files;
                &&& #[trigger] p.no_duplicates()
                &&& p.len() == t.hits.len() && files.len() == t.hits.len()
                &&& forall|k: int|
                    0 <= k < p.len() ==> 0 <= p[k] < t.hits.len() && #[trigger] files[k]
                        == t.hits[p[k]].rel
                &&& forall|i: int, j: int|
                    0 <= i < j < p.len() ==> {
                        let x = lowercase(#[trigger] files[i]);
                        let y = lowercase(#[trigger] files[j]);
                        &&& !text_before(y, x)
                        &&& x == y ==> p[i] < p[j]
                    }
            },
{
    let items = rels(t.hits);
    let key = |s: Seq<char>| caseless(s);
    let keys = keys_of(items, key);
    let p = lemma_order_exists(keys);
    lemma_sorted(items, key, p);
    let files = files_of(t).files;
    assert forall|i: int, j: int| 0 <= i < j < p.len() implies p[i] != p[j] by {
        lemma_asymmetric(keys, p[i], p[j]);
    }
    assert(p.no_duplicates());
    assert forall|k: int| 0 <= k < p.len() implies 0 <= p[k] < t.hits.len() && #[trigger] files[k]
        == t.hits[p[k]].rel by {
        assert(0 <= p[k] < keys.len());
    }
    assert forall|i: int, j: int| 0 <= i < j < p.len() implies ({
        let x = lowercase(#[trigger] files[i]);
        let y = lowercase(#[trigger] files[j]);
        &&& !text_before(y, x)
        &&& x == y ==> p[i] < p[j]
    }) by {
        assert(goes_first(keys, p[i], p[j]));
        lemma_asymmetric(keys, p[i], p[j]);
        let x = lowercase(files[i]);
        let y = lowercase(files[j]);
        the_dictionary_goes_by_the_first_difference(x, x, x);
        sorted_goes_by_key(items, key, i, j);
    }
}

/// The hits of a search are what was collected, each with its path below the
/// root, its path from the root, its name and whether it is a directory. Those
/// whose name holds what was searched for come first, and of those and of the
/// others the ones whose path has fewer bytes; the rest stays in the order in
/// which it was collected.
pub proof fn hits_are_ranked(root: Seq<char>, q: Seq<char>, t: TallyView)
    ensures
        exists|p: Seq<int>|
            {
                let hits = found_of(root, q, t).hits;
                &&& #[trigger] p.no_duplicates()
                &&& p.len() == t.hits.len() && hits.len() == t.hits.len()
                &&& forall|k: int|
                    0 <= k < p.len() ==> {
                        let v = t.hits[p[k]];
                        &&& 0 <= p[k] < t.hits.len()
                        &&& (#[trigger] hits[k]).path == below(root, v.rel)
                        &&& hits[k].rel == v.rel
                        &&& hits[k].name == v.name
                        &&& hits[k].is_dir == v.is_dir
                    }
                &&& forall|i: int, j: int|
                    0 <= i < j < p.len() ==> {
                        let a = #[trigger] hits[i];
                        let b = #[trigger] hits[j];
                        let a_named = occurs(q, lowercase(a.name));
                        let b_named = occurs(q, lowercase(b.name));
                        let x = encode_utf8(a.rel).len();
                        let y = encode_utf8(b.rel).len();
                        &&& b_named ==> a_named
                        &&& a_named == b_named ==> x <= y
                        &&& a_named == b_named && x == y ==> p[i] < p[j]
                    }
            },
{
    let items = hits_of(root, t.hits);
    let key = |h: SearchHit<Seq<char>>| hit_key(q, h);
    let keys = keys_of(items, key);
    let p = lemma_order_exists(keys);
    lemma_sorted(items, key, p);
    let hits = found_of(root, q, t).hits;
    let none = Seq::<char>::empty();
    the_dictionary_goes_by_the_first_difference(none, none, none);
    assert forall|i: int, j: int| 0 <= i < j < p.len() implies p[i] != p[j] by {
        lemma_asymmetric(keys, p[i], p[j]);
    }
    assert(p.no_duplicates());
    assert forall|k: int| 0 <= k < p.len() implies ({
        let v = t.hits[p[k]];
        &&& 0 <= p[k] < t.hits.len()
        &&& (#[trigger] hits[k]).path == below(root, v.rel)
        &&& hits[k].rel == v.rel
        &&& hits[k].name == v.name
        &&& hits[k].is_dir == v.is_dir
    }) by {
        assert(0 <= p[k] < keys.len());
    }
    assert forall|i: int, j: int| 0 <= i < j < p.len() implies ({
        let a = #[trigger] hits[i];
        let b = #[trigger] hits[j];
        let a_named = occurs(q, lowercase(a.name));
        let b_named = occurs(q, lowercase(b.name));
        let x = encode_utf8(a.rel).len();
        let y = encode_utf8(b.rel).len();
        &&& b_named ==> a_named
        &&& a_named == b_named ==> x <= y
        &&& a_named == b_named && x == y ==> p[i] < p[j]
    }) by {
        assert(goes_first(keys, p[i], p[j]));
        assert(keys[p[i]] == hit_key(q, hits[i]) && keys[p[j]] == hit_key(q, hits[j]));
    }
}

/// A list of files that is not truncated holds the path of exactly those entries
/// that stand below the root, count, are no directories and are not too deep;
/// one that is truncated holds no others.
pub proof fn lists_hold_the_files_that_stand_there(
    host: Host,
    root: Seq<char>,
    limit: usize,
    max_depth: usize,
    show_hidden: bool,
    path: Seq<char>,
)
    requires
        lists_names(host),
    ensures
        ({
            let start = list_files_start(root, limit, max_depth, show_hidden);
            let n = survey(files_plan(root, limit, max_depth, show_hidden), steady(host)).dirs.len();
            let there = exists|names: Seq<Seq<char>>, e: Entry<Seq<char>>|
                #![trigger stands_below(root, show_hidden, host, names, e)]
                stands_below(root, show_hidden, host, names, e) && names.len() <= max_depth
                    && !is_folder(e) && path == path_of(names, e);
            &&& served(listing(), steady(host), 0, start, n) matches Step::Finish(Ok(found))
            &&& found.files.contains(path) ==> there
            &&& !found.truncated ==> (found.files.contains(path) <==> there)
            &&& found.files.len() <= limit || found.files.len() == 1
        }),
{
    let plan = files_plan(root, limit, max_depth, show_hidden);
    let t = survey(plan, steady(host)).tally;
    let found = files_of(t);
    listing_finds_the_files(steady(host), root, limit, max_depth, show_hidden);
    lemma_sorted_members(rels(t.hits), |s: Seq<char>| caseless(s), path);
    if found.files.contains(path) {
        let i = choose|i: int| 0 <= i < rels(t.hits).len() && rels(t.hits)[i] == path;
        assert(t.hits.contains(t.hits[i]));
        walks_collect_what_stands_there(plan, host, t.hits[i]);
    }
    if !over(t) && exists|names: Seq<Seq<char>>, e: Entry<Seq<char>>|
        #![trigger stands_below(root, show_hidden, host, names, e)]
        stands_below(root, show_hidden, host, names, e) && names.len() <= max_depth && !is_folder(e)
            && path == path_of(names, e) {
        let (names, e) = choose|names: Seq<Seq<char>>, e: Entry<Seq<char>>|
            #![trigger stands_below(root, show_hidden, host, names, e)]
            stands_below(root, show_hidden, host, names, e) && names.len() <= max_depth
                && !is_folder(e) && path == path_of(names, e);
        let v = Visit { rel: path_of(names, e), name: e.name->0, is_dir: is_folder(e) };
        nothing_that_stands_there_is_missed(plan, host, names, e, v);
        let i = choose|i: int| 0 <= i < t.hits.len() && t.hits[i] == v;
        assert(rels(t.hits)[i] == path);
    }
}

/// A search that is not truncated finds exactly the entries that stand below
/// the root, count, are at most 64 levels down and whose path from the root, in
/// lower case, holds the query in lower case and without white space around it:
/// each with its name, its path, and whether it is a directory and no link. One
/// that is truncated finds no others.
pub proof fn searches_find_what_stands_there(
    host: Host,
    root: Seq<char>,
    query: Seq<char>,
    limit: usize,
    show_hidden: bool,
    h: SearchHit<Seq<char>>,
)
    requires
        lists_names(host),
        lowercase(trimmed(query)).len() > 0,
    ensures
        ({
            let q = lowercase(trimmed(query));
            let start = search_start(root, query, limit, show_hidden);
            let n = survey(search_plan(root, q, limit, show_hidden), steady(host)).dirs.len();
            let there = exists|names: Seq<Seq<char>>, e: Entry<Seq<char>>|
                #![trigger stands_below(root, show_hidden, host, names, e)]
                stands_below(root, show_hidden, host, names, e) && names.len() <= 64 && h.rel
                    == path_of(names, e) && occurs(q, lowercase(h.rel)) && Some(h.name) == e.name
                    && h.path == below(path_to(root, names), h.name) && h.is_dir == (
                e.attrs.is_dir && !e.attrs.is_symlink);
            &&& served(searching(), steady(host), 0, start, n) matches Step::Finish(Ok(found))
            &&& found.hits.contains(h) ==> there
            &&& !found.truncated ==> (found.hits.contains(h) <==> there)
            &&& found.hits.len() <= limit || found.hits.len() == 1
        }),
{
    let q = needle(query);
    let plan = search_plan(root, q, limit, show_hidden);
    let t = survey(plan, steady(host)).tally;
    let found = found_of(root, q, t);
    search_finds_the_query(steady(host), root, query, limit, show_hidden);
    let items = hits_of(root, t.hits);
    lemma_sorted_members(items, |h: SearchHit<Seq<char>>| hit_key(q, h), h);
    if found.hits.contains(h) {
        let i = choose|i: int| 0 <= i < items.len() && items[i] == h;
        let v = t.hits[i];
        assert(t.hits.contains(v));
        walks_collect_what_stands_there(plan, host, v);
        let (names, e) = choose|names: Seq<Seq<char>>, e: Entry<Seq<char>>|
            #![trigger stands_below(root, show_hidden, host, names, e)]
            stands_below(root, show_hidden, host, names, e) && names.len() <= plan.max_depth
                && is_of(v, names, e) && wanted(plan.want, v);
        path_of_stands_below_the_root(host, root, show_hidden, names, e);
        assert(stands_below(root, show_hidden, host, names, e));
    }
    if !over(t) && exists|names: Seq<Seq<char>>, e: Entry<Seq<char>>|
        #![trigger stands_below(root, show_hidden, host, names, e)]
        stands_below(root, show_hidden, host, names, e) && names.len() <= 64 && h.rel == path_of(
            names,
            e,
        ) && occurs(q, lowercase(h.rel)) && Some(h.name) == e.name && h.path == below(
            path_to(root, names),
            h.name,
        ) && h.is_dir == (e.attrs.is_dir && !e.attrs.is_symlink) {
        let (names, e) = choose|names: Seq<Seq<char>>, e: Entry<Seq<char>>|
            #![trigger stands_below(root, show_hidden, host, names, e)]
            stands_below(root, show_hidden, host, names, e) && names.len() <= 64 && h.rel
                == path_of(names, e) && occurs(q, lowercase(h.rel)) && Some(h.name) == e.name
                && h.path == below(path_to(root, names), h.name) && h.is_dir == (e.attrs.is_dir
                && !e.attrs.is_symlink);
        path_of_stands_below_the_root(host, root, show_hidden, names, e);
        let v = Visit { rel: path_of(names, e), name: e.name->0, is_dir: is_folder(e) };
        nothing_that_stands_there_is_missed(plan, host, names, e, v);
        let i = choose|i: int| 0 <= i < t.hits.len() && t.hits[i] == v;
        assert(items[i] == h);
    }
}

/// Matching a pattern finds exactly the entries that stand below the root, names
/// with a dot in front among them, that count, are no directories, are at most
/// 64 levels down and whose path from the root matches, as long as the result is
/// not truncated and there are no more than 50,000 entries, and else no others.
pub proof fn globs_find_what_stands_there(
    host: Host,
    pattern: Seq<char>,
    root: Seq<char>,
    max_results: usize,
    h: GlobHit<Seq<char>>,
)
    requires
        lists_names(host),
        pattern.len() > 0,
        pattern_fault(pattern) is None,
    ensures
        ({
            let start = glob_start(pattern, root, max_results, pattern_fault(pattern));
            let plan = glob_plan(pattern_paths(pattern), root, max_results);
            let n = survey(plan, steady(host)).dirs.len();
            let there = exists|names: Seq<Seq<char>>, e: Entry<Seq<char>>|
                #![trigger stands_below(root, true, host, names, e)]
                stands_below(root, true, host, names, e) && names.len() <= 64 && !(e.attrs.is_dir
                    && !e.attrs.is_symlink) && h.rel == path_of(names, e) && pattern_paths(
                    pattern,
                ).contains(h.rel) && h.path == below(path_to(root, names), e.name->0);
            &&& served(globbing(), steady(host), 0, start, n) matches Step::Finish(Ok(found))
            &&& found.hits.contains(h) ==> there
            &&& !found.truncated && whole(plan, host).entries <= 50_000 ==> (found.hits.contains(h)
                <==> there)
            &&& found.hits.len() <= max_results || found.hits.len() == 1
            &&& forall|i: int|
                0 <= i < found.hits.len() ==> (#[trigger] found.hits[i]).rel == whole(
                    plan,
                    host,
                ).hits[i].rel
        }),
{
    let plan = glob_plan(pattern_paths(pattern), root, max_results);
    let t = survey(plan, steady(host)).tally;
    let found = matched_of(root, t);
    let all = whole(plan, host);
    glob_finds_the_matches(steady(host), pattern, root, max_results);
    full_globs_miss_nothing(host, pattern, root, max_results);
    walk_is_complete(plan, host);
    assert forall|i: int| 0 <= i < found.hits.len() implies (#[trigger] found.hits[i]).rel
        == all.hits[i].rel by {
        assert(t.hits[i] == all.hits.take(t.hits.len() as int)[i]);
    }
    if found.hits.contains(h) {
        let i = choose|i: int| 0 <= i < found.hits.len() && found.hits[i] == h;
        let v = t.hits[i];
        assert(t.hits.contains(v));
        walks_collect_what_stands_there(plan, host, v);
        let (names, e) = choose|names: Seq<Seq<char>>, e: Entry<Seq<char>>|
            #![trigger stands_below(root, true, host, names, e)]
            stands_below(root, true, host, names, e) && names.len() <= plan.max_depth && is_of(
                v,
                names,
                e,
            ) && wanted(plan.want, v);
        path_of_stands_below_the_root(host, root, true, names, e);
        assert(stands_below(root, true, host, names, e));
    }
    if !over(t) && exists|names: Seq<Seq<char>>, e: Entry<Seq<char>>|
        #![trigger stands_below(root, true, host, names, e)]
        stands_below(root, true, host, names, e) && names.len() <= 64 && !(e.attrs.is_dir
            && !e.attrs.is_symlink) && h.rel == path_of(names, e) && pattern_paths(
            pattern,
        ).contains(h.rel) && h.path == below(path_to(root, names), e.name->0) {
        let (names, e) = choose|names: Seq<Seq<char>>, e: Entry<Seq<char>>|
            #![trigger stands_below(root, true, host, names, e)]
            stands_below(root, true, host, names, e) && names.len() <= 64 && !(e.attrs.is_dir
                && !e.attrs.is_symlink) && h.rel == path_of(names, e) && pattern_paths(
                pattern,
            ).contains(h.rel) && h.path == below(path_to(root, names), e.name->0);
        path_of_stands_below_the_root(host, root, true, names, e);
        let v = Visit { rel: path_of(names, e), name: e.name->0, is_dir: is_folder(e) };
        nothing_that_stands_there_is_missed(plan, host, names, e, v);
        let i = choose|i: int| 0 <= i < t.hits.len() && t.hits[i] == v;
        assert(found.hits[i] == h);
    }
}

/// Limits are told of: a list of files, and a search, is truncated exactly where
/// as much is there as was asked for, and something at all, or where there are
/// more than 50,000 entries. Matching a pattern tells of the first alone. What
/// is there is counted by a walk without limits.
pub proof fn truncation_tells_of_the_limits(
    host: Host,
    root: Seq<char>,
    limit: usize,
    max_depth: usize,
    show_hidden: bool,
    q: Seq<char>,
    paths: Set<Seq<char>>,
)
    ensures
        ({
            let plan = files_plan(root, limit, max_depth, show_hidden);
            let all = whole(plan, host);
            let enough = all.hits.len() > 0 && all.hits.len() >= limit;
            files_of(survey(plan, steady(host)).tally).truncated <==> enough || all.entries > 50_000
        }),
        ({
            let plan = search_plan(root, q, limit, show_hidden);
            let all = whole(plan, host);
            let enough = all.hits.len() > 0 && all.hits.len() >= limit;
            found_of(root, q, survey(plan, steady(host)).tally).truncated <==> enough || all.entries
                > 50_000
        }),
        ({
            let plan = glob_plan(paths, root, limit);
            let all = whole(plan, host);
            let enough = all.hits.len() > 0 && all.hits.len() >= limit;
            let found = matched_of(root, survey(plan, steady(host)).tally);
            &&& found.truncated ==> enough
            &&& enough && all.entries <= 50_000 ==> found.truncated
            &&& found.truncated <==> found.hits.len() > 0 && found.hits.len() >= limit
        }),
{
    let p1 = files_plan(root, limit, max_depth, show_hidden);
    let p2 = search_plan(root, q, limit, show_hidden);
    let p3 = glob_plan(paths, root, limit);
    walk_is_complete(p1, host);
    walk_is_complete(p2, host);
    walk_is_complete(p3, host);
    walk_is_bounded(p3, steady(host));
}

/// A pattern that is empty or has a fault ends matching before anything is asked
/// for, and says why.
pub proof fn bad_patterns_are_refused(
    pattern: Seq<char>,
    root: Seq<char>,
    max_results: usize,
    fault: Option<Seq<char>>,
)
    ensures
        glob_start(Seq::empty(), root, max_results, fault) == StepView::<
            GlobSearchView,
            GlobResponseView,
        >::Finish(Err("empty pattern"@)),
        pattern.len() > 0 && fault is Some ==> glob_start(pattern, root, max_results, fault)
            == StepView::<GlobSearchView, GlobResponseView>::Finish(Err("bad glob: "@ + fault->0)),
        pattern.len() > 0 && fault is None ==> (glob_start(
            pattern,
            root,
            max_results,
            fault,
        ) matches Step::Ask { request, state } && request == Request::List(root)),
{
}

} // verus!
