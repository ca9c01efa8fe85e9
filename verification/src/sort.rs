//! Stable sorting by a key: a rank, then a weight, then a text.
use vstd::prelude::*;

verus! {

/// What items are ordered by; the text is compared character by character.
pub struct SortKey<W = usize, T = Vec<char>> {
    pub rank: u8,
    pub weight: W,
    pub text: T,
}

/// What items are ordered by, as contracts speak of it.
pub type Key = SortKey<nat, Seq<char>>;

impl View for SortKey {
    type V = Key;

    open spec fn view(&self) -> Key {
        SortKey { rank: self.rank, weight: self.weight as nat, text: self.text@ }
    }
}

/// Whether `a` stands strictly before `b` in the dictionary.
pub open spec fn text_before(a: Seq<char>, b: Seq<char>) -> bool
    decreases a.len(),
{
    if b.len() == 0 {
        false
    } else if a.len() == 0 {
        true
    } else if a[0] != b[0] {
        a[0] < b[0]
    } else {
        text_before(a.drop_first(), b.drop_first())
    }
}

/// Whether an item with key `a` belongs strictly before one with key `b`.
pub open spec fn key_before(a: Key, b: Key) -> bool {
    a.rank < b.rank || (a.rank == b.rank && (a.weight < b.weight || (a.weight == b.weight
        && text_before(a.text, b.text))))
}

/// Whether item `x` belongs before item `y`: by their keys, or where those do
/// not decide, by the order in which the items came.
pub open spec fn goes_first(keys: Seq<Key>, x: int, y: int) -> bool {
    key_before(keys[x], keys[y]) || (!key_before(keys[y], keys[x]) && x < y)
}

/// Whether `p` lists the positions of all items, each once, in stable order.
pub open spec fn is_order(keys: Seq<Key>, p: Seq<int>) -> bool {
    &&& p.len() == keys.len()
    &&& forall|k: int| 0 <= k < p.len() ==> 0 <= #[trigger] p[k] < keys.len()
    &&& forall|i: int, j: int| 0 <= i < j < p.len() ==> goes_first(keys, #[trigger] p[i], #[trigger] p[j])
}

/// Positions as mathematical integers.
pub open spec fn as_ints(v: Seq<usize>) -> Seq<int> {
    Seq::new(v.len(), |i: int| v[i] as int)
}

/// The keys of items.
pub open spec fn keys_of<A>(items: Seq<A>, key: spec_fn(A) -> Key) -> Seq<Key> {
    Seq::new(items.len(), |i: int| key(items[i]))
}

/// The items that the positions of `p` list.
pub open spec fn arranged<A>(items: Seq<A>, p: Seq<int>) -> Seq<A> {
    Seq::new(p.len(), |k: int| items[p[k]])
}

/// The items in stable order by their keys.
pub open spec fn sorted<A>(items: Seq<A>, key: spec_fn(A) -> Key) -> Seq<A> {
    arranged(items, choose|p: Seq<int>| is_order(keys_of(items, key), p))
}

proof fn lemma_text_asymmetric(a: Seq<char>, b: Seq<char>)
    ensures
        !(text_before(a, b) && text_before(b, a)),
    decreases a.len(),
{
    if a.len() > 0 && b.len() > 0 && a[0] == b[0] {
        lemma_text_asymmetric(a.drop_first(), b.drop_first());
    }
}

proof fn lemma_text_transitive(a: Seq<char>, b: Seq<char>, c: Seq<char>)
    ensures
        text_before(a, b) && text_before(b, c) ==> text_before(a, c),
        !text_before(b, a) && !text_before(c, b) ==> !text_before(c, a),
    decreases a.len() + b.len() + c.len(),
{
    if a.len() > 0 && b.len() > 0 && c.len() > 0 {
        lemma_text_transitive(a.drop_first(), b.drop_first(), c.drop_first());
    }
}

/// Of two items at most one goes before the other.
pub proof fn lemma_asymmetric(keys: Seq<Key>, x: int, y: int)
    ensures
        !(goes_first(keys, x, y) && goes_first(keys, y, x)),
{
    lemma_text_asymmetric(keys[x].text, keys[y].text);
}

proof fn lemma_transitive(keys: Seq<Key>, x: int, y: int, z: int)
    requires
        goes_first(keys, x, y),
        goes_first(keys, y, z),
    ensures
        goes_first(keys, x, z),
{
    lemma_text_transitive(keys[x].text, keys[y].text, keys[z].text);
    lemma_text_transitive(keys[y].text, keys[z].text, keys[x].text);
    lemma_text_transitive(keys[z].text, keys[x].text, keys[y].text);
    lemma_text_asymmetric(keys[x].text, keys[y].text);
    lemma_text_asymmetric(keys[y].text, keys[z].text);
    lemma_text_asymmetric(keys[x].text, keys[z].text);
}

/// A stable order lists every item.
pub proof fn lemma_order_covers(keys: Seq<Key>, p: Seq<int>, x: int)
    requires
        is_order(keys, p),
        0 <= x < keys.len(),
    ensures
        p.contains(x),
{
    assert forall|i: int, j: int| 0 <= i < j < p.len() implies p[i] != p[j] by {
        lemma_asymmetric(keys, p[i], p[j]);
    }
    assert(p.no_duplicates());
    p.unique_seq_to_set();
    let all = vstd::set_lib::set_int_range(0, keys.len() as int);
    vstd::set_lib::lemma_int_range(0, keys.len() as int);
    assert(p.to_set().subset_of(all)) by {
        assert forall|e: int| p.to_set().contains(e) implies all.contains(e) by {
            assert(p.contains(e));
        }
    }
    vstd::set_lib::lemma_subset_equality(p.to_set(), all);
    assert(p.to_set().contains(x));
}

/// Items have one stable order only.
pub proof fn stable_order_is_unique(keys: Seq<Key>, p: Seq<int>, q: Seq<int>)
    requires
        is_order(keys, p),
        is_order(keys, q),
    ensures
        p == q,
{
    assert forall|k: int| 0 <= k < p.len() implies p[k] == q[k] by {
        lemma_orders_agree(keys, p, q, k);
    }
    assert(p =~= q);
}

proof fn lemma_orders_agree(keys: Seq<Key>, p: Seq<int>, q: Seq<int>, k: int)
    requires
        is_order(keys, p),
        is_order(keys, q),
        0 <= k < p.len(),
    ensures
        p[k] == q[k],
    decreases k,
{
    assert forall|j: int| 0 <= j < k implies #[trigger] p[j] == q[j] by {
        lemma_orders_agree(keys, p, q, j);
    }
    lemma_order_covers(keys, p, q[k]);
    lemma_order_covers(keys, q, p[k]);
    let m = choose|m: int| 0 <= m < p.len() && p[m] == q[k];
    let n = choose|n: int| 0 <= n < q.len() && q[n] == p[k];
    if p[k] != q[k] {
        if m < k {
            assert(q[m] == p[m]);
            lemma_asymmetric(keys, q[m], q[k]);
        }
        if n < k {
            assert(q[n] == p[n]);
            lemma_asymmetric(keys, p[n], p[k]);
        }
        assert(goes_first(keys, p[k], p[m]));
        assert(goes_first(keys, q[k], q[n]));
        lemma_asymmetric(keys, p[k], q[k]);
    }
}

/// Arranging items in a stable order sorts them.
pub proof fn lemma_sorted<A>(
    items: Seq<A>,
    key: spec_fn(A) -> Key,
    p: Seq<int>,
)
    requires
        is_order(keys_of(items, key), p),
    ensures
        sorted(items, key) == arranged(items, p),
{
    let q = choose|q: Seq<int>| is_order(keys_of(items, key), q);
    stable_order_is_unique(keys_of(items, key), p, q);
}

/// Items have a stable order.
pub proof fn lemma_order_exists(keys: Seq<Key>) -> (p: Seq<int>)
    ensures
        is_order(keys, p),
{
    let all = Seq::new(keys.len(), |i: int| i);
    let leq = |x: int, y: int| x == y || goes_first(keys, x, y);
    assert forall|x: int, y: int| #[trigger] leq(x, y) && #[trigger] leq(y, x) implies x == y by {
        lemma_asymmetric(keys, x, y);
    }
    assert forall|x: int, y: int, z: int| #[trigger] leq(x, y) && #[trigger] leq(y, z) implies leq(
        x,
        z,
    ) by {
        if x != y && y != z {
            lemma_transitive(keys, x, y, z);
        }
    }
    all.lemma_sort_by_ensures(leq);
    let p = all.sort_by(leq);
    assert(all.no_duplicates());
    all.lemma_multiset_has_no_duplicates();
    p.lemma_multiset_has_no_duplicates_conv();
    assert(p.len() == all.len()) by {
        broadcast use vstd::seq_lib::group_to_multiset_ensures;

        assert(p.to_multiset().len() == p.len());
        assert(all.to_multiset().len() == all.len());
    }
    assert forall|k: int| 0 <= k < p.len() implies 0 <= #[trigger] p[k] < keys.len() by {
        assert(p.contains(p[k]));
        assert(all.contains(p[k]));
    }
    assert forall|i: int, j: int| 0 <= i < j < p.len() implies goes_first(
        keys,
        #[trigger] p[i],
        #[trigger] p[j],
    ) by {
        assert(leq(p[i], p[j]));
        assert(p[i] != p[j]);
    }
    p
}

/// Sorting rearranges: every item appears as often as before, no item stands
/// before one that belongs before it, and items that neither belongs before
/// the other keep the order in which they came.
pub proof fn sorting_rearranges<A>(items: Seq<A>, key: spec_fn(A) -> Key)
    ensures
        exists|p: Seq<int>|
            {
                &&& #[trigger] arranged(items, p) == sorted(items, key)
                &&& p.len() == items.len()
                &&& p.no_duplicates()
                &&& forall|x: int| 0 <= x < items.len() ==> #[trigger] p.contains(x)
                &&& forall|i: int, j: int|
                    0 <= i < j < p.len() ==> goes_first(
                        keys_of(items, key),
                        #[trigger] p[i],
                        #[trigger] p[j],
                    )
            },
{
    let keys = keys_of(items, key);
    let p = lemma_order_exists(keys);
    lemma_sorted(items, key, p);
    assert forall|i: int, j: int| 0 <= i < j < p.len() implies p[i] != p[j] by {
        lemma_asymmetric(keys, p[i], p[j]);
    }
    assert forall|x: int| 0 <= x < items.len() implies #[trigger] p.contains(x) by {
        lemma_order_covers(keys, p, x);
    }
    assert(arranged(items, p) == sorted(items, key));
}

/// Of sorted items none stands behind one that belongs behind it.
pub proof fn sorted_goes_by_key<A>(items: Seq<A>, key: spec_fn(A) -> Key, i: int, j: int)
    requires
        0 <= i < j < items.len(),
    ensures
        !key_before(key(sorted(items, key)[j]), key(sorted(items, key)[i])),
{
    let keys = keys_of(items, key);
    let p = lemma_order_exists(keys);
    lemma_sorted(items, key, p);
    assert(goes_first(keys, p[i], p[j]));
    lemma_text_asymmetric(keys[p[i]].text, keys[p[j]].text);
}

/// Sorting loses nothing and adds nothing.
pub proof fn lemma_sorted_members<A>(items: Seq<A>, key: spec_fn(A) -> Key, a: A)
    ensures
        sorted(items, key).len() == items.len(),
        sorted(items, key).contains(a) <==> items.contains(a),
{
    let keys = keys_of(items, key);
    let p = lemma_order_exists(keys);
    lemma_sorted(items, key, p);
    let out = arranged(items, p);
    if items.contains(a) {
        let x = choose|x: int| 0 <= x < items.len() && items[x] == a;
        lemma_order_covers(keys, p, x);
        let k = choose|k: int| 0 <= k < p.len() && p[k] == x;
        assert(out[k] == a);
    }
    if out.contains(a) {
        let k = choose|k: int| 0 <= k < out.len() && out[k] == a;
        assert(0 <= p[k] < items.len());
        assert(items[p[k]] == a);
    }
}

fn is_text_before(a: &Vec<char>, b: &Vec<char>) -> (r: bool)
    ensures
        r == text_before(a@, b@),
{
    let mut i: usize = 0;
    assert(a@.skip(0) =~= a@);
    assert(b@.skip(0) =~= b@);
    while i < a.len() && i < b.len()
        invariant
            i <= a@.len(),
            i <= b@.len(),
            text_before(a@, b@) == text_before(a@.skip(i as int), b@.skip(i as int)),
        decreases a@.len() - i,
    {
        if a[i] != b[i] {
            return a[i] < b[i];
        }
        assert(a@.skip(i as int).drop_first() =~= a@.skip(i + 1));
        assert(b@.skip(i as int).drop_first() =~= b@.skip(i + 1));
        i = i + 1;
    }
    i < b.len()
}

fn is_key_before(a: &SortKey, b: &SortKey) -> (r: bool)
    ensures
        r == key_before(a@, b@),
{
    if a.rank != b.rank {
        a.rank < b.rank
    } else if a.weight != b.weight {
        a.weight < b.weight
    } else {
        is_text_before(&a.text, &b.text)
    }
}

/// The views of a list of keys.
pub open spec fn key_views(v: Seq<SortKey>) -> Seq<Key> {
    Seq::new(v.len(), |i: int| v[i]@)
}

/// Whether `v` lists positions from `lo` up to `hi` in stable order.
spec fn in_order(keys: Seq<Key>, v: Seq<usize>, lo: int, hi: int) -> bool {
    &&& forall|k: int| 0 <= k < v.len() ==> lo <= #[trigger] v[k] < hi
    &&& forall|i: int, j: int|
        0 <= i < j < v.len() ==> goes_first(keys, #[trigger] v[i] as int, #[trigger] v[j] as int)
}

fn merge(keys: &Vec<SortKey>, left: &Vec<usize>, right: &Vec<usize>, Ghost(lo): Ghost<int>, Ghost(
    mid,
): Ghost<int>, Ghost(hi): Ghost<int>) -> (out: Vec<usize>)
    requires
        0 <= lo <= mid <= hi <= keys@.len(),
        left@.len() + right@.len() <= usize::MAX,
        in_order(key_views(keys@), left@, lo, mid),
        in_order(key_views(keys@), right@, mid, hi),
    ensures
        out@.len() == left@.len() + right@.len(),
        in_order(key_views(keys@), out@, lo, hi),
{
    let ghost kv = key_views(keys@);
    let mut out: Vec<usize> = Vec::new();
    let mut i: usize = 0;
    let mut j: usize = 0;
    while i < left.len() || j < right.len()
        invariant
            kv == key_views(keys@),
            0 <= lo <= mid <= hi <= keys@.len(),
            left@.len() + right@.len() <= usize::MAX,
            in_order(kv, left@, lo, mid),
            in_order(kv, right@, mid, hi),
            i <= left@.len(),
            j <= right@.len(),
            out@.len() == i + j,
            in_order(kv, out@, lo, hi),
            forall|a: int, b: int|
                0 <= a < out@.len() && i <= b < left@.len() ==> goes_first(
                    kv,
                    #[trigger] out@[a] as int,
                    #[trigger] left@[b] as int,
                ),
            forall|a: int, b: int|
                0 <= a < out@.len() && j <= b < right@.len() ==> goes_first(
                    kv,
                    #[trigger] out@[a] as int,
                    #[trigger] right@[b] as int,
                ),
        decreases left@.len() + right@.len() - i - j,
    {
        let take_left = if i == left.len() {
            false
        } else if j == right.len() {
            true
        } else {
            let x: usize = left[i];
            let y: usize = right[j];
            assert(kv[x as int] == keys@[x as int]@ && kv[y as int] == keys@[y as int]@);
            !is_key_before(&keys[y], &keys[x])
        };
        let ghost before = out@;
        if take_left {
            let x: usize = left[i];
            proof {
                if j < right@.len() {
                    let y = right@[j as int] as int;
                    assert(goes_first(kv, x as int, y));
                    assert forall|b: int| j <= b < right@.len() implies goes_first(
                        kv,
                        x as int,
                        #[trigger] right@[b] as int,
                    ) by {
                        if b > j {
                            lemma_transitive(kv, x as int, y, right@[b] as int);
                        }
                    }
                }
            }
            out.push(x);
            i = i + 1;
        } else {
            let y: usize = right[j];
            proof {
                if i < left@.len() {
                    let x = left@[i as int] as int;
                    assert(goes_first(kv, y as int, x));
                    assert forall|b: int| i <= b < left@.len() implies goes_first(
                        kv,
                        y as int,
                        #[trigger] left@[b] as int,
                    ) by {
                        if b > i {
                            lemma_transitive(kv, y as int, x, left@[b] as int);
                        }
                    }
                }
            }
            out.push(y);
            j = j + 1;
        }
    }
    out
}

fn order_range(keys: &Vec<SortKey>, lo: usize, hi: usize) -> (out: Vec<usize>)
    requires
        lo <= hi <= keys@.len(),
    ensures
        out@.len() == hi - lo,
        in_order(key_views(keys@), out@, lo as int, hi as int),
    decreases hi - lo,
{
    if hi - lo == 0 {
        Vec::new()
    } else if hi - lo == 1 {
        let mut v: Vec<usize> = Vec::new();
        v.push(lo);
        v
    } else {
        let mid: usize = lo + (hi - lo) / 2;
        let left = order_range(keys, lo, mid);
        let right = order_range(keys, mid, hi);
        merge(keys, &left, &right, Ghost(lo as int), Ghost(mid as int), Ghost(hi as int))
    }
}

/// The positions of the keys in stable order.
pub fn stable_order(keys: &Vec<SortKey>) -> (p: Vec<usize>)
    ensures
        is_order(key_views(keys@), as_ints(p@)),
{
    let p = order_range(keys, 0, keys.len());
    assert forall|i: int, j: int| 0 <= i < j < as_ints(p@).len() implies goes_first(
        key_views(keys@),
        #[trigger] as_ints(p@)[i],
        #[trigger] as_ints(p@)[j],
    ) by {
        assert(goes_first(key_views(keys@), p@[i] as int, p@[j] as int));
    }
    p
}

/// The items in stable order by the keys that stand for them.
pub(crate) fn sort_items<A: DeepView>(
    items: Vec<A>,
    keys: &Vec<SortKey>,
    Ghost(key): Ghost<spec_fn(A::V) -> Key>,
) -> (r: Vec<A>)
    requires
        key_views(keys@) == keys_of(items.deep_view(), key),
    ensures
        r.deep_view() == sorted(items.deep_view(), key),
{
    let ghost all = items.deep_view();
    let p = stable_order(keys);
    assert(key_views(keys@).len() == keys@.len());
    let mut left: Vec<Option<A>> = Vec::new();
    for x in it: items
        invariant
            left@.len() == it.index(),
            it.seq() == items@,
            forall|k: int| 0 <= k < left@.len() ==> left@[k] == Some(#[trigger] items@[k]),
    {
        left.push(Some(x));
    }
    assert forall|j: int| 0 <= j < p@.len() implies #[trigger] p@[j] < items@.len() by {
        assert(as_ints(p@)[j] == p@[j]);
    }
    let mut out: Vec<A> = Vec::new();
    let mut k: usize = 0;
    while k < p.len()
        invariant
            k <= p@.len(),
            p@.len() == items@.len() == left@.len(),
            is_order(key_views(keys@), as_ints(p@)),
            key_views(keys@).len() == items@.len(),
            all == items.deep_view(),
            forall|j: int| 0 <= j < p@.len() ==> #[trigger] p@[j] < items@.len(),
            forall|j: int|
                k <= j < p@.len() ==> left@[#[trigger] p@[j] as int] == Some(items@[p@[j] as int]),
            out.deep_view() == arranged(all, as_ints(p@).take(k as int)),
        decreases p@.len() - k,
    {
        let at: usize = p[k];
        assert(as_ints(p@)[k as int] == at);
        let mut taken: Option<A> = None;
        std::mem::swap(&mut taken, &mut left[at]);
        proof {
            assert forall|j: int| k < j < p@.len() implies p@[j] != at by {
                assert(as_ints(p@)[j] == p@[j]);
                assert(goes_first(
                    key_views(keys@),
                    as_ints(p@)[k as int],
                    as_ints(p@)[j],
                ));
                lemma_asymmetric(key_views(keys@), at as int, p@[j] as int);
            }
        }
        match taken {
            Some(x) => {
                let ghost before = out.deep_view();
                out.push(x);
                assert(out.deep_view() =~= before.push(x.deep_view()));
                assert(out.deep_view() =~= arranged(all, as_ints(p@).take(k + 1)));
            },
            None => {},
        }
        k = k + 1;
    }
    proof {
        assert(as_ints(p@).take(k as int) =~= as_ints(p@));
        lemma_sorted(all, key, as_ints(p@));
    }
    out
}

/// In the dictionary a text stands before another where the two agree up to some
/// place, and there the first ends or has the smaller character.
pub proof fn the_dictionary_goes_by_the_first_difference(
    same: Seq<char>,
    a: Seq<char>,
    b: Seq<char>,
)
    ensures
        !text_before(same, same),
        b.len() > 0 ==> text_before(same, same + b) && !text_before(same + b, same),
        a.len() > 0 && b.len() > 0 && a[0] < b[0] ==> text_before(same + a, same + b)
            && !text_before(same + b, same + a),
    decreases same.len(),
{
    if same.len() > 0 {
        let t = same.drop_first();
        the_dictionary_goes_by_the_first_difference(t, a, b);
        assert((same + a).drop_first() =~= t + a);
        assert((same + b).drop_first() =~= t + b);
        assert((same + a)[0] == same[0] && (same + b)[0] == same[0]);
    } else {
        assert(same + a =~= a);
        assert(same + b =~= b);
    }
}

/// The rank decides before the weight, and the weight before the text; the
/// smaller comes first.
pub proof fn ranks_go_before_weights_and_texts(a: Key, b: Key)
    ensures
        a.rank < b.rank ==> key_before(a, b) && !key_before(b, a),
        a.rank == b.rank && a.weight < b.weight ==> key_before(a, b) && !key_before(b, a),
        a.rank == b.rank && a.weight == b.weight ==> (key_before(a, b) <==> text_before(
            a.text,
            b.text,
        )),
{
}

/// The places of the items that are kept, in order.
pub open spec fn kept_places<A>(items: Seq<A>, keep: spec_fn(A) -> bool) -> Seq<int>
    decreases items.len(),
{
    if items.len() == 0 {
        Seq::empty()
    } else if keep(items.last()) {
        kept_places(items.drop_last(), keep).push(items.len() - 1)
    } else {
        kept_places(items.drop_last(), keep)
    }
}

/// The places of the items that are kept rise, and they are all that there are.
pub proof fn lemma_kept_places<A>(items: Seq<A>, keep: spec_fn(A) -> bool)
    ensures
        forall|j: int|
            0 <= j < kept_places(items, keep).len() ==> 0 <= #[trigger] kept_places(items, keep)[j]
                < items.len() && keep(items[kept_places(items, keep)[j]]),
        forall|i: int, j: int|
            0 <= i < j < kept_places(items, keep).len() ==> #[trigger] kept_places(items, keep)[i]
                < #[trigger] kept_places(items, keep)[j],
        forall|x: int|
            #![trigger kept_places(items, keep).contains(x)]
            kept_places(items, keep).contains(x) <==> 0 <= x < items.len() && keep(items[x]),
    decreases items.len(),
{
    if items.len() > 0 {
        let rest = items.drop_last();
        lemma_kept_places(rest, keep);
        let few = kept_places(rest, keep);
        let all = kept_places(items, keep);
        assert forall|j: int| 0 <= j < all.len() implies 0 <= #[trigger] all[j] < items.len()
            && keep(items[all[j]]) by {
            if j < few.len() {
                assert(all[j] == few[j]);
                assert(rest[few[j]] == items[few[j]]);
            }
        }
        assert forall|x: int|
            #![trigger all.contains(x)]
            all.contains(x) <==> 0 <= x < items.len() && keep(items[x]) by {
            if 0 <= x < items.len() && keep(items[x]) {
                if x < rest.len() {
                    assert(rest[x] == items[x]);
                    assert(few.contains(x));
                    let j = choose|j: int| 0 <= j < few.len() && few[j] == x;
                    assert(all[j] == x);
                } else {
                    assert(all[few.len() as int] == x);
                }
            }
        }
    }
}

/// Sorting what was kept of items: each place of one that was kept is listed
/// once, and where the keys do not decide the first comes first.
pub proof fn lemma_kept_order<A, B>(
    items: Seq<A>,
    keep: spec_fn(A) -> bool,
    kept: Seq<B>,
    key: spec_fn(B) -> Key,
) -> (p: Seq<int>)
    requires
        kept.len() == kept_places(items, keep).len(),
    ensures
        p.len() == kept.len(),
        sorted(kept, key).len() == kept.len(),
        p.no_duplicates(),
        forall|x: int|
            #![trigger p.contains(x)]
            p.contains(x) <==> 0 <= x < items.len() && keep(items[x]),
        forall|k: int|
            0 <= k < p.len() ==> 0 <= #[trigger] p[k] < items.len() && exists|j: int|
                0 <= j < kept.len() && #[trigger] kept_places(items, keep)[j] == p[k]
                    && sorted(kept, key)[k] == kept[j],
        forall|i: int, j: int|
            0 <= i < j < p.len() ==> key_before(
                key(#[trigger] sorted(kept, key)[i]),
                key(#[trigger] sorted(kept, key)[j]),
            ) || (!key_before(key(sorted(kept, key)[j]), key(sorted(kept, key)[i])) && p[i] < p[j]),
{
    let places = kept_places(items, keep);
    lemma_kept_places(items, keep);
    let keys = keys_of(kept, key);
    let q = lemma_order_exists(keys);
    lemma_sorted(kept, key, q);
    let p = Seq::new(q.len(), |k: int| places[q[k]]);
    assert forall|i: int, j: int| 0 <= i < j < p.len() implies p[i] != p[j] by {
        lemma_asymmetric(keys, q[i], q[j]);
        assert(q[i] != q[j]);
        if q[i] < q[j] {
            assert(places[q[i]] < places[q[j]]);
        } else {
            assert(places[q[j]] < places[q[i]]);
        }
    }
    assert forall|x: int|
        #![trigger p.contains(x)]
        p.contains(x) <==> 0 <= x < items.len() && keep(items[x]) by {
        if p.contains(x) {
            let k = choose|k: int| 0 <= k < p.len() && p[k] == x;
            assert(0 <= q[k] < keys.len());
            assert(places[q[k]] == x);
            assert(places.contains(x));
        }
        if 0 <= x < items.len() && keep(items[x]) {
            assert(places.contains(x));
            let j = choose|j: int| 0 <= j < places.len() && places[j] == x;
            lemma_order_covers(keys, q, j);
            let k = choose|k: int| 0 <= k < q.len() && q[k] == j;
            assert(p[k] == x);
        }
    }
    assert forall|k: int| 0 <= k < p.len() implies 0 <= #[trigger] p[k] < items.len()
        && exists|j: int|
        0 <= j < kept.len() && #[trigger] kept_places(items, keep)[j] == p[k] && sorted(
            kept,
            key,
        )[k] == kept[j] by {
        assert(0 <= q[k] < keys.len());
        assert(kept_places(items, keep)[q[k]] == p[k]);
    }
    assert forall|i: int, j: int| 0 <= i < j < p.len() implies key_before(
        key(#[trigger] sorted(kept, key)[i]),
        key(#[trigger] sorted(kept, key)[j]),
    ) || (!key_before(key(sorted(kept, key)[j]), key(sorted(kept, key)[i])) && p[i] < p[j]) by {
        assert(goes_first(keys, q[i], q[j]));
        if q[i] < q[j] {
            assert(places[q[i]] < places[q[j]]);
        }
    }
    p
}

} // verus!
