//! A table of values by name, in the order in which the names came.
use vstd::prelude::*;
use vstd::string::*;

use crate::text::same;

verus! {

/// Where a name stands in a table, or the length where it does not.
pub open spec fn position<T>(t: Seq<(Seq<char>, T)>, key: Seq<char>) -> int
    decreases t.len(),
{
    if t.len() == 0 || t[0].0 == key {
        0
    } else {
        1 + position(t.drop_first(), key)
    }
}

/// The value under a name.
pub open spec fn lookup<T>(t: Seq<(Seq<char>, T)>, key: Seq<char>) -> Option<T> {
    if position(t, key) < t.len() {
        Some(t[position(t, key)].1)
    } else {
        None
    }
}

/// A table with a value put under a name, in place of what stood there.
pub open spec fn put<T>(t: Seq<(Seq<char>, T)>, key: Seq<char>, value: T) -> Seq<(Seq<char>, T)> {
    if position(t, key) < t.len() {
        t.update(position(t, key), (key, value))
    } else {
        t.push((key, value))
    }
}

/// A table without what stands under a name.
pub open spec fn without<T>(t: Seq<(Seq<char>, T)>, key: Seq<char>) -> Seq<(Seq<char>, T)> {
    if position(t, key) < t.len() {
        t.remove(position(t, key))
    } else {
        t
    }
}

/// Whether no name stands twice.
pub open spec fn distinct<T>(t: Seq<(Seq<char>, T)>) -> bool {
    forall|i: int, j: int| 0 <= i < j < t.len() ==> (#[trigger] t[i]).0 != (#[trigger] t[j]).0
}

/// What singles out the position of a name.
pub proof fn lemma_position<T>(t: Seq<(Seq<char>, T)>, key: Seq<char>, k: int)
    requires
        0 <= k <= t.len(),
        forall|j: int| 0 <= j < k ==> (#[trigger] t[j]).0 != key,
        k < t.len() ==> t[k].0 == key,
    ensures
        position(t, key) == k,
    decreases k,
{
    if k > 0 {
        assert(t[0].0 != key);
        let rest = t.drop_first();
        assert forall|j: int| 0 <= j < k - 1 implies (#[trigger] rest[j]).0 != key by {
            assert(rest[j] == t[j + 1]);
        }
        lemma_position(rest, key, k - 1);
    }
}

/// The position of a name is where it stands first.
pub proof fn lemma_position_found<T>(t: Seq<(Seq<char>, T)>, key: Seq<char>)
    ensures
        0 <= position(t, key) <= t.len(),
        position(t, key) < t.len() ==> t[position(t, key)].0 == key,
        forall|j: int| 0 <= j < position(t, key) ==> (#[trigger] t[j]).0 != key,
    decreases t.len(),
{
    if t.len() > 0 && t[0].0 != key {
        let rest = t.drop_first();
        lemma_position_found(rest, key);
        assert forall|j: int| 0 <= j < position(t, key) implies (#[trigger] t[j]).0 != key by {
            if j > 0 {
                assert(rest[j - 1] == t[j]);
            }
        }
    }
}

/// What was put under a name is found there, and every other name keeps what
/// it had; no name comes to stand twice.
pub proof fn put_is_found<T>(t: Seq<(Seq<char>, T)>, key: Seq<char>, value: T, other: Seq<char>)
    requires
        distinct(t),
    ensures
        lookup(put(t, key, value), key) == Some(value),
        other != key ==> lookup(put(t, key, value), other) == lookup(t, other),
        distinct(put(t, key, value)),
{
    let k = position(t, key);
    let u = put(t, key, value);
    lemma_position_found(t, key);
    lemma_position_found(t, other);
    lemma_position(u, key, k);
    let m = position(t, other);
    if other != key {
        if m < t.len() {
            lemma_position(u, other, m);
        } else {
            assert forall|j: int| 0 <= j < u.len() implies (#[trigger] u[j]).0 != other by {
                if j < t.len() && j != k {
                    assert(t[j].0 != other);
                }
            }
            lemma_position(u, other, u.len() as int);
        }
    }
    assert forall|i: int, j: int| 0 <= i < j < u.len() implies (#[trigger] u[i]).0 != (
    #[trigger] u[j]).0 by {
        if j < t.len() {
            assert(t[i].0 != t[j].0);
        }
    }
}

/// What was removed is gone, and every other name keeps what it had; no name
/// comes to stand twice.
pub proof fn removed_is_gone<T>(t: Seq<(Seq<char>, T)>, key: Seq<char>, other: Seq<char>)
    requires
        distinct(t),
    ensures
        lookup(without(t, key), key) is None,
        other != key ==> lookup(without(t, key), other) == lookup(t, other),
        distinct(without(t, key)),
{
    let k = position(t, key);
    let u = without(t, key);
    lemma_position_found(t, key);
    lemma_position_found(t, other);
    if k < t.len() {
        assert forall|i: int, j: int| 0 <= i < j < u.len() implies (#[trigger] u[i]).0 != (
        #[trigger] u[j]).0 by {
            let x = if i < k {
                i
            } else {
                i + 1
            };
            let y = if j < k {
                j
            } else {
                j + 1
            };
            assert(u[i] == t[x] && u[j] == t[y]);
        }
        assert forall|j: int| 0 <= j < u.len() implies (#[trigger] u[j]).0 != key by {
            if j < k {
                assert(u[j] == t[j]);
            } else {
                assert(u[j] == t[j + 1]);
                assert(t[k].0 != t[j + 1].0);
            }
        }
        lemma_position(u, key, u.len() as int);
        if other != key {
            let m = position(t, other);
            let n = if m <= k {
                m
            } else {
                m - 1
            };
            assert forall|j: int| 0 <= j < n implies (#[trigger] u[j]).0 != other by {
                if j < k {
                    assert(u[j] == t[j]);
                } else {
                    assert(u[j] == t[j + 1]);
                }
            }
            if n < u.len() {
                assert(u[n] == t[m]);
            }
            lemma_position(u, other, n);
        }
    }
}

/// Removing what was put under a new name leaves the table as it was.
pub proof fn removing_undoes_putting<T>(t: Seq<(Seq<char>, T)>, key: Seq<char>, value: T)
    requires
        lookup(t, key) is None,
    ensures
        without(put(t, key, value), key) == t,
{
    lemma_position_found(t, key);
    lemma_position(put(t, key, value), key, t.len() as int);
    assert(t.push((key, value)).remove(t.len() as int) =~= t);
}

/// Values by name. No name stands twice.
pub struct Table<T> {
    entries: Vec<(String, T)>,
}

impl<T> View for Table<T> {
    type V = Seq<(Seq<char>, T)>;

    closed spec fn view(&self) -> Seq<(Seq<char>, T)> {
        pairs(self.entries@)
    }
}

spec fn pairs<T>(v: Seq<(String, T)>) -> Seq<(Seq<char>, T)> {
    Seq::new(v.len(), |i: int| (v[i].0@, v[i].1))
}

fn find<T>(v: &Vec<(String, T)>, key: &str) -> (k: usize)
    ensures
        k == position(pairs(v@), key@),
        k <= v@.len(),
{
    let mut k: usize = 0;
    while k < v.len() && !same(v[k].0.as_str(), key)
        invariant
            k <= v@.len(),
            forall|j: int| 0 <= j < k ==> (#[trigger] pairs(v@)[j]).0 != key@,
        decreases v@.len() - k,
    {
        k = k + 1;
    }
    proof {
        lemma_position(pairs(v@), key@, k as int);
    }
    k
}

impl<T> Table<T> {
    #[verifier::type_invariant]
    spec fn keeps_names_apart(self) -> bool {
        distinct(pairs(self.entries@))
    }

    /// A table with nothing in it.
    pub fn new() -> (t: Table<T>)
        ensures
            t@ == Seq::<(Seq<char>, T)>::empty(),
            distinct(t@),
    {
        let entries: Vec<(String, T)> = Vec::new();
        assert(pairs(entries@) =~= Seq::<(Seq<char>, T)>::empty());
        Table { entries }
    }

    /// How many values there are.
    pub fn len(&self) -> (n: usize)
        ensures
            n == self@.len(),
            distinct(self@),
    {
        proof {
            use_type_invariant(self);
        }
        self.entries.len()
    }

    /// The name at a position.
    pub fn name(&self, k: usize) -> (r: &String)
        requires
            k < self@.len(),
        ensures
            r@ == self@[k as int].0,
    {
        &self.entries[k].0
    }

    /// The value at a position.
    pub fn value(&self, k: usize) -> (r: &T)
        requires
            k < self@.len(),
        ensures
            *r == self@[k as int].1,
    {
        &self.entries[k].1
    }

    /// The value under a name.
    pub fn get(&self, key: &str) -> (r: Option<&T>)
        ensures
            match lookup(self@, key@) {
                Some(v) => r == Some(&v),
                None => r is None,
            },
    {
        let k = find(&self.entries, key);
        if k < self.entries.len() {
            Some(&self.entries[k].1)
        } else {
            None
        }
    }

    /// Puts a value under a name, in place of what stood there.
    pub fn insert(&mut self, key: String, value: T)
        ensures
            final(self)@ == put(old(self)@, key@, value),
            distinct(final(self)@),
    {
        proof {
            use_type_invariant(&*self);
            put_is_found(self@, key@, value, key@);
        }
        let mut entries: Vec<(String, T)> = Vec::new();
        let ghost before = pairs(self.entries@);
        std::mem::swap(&mut self.entries, &mut entries);
        let k = find(&entries, key.as_str());
        if k < entries.len() {
            entries[k] = (key, value);
        } else {
            entries.push((key, value));
        }
        assert(pairs(entries@) =~= put(before, key@, value));
        self.entries = entries;
    }

    /// Takes what stands under a name out of the table.
    pub fn remove(&mut self, key: &str) -> (r: Option<T>)
        ensures
            final(self)@ == without(old(self)@, key@),
            r == lookup(old(self)@, key@),
            distinct(final(self)@),
    {
        proof {
            use_type_invariant(&*self);
            removed_is_gone(self@, key@, key@);
        }
        let mut entries: Vec<(String, T)> = Vec::new();
        let ghost before = pairs(self.entries@);
        std::mem::swap(&mut self.entries, &mut entries);
        let k = find(&entries, key);
        let r = if k < entries.len() {
            let taken = entries.remove(k);
            Some(taken.1)
        } else {
            None
        };
        assert(pairs(entries@) =~= without(before, key@));
        self.entries = entries;
        r
    }
}

/// A value is found under a name exactly where the two stand together in the
/// table.
pub proof fn lookup_finds_what_stands_there<T>(t: Seq<(Seq<char>, T)>, key: Seq<char>, value: T)
    requires
        distinct(t),
    ensures
        lookup(t, key) == Some(value) <==> t.contains((key, value)),
        lookup(t, key) is None <==> forall|v: T| !#[trigger] t.contains((key, v)),
{
    lemma_position_found(t, key);
    let k = position(t, key);
    if t.contains((key, value)) {
        let i = choose|i: int| 0 <= i < t.len() && t[i] == (key, value);
        if k != i {
            assert(k <= i);
            assert(t[k].0 != t[i].0);
        }
    }
    if k < t.len() {
        assert(t[k] == (key, t[k].1));
        assert(t.contains((key, t[k].1)));
    } else {
        assert forall|v: T| !#[trigger] t.contains((key, v)) by {
            if t.contains((key, v)) {
                let i = choose|i: int| 0 <= i < t.len() && t[i] == (key, v);
                assert(t[i].0 != key);
            }
        }
    }
}

/// Putting a value under a new name leaves the rest of the table as it is, and
/// puts the new name at its end; under a name that is there the value alone
/// changes.
pub proof fn putting_keeps_the_rest<T>(t: Seq<(Seq<char>, T)>, key: Seq<char>, value: T)
    requires
        distinct(t),
    ensures
        lookup(t, key) is None ==> put(t, key, value) == t.push((key, value)),
        forall|i: int|
            0 <= i < t.len() && (#[trigger] t[i]).0 == key ==> put(t, key, value) == t.update(
                i,
                (key, value),
            ) && without(t, key) == t.remove(i),
        lookup(t, key) is None ==> without(t, key) == t,
{
    lemma_position_found(t, key);
    assert forall|i: int| 0 <= i < t.len() && (#[trigger] t[i]).0 == key implies put(t, key, value)
        == t.update(i, (key, value)) && without(t, key) == t.remove(i) by {
        assert forall|j: int| 0 <= j < i implies (#[trigger] t[j]).0 != key by {
            assert(t[j].0 != t[i].0);
        }
        lemma_position(t, key, i);
    }
}

} // verus!
