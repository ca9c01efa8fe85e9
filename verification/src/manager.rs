//! The open connections.
use vstd::prelude::*;
use vstd::string::*;

use crate::connect::ConnectionInfo;
use crate::search::{caseless, caseless_key};
use crate::sort::{
    goes_first, kept_places, key_views, keys_of, lemma_asymmetric, lemma_kept_order,
    lemma_order_exists, lemma_sorted, sort_items, sorted, sorted_goes_by_key, text_before,
    the_dictionary_goes_by_the_first_difference, SortKey,
};
use crate::table::{
    distinct, lemma_position_found, lookup, position, put, put_is_found, removed_is_gone, without,
    Table,
};
use crate::text::{lowercase, same, texts};

verus! {

/// An open connection: what is known of it, and what reaches the host.
pub struct Connection<C> {
    pub info: ConnectionInfo,
    pub handle: C,
}

/// The open connections by their names.
pub struct SshManager<C> {
    conns: Table<Connection<C>>,
}

impl<C> View for SshManager<C> {
    type V = Seq<(Seq<char>, Connection<C>)>;

    closed spec fn view(&self) -> Seq<(Seq<char>, Connection<C>)> {
        self.conns@
    }
}

/// Whether every connection stands under its own name and no name stands twice.
pub open spec fn well_named<C>(m: Seq<(Seq<char>, Connection<C>)>) -> bool {
    &&& distinct(m)
    &&& forall|i: int| 0 <= i < m.len() ==> (#[trigger] m[i]).0 == m[i].1.info.id@
}

/// What is said where no connection has the name.
pub open spec fn not_connected(id: Seq<char>) -> Seq<char> {
    "ssh: not connected: "@ + id
}

/// What is known of the connections, in the order in which they were opened,
/// without those that are left out.
pub open spec fn infos<C>(m: Seq<(Seq<char>, Connection<C>)>, left_out: Seq<Seq<char>>) -> Seq<
    ConnectionInfo<Seq<char>>,
>
    decreases m.len(),
{
    if m.len() == 0 {
        Seq::empty()
    } else if left_out.contains(m.last().0) {
        infos(m.drop_last(), left_out)
    } else {
        infos(m.drop_last(), left_out).push(m.last().1.info.deep_view())
    }
}

fn copy_info(i: &ConnectionInfo) -> (r: ConnectionInfo)
    ensures
        r.deep_view() == i.deep_view(),
{
    ConnectionInfo {
        id: i.id.clone(),
        label: i.label.clone(),
        host: i.host.clone(),
        port: i.port,
        user: i.user.clone(),
        home: i.home.clone(),
    }
}

fn is_among(name: &str, names: &Vec<String>) -> (r: bool)
    ensures
        r == texts(names@).contains(name@),
{
    let mut i: usize = 0;
    while i < names.len()
        invariant
            i <= names@.len(),
            forall|j: int| 0 <= j < i ==> #[trigger] texts(names@)[j] != name@,
        decreases names@.len() - i,
    {
        if same(names[i].as_str(), name) {
            assert(texts(names@)[i as int] == name@);
            return true;
        }
        i = i + 1;
    }
    false
}

proof fn lemma_put_named<C>(m: Seq<(Seq<char>, Connection<C>)>, c: Connection<C>)
    requires
        well_named(m),
    ensures
        well_named(put(m, c.info.id@, c)),
{
    put_is_found(m, c.info.id@, c, c.info.id@);
    lemma_position_found(m, c.info.id@);
    let u = put(m, c.info.id@, c);
    let k = position(m, c.info.id@);
    assert forall|i: int| 0 <= i < u.len() implies (#[trigger] u[i]).0 == u[i].1.info.id@ by {
        if i < m.len() && i != k {
            assert(u[i] == m[i]);
        }
    }
}

proof fn lemma_without_named<C>(m: Seq<(Seq<char>, Connection<C>)>, id: Seq<char>)
    requires
        well_named(m),
    ensures
        well_named(without(m, id)),
{
    removed_is_gone(m, id, id);
    lemma_position_found(m, id);
    let u = without(m, id);
    let k = position(m, id);
    assert forall|i: int| 0 <= i < u.len() implies (#[trigger] u[i]).0 == u[i].1.info.id@ by {
        if k < m.len() && i >= k {
            assert(u[i] == m[i + 1]);
        } else {
            assert(u[i] == m[i]);
        }
    }
}

/// Each of the listed connections is one of those that are open.
proof fn lemma_infos<C>(m: Seq<(Seq<char>, Connection<C>)>, left_out: Seq<Seq<char>>)
    requires
        well_named(m),
    ensures
        forall|i: int|
            0 <= i < infos(m, left_out).len() ==> exists|k: int|
                0 <= k < m.len() && (#[trigger] m[k]).0 == (#[trigger] infos(m, left_out)[i]).id,
        forall|i: int, j: int|
            0 <= i < j < infos(m, left_out).len() ==> (#[trigger] infos(m, left_out)[i]).id != (
            #[trigger] infos(m, left_out)[j]).id,
    decreases m.len(),
{
    if m.len() > 0 {
        let rest = m.drop_last();
        let few = infos(rest, left_out);
        let all = infos(m, left_out);
        lemma_infos(rest, left_out);
        assert forall|i: int| 0 <= i < all.len() implies exists|k: int|
            0 <= k < m.len() && (#[trigger] m[k]).0 == (#[trigger] all[i]).id by {
            if i < few.len() {
                assert(all[i] == few[i]);
                let k = choose|k: int| 0 <= k < rest.len() && (#[trigger] rest[k]).0 == few[i].id;
                assert(m[k] == rest[k]);
            } else {
                assert(m[m.len() - 1].0 == all[i].id);
            }
        }
        assert forall|i: int, j: int| 0 <= i < j < all.len() implies (#[trigger] all[i]).id != (
        #[trigger] all[j]).id by {
            if j < few.len() {
                assert(all[i] == few[i] && all[j] == few[j]);
            } else {
                assert(all[i] == few[i]);
                let k = choose|k: int| 0 <= k < rest.len() && (#[trigger] rest[k]).0 == few[i].id;
                assert(m[k] == rest[k]);
                assert(m[k].0 != m[m.len() - 1].0);
            }
        }
    }
}

/// What is listed of the connections.
pub open spec fn listed<C>(m: Seq<(Seq<char>, Connection<C>)>, left_out: Seq<Seq<char>>) -> Seq<
    ConnectionInfo<Seq<char>>,
> {
    sorted(infos(m, left_out), |i: ConnectionInfo<Seq<char>>| caseless(i.label))
}

/// No two connections that are listed have the same name.
pub proof fn listed_ids_are_distinct<C>(
    m: Seq<(Seq<char>, Connection<C>)>,
    left_out: Seq<Seq<char>>,
    i: int,
    j: int,
)
    requires
        well_named(m),
        0 <= i < j < listed(m, left_out).len(),
    ensures
        listed(m, left_out)[i].id != listed(m, left_out)[j].id,
{
    let items = infos(m, left_out);
    let key = |i: ConnectionInfo<Seq<char>>| caseless(i.label);
    let keys = keys_of(items, key);
    let p = lemma_order_exists(keys);
    lemma_sorted(items, key, p);
    lemma_infos(m, left_out);
    lemma_asymmetric(keys, p[i], p[j]);
    assert(goes_first(keys, p[i], p[j]));
    assert(items[p[i]].id != items[p[j]].id);
}

impl<C> SshManager<C> {
    #[verifier::type_invariant]
    spec fn keeps_names(self) -> bool {
        well_named(self.conns@)
    }

    /// No connections.
    pub fn new() -> (m: SshManager<C>)
        ensures
            m@ == Seq::<(Seq<char>, Connection<C>)>::empty(),
            well_named(m@),
    {
        SshManager { conns: Table::new() }
    }

    /// The connection of a name.
    pub fn get_conn(&self, id: &str) -> (r: Result<&Connection<C>, String>)
        ensures
            match lookup(self@, id@) {
                Some(c) => r == Ok::<&Connection<C>, String>(&c),
                None => r is Err && r->Err_0@ == not_connected(id@),
            },
    {
        match self.conns.get(id) {
            Some(c) => Ok(c),
            None => Err("ssh: not connected: ".to_owned().concat(id)),
        }
    }

    /// The names of all connections, in the order in which they were opened.
    pub fn ids(&self) -> (r: Vec<String>)
        ensures
            texts(r@) == Seq::new(self@.len(), |i: int| self@[i].0),
            well_named(self@),
    {
        proof {
            use_type_invariant(self);
        }
        let mut out: Vec<String> = Vec::new();
        let n: usize = self.conns.len();
        let mut i: usize = 0;
        while i < n
            invariant
                i <= n,
                n == self@.len(),
                out@.len() == i,
                forall|j: int| 0 <= j < i ==> (#[trigger] out@[j])@ == self@[j].0,
            decreases n - i,
        {
            out.push(self.conns.name(i).clone());
            i = i + 1;
        }
        out
    }
}

/// Keeps a connection under its name, in place of one that had the name, and
/// tells what is known of it; where it could not be opened, tells why.
pub fn ssh_connect<C>(m: &mut SshManager<C>, opened: Result<Connection<C>, String>) -> (r: Result<
    ConnectionInfo,
    String,
>)
    ensures
        match opened {
            Ok(c) => {
                &&& r is Ok
                &&& r->Ok_0.deep_view() == c.info.deep_view()
                &&& final(m)@ == put(old(m)@, c.info.id@, c)
                &&& well_named(final(m)@)
            },
            Err(e) => r is Err && r->Err_0@ == e@ && final(m)@ == old(m)@,
        },
{
    match opened {
        Ok(c) => {
            let info = copy_info(&c.info);
            proof {
                use_type_invariant(&*m);
                lemma_put_named(m@, c);
            }
            let mut conns: Table<Connection<C>> = Table::new();
            std::mem::swap(&mut m.conns, &mut conns);
            conns.insert(c.info.id.clone(), c);
            m.conns = conns;
            Ok(info)
        },
        Err(e) => Err(e),
    }
}

/// Forgets the connection of a name, where there is one.
pub fn ssh_disconnect<C>(m: &mut SshManager<C>, conn: &str) -> (r: Result<(), String>)
    ensures
        r is Ok,
        final(m)@ == without(old(m)@, conn@),
        well_named(final(m)@),
{
    proof {
        use_type_invariant(&*m);
        lemma_without_named(m@, conn@);
    }
    let mut conns: Table<Connection<C>> = Table::new();
    std::mem::swap(&mut m.conns, &mut conns);
    conns.remove(conn);
    m.conns = conns;
    Ok(())
}

/// What is said of the home directory at the other end of a connection.
pub open spec fn home_of<C>(m: Seq<(Seq<char>, Connection<C>)>, id: Seq<char>) -> Result<
    Seq<char>,
    Seq<char>,
> {
    match lookup(m, id) {
        Some(c) => Ok(c.info.home@),
        None => Err(not_connected(id)),
    }
}

/// The home directory of the user at the other end of a connection.
pub fn ssh_home<C>(m: &SshManager<C>, conn: &str) -> (r: Result<String, String>)
    ensures
        match home_of(m@, conn@) {
            Ok(home) => r is Ok && r->Ok_0@ == home,
            Err(e) => r is Err && r->Err_0@ == e,
        },
{
    match m.get_conn(conn) {
        Ok(c) => Ok(c.info.home.clone()),
        Err(e) => Err(e),
    }
}

/// What is known of the connections other than those that are left out, in
/// order of their labels where case does not count.
pub fn ssh_list_connections<C>(m: &SshManager<C>, left_out: &Vec<String>) -> (r: Result<
    Vec<ConnectionInfo>,
    String,
>)
    ensures
        r is Ok,
        r->Ok_0.deep_view() == listed(m@, texts(left_out@)),
        forall|i: int, j: int|
            0 <= i < j < r->Ok_0@.len() ==> (#[trigger] r->Ok_0@[i]).id@ != (
            #[trigger] r->Ok_0@[j]).id@,
{
    proof {
        use_type_invariant(m);
        assert forall|i: int, j: int| 0 <= i < j < listed(m@, texts(left_out@)).len() implies (
        #[trigger] listed(m@, texts(left_out@))[i]).id != (#[trigger] listed(
            m@,
            texts(left_out@),
        )[j]).id by {
            listed_ids_are_distinct(m@, texts(left_out@), i, j);
        }
    }
    let ghost all = m@;
    let ghost none = texts(left_out@);
    let ghost key = |i: ConnectionInfo<Seq<char>>| caseless(i.label);
    let mut out: Vec<ConnectionInfo> = Vec::new();
    let mut keys: Vec<SortKey> = Vec::new();
    let n: usize = m.conns.len();
    let mut i: usize = 0;
    assert(all.take(0) =~= Seq::<(Seq<char>, Connection<C>)>::empty());
    assert(out.deep_view() =~= Seq::<ConnectionInfo<Seq<char>>>::empty());
    while i < n
        invariant
            i <= n,
            n == m@.len(),
            all == m@,
            none == texts(left_out@),
            out.deep_view() == infos(all.take(i as int), none),
            keys@.len() == out@.len(),
            forall|j: int|
                0 <= j < keys@.len() ==> (#[trigger] keys@[j])@ == caseless(out@[j].label@),
        decreases n - i,
    {
        assert(all.take(i + 1).drop_last() =~= all.take(i as int));
        assert(all.take(i + 1).last() == all[i as int]);
        if !is_among(m.conns.name(i).as_str(), left_out) {
            let ghost before = out.deep_view();
            let info = copy_info(&m.conns.value(i).info);
            keys.push(caseless_key(info.label.as_str()));
            out.push(info);
            assert(out.deep_view() =~= before.push(info.deep_view()));
        }
        i = i + 1;
    }
    assert(all.take(i as int) =~= all);
    assert(key_views(keys@) =~= keys_of(out.deep_view(), key));
    let shown = sort_items(out, &keys, Ghost(key));
    assert forall|i: int, j: int| 0 <= i < j < shown@.len() implies (#[trigger] shown@[i]).id@ != (
    #[trigger] shown@[j]).id@ by {
        assert(shown.deep_view()[i].id != shown.deep_view()[j].id);
    }
    Ok(shown)
}

/// A connection that was opened is found under its name until it is closed,
/// and opening or closing one leaves the others as they were.
pub proof fn connections_are_kept_apart<C>(
    m: Seq<(Seq<char>, Connection<C>)>,
    c: Connection<C>,
    other: Seq<char>,
)
    requires
        distinct(m),
        other != c.info.id@,
    ensures
        lookup(put(m, c.info.id@, c), c.info.id@) == Some(c),
        lookup(put(m, c.info.id@, c), other) == lookup(m, other),
        lookup(without(m, c.info.id@), c.info.id@) is None,
        lookup(without(m, c.info.id@), other) == lookup(m, other),
{
    put_is_found(m, c.info.id@, c, other);
    removed_is_gone(m, c.info.id@, other);
}

proof fn lemma_info_places<C>(m: Seq<(Seq<char>, Connection<C>)>, left_out: Seq<Seq<char>>)
    ensures
        ({
            let places = kept_places(m, |c: (Seq<char>, Connection<C>)| !left_out.contains(c.0));
            let known = infos(m, left_out);
            &&& known.len() == places.len()
            &&& forall|j: int|
                0 <= j < places.len() ==> 0 <= #[trigger] places[j] < m.len() && known[j]
                    == m[places[j]].1.info.deep_view()
        }),
    decreases m.len(),
{
    if m.len() > 0 {
        let rest = m.drop_last();
        lemma_info_places(rest, left_out);
        let keep = |c: (Seq<char>, Connection<C>)| !left_out.contains(c.0);
        let few = kept_places(rest, keep);
        let places = kept_places(m, keep);
        let known = infos(m, left_out);
        assert forall|j: int| 0 <= j < places.len() implies 0 <= #[trigger] places[j] < m.len()
            && known[j] == m[places[j]].1.info.deep_view() by {
            if j < few.len() {
                assert(places[j] == few[j]);
                assert(rest[few[j]] == m[few[j]]);
                assert(known[j] == infos(rest, left_out)[j]);
            }
        }
    }
}

/// The connections are listed one for one: each that is not left out once, with
/// all that is known of it, in the order of the dictionary by their labels where
/// case does not count.
pub proof fn connections_are_listed_one_for_one<C>(
    m: Seq<(Seq<char>, Connection<C>)>,
    left_out: Seq<Seq<char>>,
)
    ensures
        exists|p: Seq<int>|
            {
                let out = listed(m, left_out);
                &&& #[trigger] p.no_duplicates()
                &&& p.len() == out.len()
                &&& forall|x: int|
                    #![trigger p.contains(x)]
                    p.contains(x) <==> 0 <= x < m.len() && !left_out.contains(m[x].0)
                &&& forall|k: int|
                    0 <= k < p.len() ==> {
                        let info = m[p[k]].1.info;
                        &&& 0 <= p[k] < m.len()
                        &&& (#[trigger] out[k]).id == info.id@
                        &&& out[k].label == info.label@
                        &&& out[k].host == info.host@
                        &&& out[k].port == info.port
                        &&& out[k].user == info.user@
                        &&& out[k].home == info.home@
                    }
                &&& forall|i: int, j: int|
                    0 <= i < j < p.len() ==> {
                        let a = lowercase((#[trigger] out[i]).label);
                        let b = lowercase((#[trigger] out[j]).label);
                        &&& !text_before(b, a)
                        &&& a == b ==> p[i] < p[j]
                    }
            },
{
    let keep = |c: (Seq<char>, Connection<C>)| !left_out.contains(c.0);
    let known = infos(m, left_out);
    let key = |i: ConnectionInfo<Seq<char>>| caseless(i.label);
    let out = listed(m, left_out);
    lemma_info_places(m, left_out);
    let p = lemma_kept_order(m, keep, known, key);
    assert forall|x: int|
        #![trigger p.contains(x)]
        p.contains(x) <==> 0 <= x < m.len() && !left_out.contains(m[x].0) by {
        assert(0 <= x < m.len() ==> keep(m[x]) == !left_out.contains(m[x].0));
    }
    assert forall|k: int| 0 <= k < p.len() implies ({
        let info = m[p[k]].1.info;
        &&& 0 <= p[k] < m.len()
        &&& (#[trigger] out[k]).id == info.id@
        &&& out[k].label == info.label@
        &&& out[k].host == info.host@
        &&& out[k].port == info.port
        &&& out[k].user == info.user@
        &&& out[k].home == info.home@
    }) by {
        assert(0 <= p[k] < m.len());
        let j = choose|j: int|
            0 <= j < known.len() && #[trigger] kept_places(m, keep)[j] == p[k] && out[k]
                == known[j];
        assert(known[j] == m[kept_places(m, keep)[j]].1.info.deep_view());
    }
    assert forall|i: int, j: int| 0 <= i < j < p.len() implies ({
        let a = lowercase((#[trigger] out[i]).label);
        let b = lowercase((#[trigger] out[j]).label);
        &&& !text_before(b, a)
        &&& a == b ==> p[i] < p[j]
    }) by {
        let x = lowercase(out[i].label);
        the_dictionary_goes_by_the_first_difference(x, x, x);
        sorted_goes_by_key(known, key, i, j);
    }
}

/// The home directory that is told is that of the connection of the name, as
/// long as that is open; a name without a connection is complained of.
pub proof fn homes_go_with_their_connections<C>(
    m: Seq<(Seq<char>, Connection<C>)>,
    c: Connection<C>,
    other: Seq<char>,
)
    requires
        distinct(m),
        other != c.info.id@,
    ensures
        home_of(put(m, c.info.id@, c), c.info.id@) == Ok::<Seq<char>, Seq<char>>(c.info.home@),
        home_of(put(m, c.info.id@, c), other) == home_of(m, other),
        home_of(without(m, c.info.id@), c.info.id@) == Err::<Seq<char>, Seq<char>>(
            "ssh: not connected: "@ + c.info.id@,
        ),
        home_of(without(m, c.info.id@), other) == home_of(m, other),
        not_connected(other) == "ssh: not connected: "@ + other,
{
    put_is_found(m, c.info.id@, c, other);
    removed_is_gone(m, c.info.id@, other);
}

} // verus!
