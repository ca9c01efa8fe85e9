//! Pinned host keys: the first key that a host shows is trusted, and any other
//! key that it shows later is not.
use vstd::prelude::*;
use vstd::string::*;

use crate::numbers::{
    decimal, decimal_is_injective, decimal_text, is_digit, lemma_decimal_reads_back,
};
use crate::table::{
    distinct, lemma_position, lemma_position_found, lookup, lookup_finds_what_stands_there, put,
    put_is_found,
};
use crate::text::same;

verus! {

/// Fingerprints by host, as contracts speak of them.
pub type Pins = Seq<(Seq<char>, Seq<char>)>;

/// What `serde_json::from_slice` reads from bytes as a map from texts to
/// texts, in order of the keys; `None` where it refuses them.
pub uninterp spec fn pins_in(bytes: Seq<u8>) -> Option<Seq<(Seq<char>, Seq<char>)>>;

/// What `serde_json::to_vec_pretty` writes for a map from texts to texts.
pub uninterp spec fn pins_json(pins: Seq<(Seq<char>, Seq<char>)>) -> Seq<u8>;

/// Calls `serde_json::from_slice` for a map from texts to texts. The contract
/// names what is read and says that no key stands twice in it.
#[verifier::external_body]
fn parse_pins(bytes: &Vec<u8>) -> (r: Option<Vec<(String, String)>>)
    ensures
        r.deep_view() == pins_in(bytes@),
        r is Some ==> distinct(r->0.deep_view()),
{
    let map = serde_json::from_slice::<std::collections::BTreeMap<String, String>>(bytes);
    map.ok().map(|m| m.into_iter().collect())
}

/// Calls `serde_json::to_vec_pretty` with a map from texts to texts, which
/// always succeeds: it fails only for maps with other keys and for types that
/// refuse to be written. The contract names what is written and says that
/// reading it finds every key with its value and no others.
#[verifier::external_body]
fn write_pins(pins: &Vec<(String, String)>) -> (r: Result<Vec<u8>, String>)
    requires
        distinct(pins.deep_view()),
    ensures
        r is Ok,
        r->Ok_0@ == pins_json(pins.deep_view()),
        pins_in(r->Ok_0@) is Some,
        forall|key: Seq<char>|
            lookup(pins_in(r->Ok_0@)->0, key) == #[trigger] lookup(pins.deep_view(), key),
{
    let map: std::collections::BTreeMap<&String, &String> = pins.iter().map(|p| (&p.0, &p.1)).collect();
    serde_json::to_vec_pretty(&map).map_err(|e| e.to_string())
}

/// The pins in the contents of the pin file: none where there is no such file
/// or it cannot be read.
pub open spec fn pins_of(bytes: Option<Seq<u8>>) -> Pins {
    match bytes {
        Some(b) => match pins_in(b) {
            Some(pins) => pins,
            None => Seq::empty(),
        },
        None => Seq::empty(),
    }
}

/// Reads the contents of the pin file.
pub fn load_known_hosts(bytes: Option<Vec<u8>>) -> (r: Vec<(String, String)>)
    ensures
        r.deep_view() == pins_of(bytes.deep_view()),
        distinct(r.deep_view()),
{
    let none: Vec<(String, String)> = Vec::new();
    assert(none.deep_view() =~= Seq::<(Seq<char>, Seq<char>)>::empty());
    match bytes {
        Some(b) => {
            assert(b.deep_view() =~= b@);
            match parse_pins(&b) {
                Some(pins) => pins,
                None => none,
            }
        },
        None => none,
    }
}

/// Whether the contents of a pin file hold these pins.
pub open spec fn holds(bytes: Seq<u8>, pins: Pins) -> bool {
    &&& pins_in(bytes) is Some
    &&& forall|key: Seq<char>| lookup(pins_in(bytes)->0, key) == #[trigger] lookup(pins, key)
}

/// Writes the contents of the pin file.
pub fn save_known_hosts(pins: &Vec<(String, String)>) -> (r: Result<Vec<u8>, String>)
    requires
        distinct(pins.deep_view()),
    ensures
        r is Ok,
        r->Ok_0@ == pins_json(pins.deep_view()),
        holds(r->Ok_0@, pins.deep_view()),
{
    write_pins(pins)
}

/// The name under which the key of a host is pinned.
pub open spec fn pin_name(host: Seq<char>, port: u16) -> Seq<char> {
    host + ":"@ + decimal(port as nat)
}

/// Names the pin of a host.
pub fn pin_name_of(host: &str, port: u16) -> (r: String)
    ensures
        r@ == pin_name(host@, port),
{
    let mut out = host.to_owned();
    out.append(":");
    let digits = decimal_text(port as u64);
    out.append(digits.as_str());
    out
}

/// What the pins say of a key that a host shows.
#[derive(Clone, Copy, Debug, PartialEq, Eq)]
pub enum Trust {
    /// It is the key that was pinned.
    Known,
    /// It is not the key that was pinned.
    Changed,
    /// No key was pinned.
    New,
}

/// What pins say of the fingerprint that is shown under a name.
pub open spec fn trust(pins: Pins, name: Seq<char>, fingerprint: Seq<char>) -> Trust {
    match lookup(pins, name) {
        Some(known) => if known == fingerprint {
            Trust::Known
        } else {
            Trust::Changed
        },
        None => Trust::New,
    }
}

/// Judges the fingerprint that is shown under a name.
pub fn judge(pins: &Vec<(String, String)>, name: &str, fingerprint: &str) -> (r: Trust)
    ensures
        r == trust(pins.deep_view(), name@, fingerprint@),
{
    let mut k: usize = 0;
    while k < pins.len()
        invariant
            k <= pins@.len(),
            forall|j: int| 0 <= j < k ==> (#[trigger] pins.deep_view()[j]).0 != name@,
        decreases pins@.len() - k,
    {
        if same(pins[k].0.as_str(), name) {
            proof {
                lemma_position(pins.deep_view(), name@, k as int);
            }
            return if same(pins[k].1.as_str(), fingerprint) {
                Trust::Known
            } else {
                Trust::Changed
            };
        }
        k = k + 1;
    }
    proof {
        lemma_position(pins.deep_view(), name@, k as int);
    }
    Trust::New
}

/// Adds the pin of a host that has none.
pub fn pin_host(pins: Vec<(String, String)>, name: &str, fingerprint: &str) -> (r: Vec<
    (String, String),
>)
    requires
        lookup(pins.deep_view(), name@) is None,
        distinct(pins.deep_view()),
    ensures
        r.deep_view() == put(pins.deep_view(), name@, fingerprint@),
        distinct(r.deep_view()),
{
    let mut out = pins;
    proof {
        lemma_position_found(pins.deep_view(), name@);
        put_is_found(pins.deep_view(), name@, fingerprint@, name@);
    }
    out.push((name.to_owned(), fingerprint.to_owned()));
    assert(out.deep_view() =~= pins.deep_view().push((name@, fingerprint@)));
    out
}

/// Trust on first use: once the key of a new host is pinned, whoever reads the
/// written pins knows that key and takes any other for a change; the other
/// hosts are judged as before.
pub proof fn first_key_is_trusted(
    pins: Pins,
    name: Seq<char>,
    fingerprint: Seq<char>,
    written: Seq<u8>,
    other: Seq<char>,
    shown: Seq<char>,
)
    requires
        distinct(pins),
        holds(written, put(pins, name, fingerprint)),
    ensures
        trust(pins_of(Some(written)), name, fingerprint) == Trust::Known,
        shown != fingerprint ==> trust(pins_of(Some(written)), name, shown) == Trust::Changed,
        other != name ==> trust(pins_of(Some(written)), other, shown) == trust(pins, other, shown),
{
    put_is_found(pins, name, fingerprint, other);
    assert(lookup(pins_in(written)->0, name) == lookup(put(pins, name, fingerprint), name));
    assert(lookup(pins_in(written)->0, other) == lookup(put(pins, name, fingerprint), other));
}

/// Two hosts or two ports never share a pin.
pub proof fn pins_are_per_host_and_port(h1: Seq<char>, p1: u16, h2: Seq<char>, p2: u16)
    requires
        pin_name(h1, p1) == pin_name(h2, p2),
    ensures
        h1 == h2,
        p1 == p2,
{
    reveal_strlit(":");
    let d1 = decimal(p1 as nat);
    let d2 = decimal(p2 as nat);
    let s = pin_name(h1, p1);
    lemma_decimal_reads_back(p1 as nat);
    lemma_decimal_reads_back(p2 as nat);
    assert forall|j: int| h1.len() < j < s.len() implies #[trigger] s[j] != ':' by {
        assert(s[j] == d1[j - h1.len() - 1]);
        assert(is_digit(d1[j - h1.len() - 1]));
    }
    assert forall|j: int| h2.len() < j < s.len() implies #[trigger] s[j] != ':' by {
        assert(s[j] == d2[j - h2.len() - 1]);
        assert(is_digit(d2[j - h2.len() - 1]));
    }
    assert(s[h1.len() as int] == ':');
    assert(s[h2.len() as int] == ':');
    assert(h1.len() == h2.len());
    assert(h1 =~= s.take(h1.len() as int));
    assert(h2 =~= s.take(h1.len() as int));
    assert(d1 =~= s.skip(h1.len() as int + 1));
    assert(d2 =~= s.skip(h1.len() as int + 1));
    decimal_is_injective(p1 as nat, p2 as nat);
}

/// A key is known where just it is pinned for the host, changed where another
/// is, and new where none is.
pub proof fn keys_are_judged_by_the_pins(pins: Pins, name: Seq<char>, fingerprint: Seq<char>)
    requires
        distinct(pins),
    ensures
        trust(pins, name, fingerprint) == Trust::Known <==> pins.contains((name, fingerprint)),
        trust(pins, name, fingerprint) == Trust::Changed <==> exists|other: Seq<char>|
            other != fingerprint && #[trigger] pins.contains((name, other)),
        trust(pins, name, fingerprint) == Trust::New <==> forall|other: Seq<char>|
            !#[trigger] pins.contains((name, other)),
{
    lookup_finds_what_stands_there(pins, name, fingerprint);
    if let Some(known) = lookup(pins, name) {
        lookup_finds_what_stands_there(pins, name, known);
    }
    assert forall|other: Seq<char>| #[trigger] pins.contains((name, other)) implies lookup(
        pins,
        name,
    ) == Some(other) by {
        lookup_finds_what_stands_there(pins, name, other);
    }
}

/// A host is pinned under its name and port, with a colon between them.
pub proof fn pins_are_named_by_host_and_port(host: Seq<char>, port: u16)
    ensures
        pin_name(host, port) == host + seq![':'] + decimal(port as nat),
{
    reveal_strlit(":");
    assert(":"@ =~= seq![':']);
}

} // verus!
