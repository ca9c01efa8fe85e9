//! JSON objects whose members are texts or null, which `serde_json` writes and
//! reads.
use vstd::prelude::*;

use crate::table::{distinct, lookup};

verus! {

/// The members of an object, as contracts speak of them: a text, or `None`
/// for null.
pub type Members = Seq<(Seq<char>, Option<Seq<char>>)>;

/// What `serde_json::to_string` writes for an object with these members.
pub uninterp spec fn json_text(members: Seq<(Seq<char>, Option<Seq<char>>)>) -> Seq<char>;

/// What `serde_json::from_str` reads a text as: `None` where the text is no
/// JSON value, and else the members of the object that it is, none where it is
/// some other value. A member whose value is no text stands as `None`.
pub uninterp spec fn json_members(text: Seq<char>) -> Option<Map<Seq<char>, Option<Seq<char>>>>;

/// The value of a member.
pub open spec fn member(
    m: Map<Seq<char>, Option<Seq<char>>>,
    name: Seq<char>,
) -> Option<Option<Seq<char>>> {
    if m.dom().contains(name) {
        Some(m[name])
    } else {
        None
    }
}

/// Whether a text is read as an object with just these members.
pub open spec fn reads_as(text: Seq<char>, members: Members) -> bool {
    &&& json_members(text) is Some
    &&& forall|name: Seq<char>|
        member(json_members(text)->0, name) == #[trigger] lookup(members, name)
}

/// Whether members can stand together in an object: no name stands twice, and
/// none begins with the sign that `serde_json` keeps for itself.
pub open spec fn writable(members: Members) -> bool {
    &&& distinct(members)
    &&& forall|i: int|
        0 <= i < members.len() ==> (#[trigger] members[i]).0.len() > 0 && members[i].0[0] != '$'
}

/// Calls `serde_json::to_string` with an object, which always succeeds. The
/// contract names the text and says what the compact form has: braces at both
/// ends, no line feed, since those in texts are escaped, and the same members
/// when it is read back, also with a line feed behind it, since white space
/// there is skipped.
#[verifier::external_body]
pub(crate) fn write_object(members: &Vec<(String, Option<String>)>) -> (r: String)
    requires
        writable(members.deep_view()),
    ensures
        r@ == json_text(members.deep_view()),
        r@.len() >= 2 && r@[0] == '{' && r@.last() == '}',
        !r@.contains('\n'),
        reads_as(r@, members.deep_view()),
        reads_as(r@.push('\n'), members.deep_view()),
{
    let pairs = members.iter().map(|m| (m.0.clone(), serde_json::Value::from(m.1.clone())));
    let object: serde_json::Map<String, serde_json::Value> = pairs.collect();
    serde_json::to_string(&object).unwrap_or_default()
}

/// Calls `serde_json::from_str` for any JSON value. The contract names what is
/// read and says that no member is listed twice.
#[verifier::external_body]
pub(crate) fn read_object(text: &str) -> (r: Option<Vec<(String, Option<String>)>>)
    ensures
        r is Some <==> json_members(text@) is Some,
        r is Some ==> distinct(r->0.deep_view()),
        r is Some ==> forall|name: Seq<char>|
            member(json_members(text@)->0, name) == #[trigger] lookup(r->0.deep_view(), name),
{
    let value = serde_json::from_str::<serde_json::Value>(text).ok()?;
    let members = value.as_object().into_iter().flatten();
    Some(members.map(|(k, v)| (k.clone(), v.as_str().map(str::to_owned))).collect())
}

} // verus!
