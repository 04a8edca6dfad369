//! JSON documents as lookup trees.

use vstd::prelude::*;
use crate::gettable::Gettable;

verus! {

/// `serde_json::Value`: a parsed JSON document, or a node of one. What is
/// inside a value is known only through `json_members`.
#[verifier::external_type_specification]
#[verifier::external_body]
pub struct ExJsonValue(serde_json::Value);

/// The members of a JSON value: for an object, its entries by key; for any
/// other value (null, boolean, number, string, array) the empty map.
pub uninterp spec fn json_members(node: serde_json::Value) -> Map<Seq<char>, serde_json::Value>;

/// `serde_json::Value::get` with a string key. On an object it returns the
/// entry stored under that key, if there is one; on every other kind of value
/// it returns `None`. The contract says exactly that, over `json_members`.
#[verifier::external_body]
fn json_get<'a>(node: &'a serde_json::Value, key: &String) -> (found: Option<&'a serde_json::Value>)
    ensures
        found is Some <==> json_members(*node).contains_key(key@),
        found matches Some(member) ==> *member == json_members(*node)[key@],
{
    node.get(key)
}

impl Gettable for serde_json::Value {
    open spec fn child(&self, key: Seq<char>) -> Option<Self> {
        if json_members(*self).contains_key(key) {
            Some(json_members(*self)[key])
        } else {
            None
        }
    }

    fn _get(&self, key: &String) -> (found: Option<&Self>) {
        json_get(self, key)
    }
}

} // verus!
