//! Hjson documents as lookup trees.

use vstd::prelude::*;
use crate::gettable::Gettable;

verus! {

/// `serde_hjson::Value`: a parsed Hjson document, or a node of one. What is
/// inside a value is known only through `hjson_members`.
#[verifier::external_type_specification]
#[verifier::external_body]
pub struct ExHjsonValue(serde_hjson::Value);

/// The members of an Hjson value: for an object, its entries by key; for any
/// other value (null, boolean, number, string, array) the empty map.
pub uninterp spec fn hjson_members(node: serde_hjson::Value) -> Map<Seq<char>, serde_hjson::Value>;

/// `serde_hjson::Value::find`. On an object it returns the entry stored
/// under the key, if there is one; on every other kind of value it returns
/// `None`. The contract says exactly that, over `hjson_members`.
#[verifier::external_body]
fn hjson_find<'a>(node: &'a serde_hjson::Value, key: &String) -> (found: Option<&'a serde_hjson::Value>)
    ensures
        found is Some <==> hjson_members(*node).contains_key(key@),
        found matches Some(member) ==> *member == hjson_members(*node)[key@],
{
    node.find(key)
}

impl Gettable for serde_hjson::Value {
    open spec fn child(&self, key: Seq<char>) -> Option<Self> {
        if hjson_members(*self).contains_key(key) {
            Some(hjson_members(*self)[key])
        } else {
            None
        }
    }

    fn _get(&self, key: &String) -> (found: Option<&Self>) {
        hjson_find(self, key)
    }
}

} // verus!
