//! YAML documents as lookup trees.

use vstd::prelude::*;
use crate::gettable::Gettable;

verus! {

/// `serde_yaml::Value`: a parsed YAML document, or a node of one. What is
/// inside a value is known only through `yaml_members`.
#[verifier::external_type_specification]
#[verifier::external_body]
pub struct ExYamlValue(serde_yaml::Value);

/// The string-keyed members of a YAML value: for a mapping, with or without
/// tags around it, its entries whose key is a string, by that string; for
/// any other value (null, boolean, number, string, sequence) the empty map.
pub uninterp spec fn yaml_members(node: serde_yaml::Value) -> Map<Seq<char>, serde_yaml::Value>;

/// `serde_yaml::Value::get` with a string key. It looks through any tags;
/// on a mapping it returns the entry stored under the string key, if there
/// is one; on every other kind of value it returns `None`. The contract says
/// exactly that, over `yaml_members`.
#[verifier::external_body]
fn yaml_get<'a>(node: &'a serde_yaml::Value, key: &String) -> (found: Option<&'a serde_yaml::Value>)
    ensures
        found is Some <==> yaml_members(*node).contains_key(key@),
        found matches Some(member) ==> *member == yaml_members(*node)[key@],
{
    node.get(key)
}

impl Gettable for serde_yaml::Value {
    open spec fn child(&self, key: Seq<char>) -> Option<Self> {
        if yaml_members(*self).contains_key(key) {
            Some(yaml_members(*self)[key])
        } else {
            None
        }
    }

    fn _get(&self, key: &String) -> (found: Option<&Self>) {
        yaml_get(self, key)
    }
}

} // verus!
