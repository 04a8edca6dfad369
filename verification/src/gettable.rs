//! The one capability a tree-shaped value must offer to take part in lookups.

use vstd::prelude::*;

verus! {

/// A node of a tree-shaped document whose children are found by string key.
///
/// `child` is the mathematical model of the node: the child it has under a
/// key, if any. `_get` is the executable lookup, and must agree with the
/// model exactly, so that a lookup neither changes the node nor depends on
/// anything but the node and the key.
///
/// Everything proved about lookups is proved from this contract. It holds of
/// an implementation that Verus has checked; any other is taken at its word.
pub trait Gettable: Sized {
    /// The child of this node named `key`, or `None` where the node is not a
    /// mapping or has no such key.
    spec fn child(&self, key: Seq<char>) -> Option<Self>;

    /// Looks up the child named `key`.
    fn _get(&self, key: &String) -> (found: Option<&Self>)
        ensures
            found is Some <==> self.child(key@) is Some,
            found matches Some(node) ==> self.child(key@) == Some(*node),
    ;
}

/// The node reached from `node` by following `parts` one key at a time, or
/// `None` as soon as one key has no child.
pub open spec fn resolve<V: Gettable>(node: V, parts: Seq<Seq<char>>) -> Option<V>
    decreases parts.len(),
{
    if parts.len() == 0 {
        Some(node)
    } else {
        match node.child(parts[0]) {
            Some(next) => resolve(next, parts.drop_first()),
            None => None,
        }
    }
}

/// Resolving a path is resolving its first `depth` keys and then the rest
/// from the node reached.
pub proof fn lemma_resolve_in_two_steps<V: Gettable>(node: V, parts: Seq<Seq<char>>, depth: int)
    requires
        0 <= depth <= parts.len(),
    ensures
        resolve(node, parts) == (match resolve(node, parts.take(depth)) {
            Some(reached) => resolve(reached, parts.skip(depth)),
            None => None,
        }),
    decreases depth,
{
    if depth == 0 {
        assert(parts.skip(0) == parts);
    } else {
        let head = parts.take(depth);
        assert(head.drop_first() == parts.drop_first().take(depth - 1));
        assert(parts.drop_first().skip(depth - 1) == parts.skip(depth));
        match node.child(parts[0]) {
            Some(next) => lemma_resolve_in_two_steps(next, parts.drop_first(), depth - 1),
            None => {},
        }
    }
}

/// A path does not resolve in a tree where, after `depth` keys, the node
/// reached has no child under the next key: for instance where that node is
/// a scalar.
pub proof fn lemma_resolve_stops_at_missing_child<V: Gettable>(
    node: V,
    parts: Seq<Seq<char>>,
    depth: int,
)
    requires
        0 <= depth < parts.len(),
        resolve(node, parts.take(depth)) is Some,
        resolve(node, parts.take(depth)).unwrap().child(parts[depth]) is None,
    ensures
        resolve(node, parts) is None,
{
    lemma_resolve_in_two_steps(node, parts, depth);
}

} // verus!
