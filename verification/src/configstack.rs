//! The layered store and its lookup.

use vstd::prelude::*;
use crate::gettable::{lemma_resolve_stops_at_missing_child, resolve, Gettable};
use crate::path::{
    free_of, join, lemma_path_parts_of_join, lemma_separator_renamed, path_parts, split_path,
    with_separator,
};

verus! {

/// Combines several tree-shaped documents so that they can be queried as
/// one. Documents pushed later take priority over those pushed earlier.
///
/// Paths are split on a separator character, `/` unless another is chosen
/// with [`ConfigStack::with_path_sep`].
#[derive(Debug)]
pub struct ConfigStack<Value> {
    path_sep: char,
    configs: Vec<Value>,
}

/// The outcome of looking a path up in a [`ConfigStack`].
#[derive(Debug, PartialEq)]
pub enum Lookup<Value> {
    /// No layer resolves the whole path.
    Missing,
    /// The node that the path leads to in the winning layer.
    Found(Value),
}

/// What a [`ConfigStack`] is, mathematically: a separator and the layers in
/// the order they were pushed, the base layer first.
pub struct StackView<Value> {
    pub path_sep: char,
    pub layers: Seq<Value>,
}

impl<Value> View for ConfigStack<Value> {
    type V = StackView<Value>;

    closed spec fn view(&self) -> StackView<Value> {
        StackView { path_sep: self.path_sep, layers: self.configs@ }
    }
}

impl<'a, Value> View for Lookup<&'a Value> {
    type V = Lookup<Value>;

    /// The same outcome, with the node itself in place of the reference to it.
    open spec fn view(&self) -> Lookup<Value> {
        match *self {
            Lookup::Missing => Lookup::Missing,
            Lookup::Found(node) => Lookup::Found(*node),
        }
    }
}

/// The result of a lookup of `parts` in `layers`: the node that the last
/// layer resolving the whole path leads to, `Missing` if no layer does.
pub open spec fn lookup<V: Gettable>(layers: Seq<V>, parts: Seq<Seq<char>>) -> Lookup<V>
    decreases layers.len(),
{
    if layers.len() == 0 {
        Lookup::Missing
    } else {
        match resolve(layers.last(), parts) {
            Some(node) => Lookup::Found(node),
            None => lookup(layers.drop_last(), parts),
        }
    }
}

impl<Value: Gettable> StackView<Value> {
    /// The empty stack with the default separator, `/`.
    pub open spec fn new() -> Self {
        StackView { path_sep: '/', layers: Seq::empty() }
    }

    /// The same layers, queried with the separator `sep`.
    pub open spec fn with_path_sep(self, sep: char) -> Self {
        StackView { path_sep: sep, layers: self.layers }
    }

    /// The stack with `layer` added on top.
    pub open spec fn push(self, layer: Value) -> Self {
        StackView { path_sep: self.path_sep, layers: self.layers.push(layer) }
    }

    /// The stack without its top layer, and that layer; an empty stack stays
    /// as it is and gives `None`.
    pub open spec fn pop(self) -> (Self, Option<Value>) {
        if self.layers.len() == 0 {
            (self, None)
        } else {
            (
                StackView { path_sep: self.path_sep, layers: self.layers.drop_last() },
                Some(self.layers.last()),
            )
        }
    }

    /// The lookup of an already split path.
    pub open spec fn get_parts(self, parts: Seq<Seq<char>>) -> Lookup<Value> {
        lookup(self.layers, parts)
    }

    /// The lookup of a path string, split on the stack's separator.
    pub open spec fn get(self, path: Seq<char>) -> Lookup<Value> {
        self.get_parts(path_parts(path, self.path_sep))
    }
}

/// The last layer that resolves the whole path gives the result, whatever
/// the layers below it hold.
pub proof fn lemma_last_resolving_layer_wins<V: Gettable>(
    layers: Seq<V>,
    parts: Seq<Seq<char>>,
    winner: int,
)
    requires
        0 <= winner < layers.len(),
        resolve(layers[winner], parts) is Some,
        forall|j: int| winner < j < layers.len() ==> #[trigger] resolve(layers[j], parts) is None,
    ensures
        lookup(layers, parts) == Lookup::Found(resolve(layers[winner], parts).unwrap()),
    decreases layers.len(),
{
    if winner < layers.len() - 1 {
        lemma_last_resolving_layer_wins(layers.drop_last(), parts, winner);
    }
}

/// What a lookup finds is the node that the path leads to in one single
/// layer, the last that resolves the whole path: nothing is ever put
/// together from several layers. The proof returns that layer's index.
pub proof fn lemma_found_in_last_resolving_layer<V: Gettable>(
    layers: Seq<V>,
    parts: Seq<Seq<char>>,
) -> (winner: int)
    requires
        lookup(layers, parts) is Found,
    ensures
        0 <= winner < layers.len(),
        resolve(layers[winner], parts) == Some(lookup(layers, parts)->Found_0),
        forall|j: int| winner < j < layers.len() ==> #[trigger] resolve(layers[j], parts) is None,
    decreases layers.len(),
{
    if resolve(layers.last(), parts) is None {
        let below: int = lemma_found_in_last_resolving_layer(layers.drop_last(), parts);
        assert(layers.drop_last()[below] == layers[below]);
        assert forall|j: int| below < j < layers.len() implies #[trigger] resolve(
            layers[j],
            parts,
        ) is None by {
            if j < layers.len() - 1 {
                assert(layers.drop_last()[j] == layers[j]);
            }
        }
        below
    } else {
        layers.len() - 1
    }
}

/// A lookup misses exactly when no layer resolves the whole path.
pub proof fn lemma_missing_iff_no_layer_resolves<V: Gettable>(
    layers: Seq<V>,
    parts: Seq<Seq<char>>,
)
    ensures
        lookup(layers, parts) is Missing <==> forall|i: int|
            0 <= i < layers.len() ==> #[trigger] resolve(layers[i], parts) is None,
    decreases layers.len(),
{
    if lookup(layers, parts) is Found {
        let winner: int = lemma_found_in_last_resolving_layer(layers, parts);
        assert(resolve(layers[winner], parts) is Some);
    } else if layers.len() > 0 {
        lemma_missing_iff_no_layer_resolves(layers.drop_last(), parts);
        assert forall|i: int| 0 <= i < layers.len() implies #[trigger] resolve(
            layers[i],
            parts,
        ) is None by {
            if i < layers.len() - 1 {
                assert(layers.drop_last()[i] == layers[i]);
            }
        }
    }
}

impl<Value: Gettable> StackView<Value> {
    /// Of two layers that both resolve a path, the one pushed later gives
    /// the result, as long as no layer pushed after it resolves the path
    /// too.
    pub proof fn lemma_later_layer_wins(self, path: Seq<char>, earlier: int, later: int)
        requires
            0 <= earlier < later < self.layers.len(),
            resolve(self.layers[earlier], path_parts(path, self.path_sep)) is Some,
            resolve(self.layers[later], path_parts(path, self.path_sep)) is Some,
            forall|j: int|
                later < j < self.layers.len() ==> #[trigger] resolve(
                    self.layers[j],
                    path_parts(path, self.path_sep),
                ) is None,
        ensures
            self.get(path) == Lookup::Found(
                resolve(self.layers[later], path_parts(path, self.path_sep)).unwrap(),
            ),
    {
        lemma_last_resolving_layer_wins(self.layers, path_parts(path, self.path_sep), later);
    }

    /// A layer that does not resolve the whole path is passed over: the
    /// result is that of the stack below it.
    pub proof fn lemma_unresolved_layer_is_passed_over(self, top: Value, path: Seq<char>)
        requires
            resolve(top, path_parts(path, self.path_sep)) is None,
        ensures
            self.push(top).get(path) == self.get(path),
    {
        assert(self.layers.push(top).drop_last() == self.layers);
    }

    /// A top layer in which the path breaks off after `depth` keys, at a
    /// node without a child under the next key (a scalar, say, where the
    /// layers below have a mapping), hides nothing of the layers below and
    /// adds nothing to what they hold.
    pub proof fn lemma_broken_path_falls_through(self, top: Value, path: Seq<char>, depth: int)
        requires
            0 <= depth < path_parts(path, self.path_sep).len(),
            resolve(top, path_parts(path, self.path_sep).take(depth)) is Some,
            resolve(top, path_parts(path, self.path_sep).take(depth)).unwrap().child(
                path_parts(path, self.path_sep)[depth],
            ) is None,
        ensures
            self.push(top).get(path) == self.get(path),
    {
        lemma_resolve_stops_at_missing_child(top, path_parts(path, self.path_sep), depth);
        self.lemma_unresolved_layer_is_passed_over(top, path);
    }

    /// A stack queried with another separator gives the same result for the
    /// path written with that separator, provided the path does not already
    /// use the new separator inside its keys.
    pub proof fn lemma_separator_is_notation(self, path: Seq<char>, sep: char)
        requires
            sep != self.path_sep ==> free_of(path, sep),
        ensures
            self.with_path_sep(sep).get(with_separator(path, self.path_sep, sep)) == self.get(
                path,
            ),
    {
        lemma_separator_renamed(path, self.path_sep, sep);
    }

    /// Looking up keys one has in hand gives the same result as looking up
    /// the path string that joins them, provided no key holds the separator
    /// and, where there are several keys, neither the first nor the last is
    /// empty.
    pub proof fn lemma_joined_path_agrees_with_parts(self, parts: Seq<Seq<char>>)
        requires
            parts.len() >= 1,
            forall|i: int| 0 <= i < parts.len() ==> free_of(#[trigger] parts[i], self.path_sep),
            parts.len() > 1 ==> parts.first().len() > 0 && parts.last().len() > 0,
        ensures
            self.get(join(parts, self.path_sep)) == self.get_parts(parts),
    {
        lemma_path_parts_of_join(parts, self.path_sep);
    }

    /// Popping right after a push gives back the stack as it was, and the
    /// layer that was pushed.
    pub proof fn lemma_pop_undoes_push(self, layer: Value)
        ensures
            self.push(layer).pop() == (self, Some(layer)),
    {
        assert(self.layers.push(layer).drop_last() == self.layers);
    }
}

impl<Value> ConfigStack<Value> where Value: Gettable {
    /// Creates an empty stack that splits paths on `/`.
    pub fn new() -> (stack: ConfigStack<Value>)
        ensures
            stack@ == StackView::<Value>::new(),
    {
        ConfigStack { path_sep: '/', configs: Vec::new() }
    }

    /// Returns the stack with `sep` as its path separator; the layers stay
    /// as they are.
    pub fn with_path_sep(self, sep: char) -> (stack: ConfigStack<Value>)
        ensures
            stack@ == self@.with_path_sep(sep),
    {
        ConfigStack { path_sep: sep, configs: self.configs }
    }

    /// Adds a layer on top of the stack, where it takes priority over every
    /// layer already there.
    pub fn push(self, config: Value) -> (stack: ConfigStack<Value>)
        ensures
            stack@ == self@.push(config),
    {
        let mut configs = self.configs;
        configs.push(config);
        ConfigStack { path_sep: self.path_sep, configs }
    }

    /// Removes the top layer and returns the remaining stack together with
    /// that layer. The opposite of `push`. An empty stack is returned
    /// unchanged, with `None`.
    pub fn pop(self) -> (popped: (ConfigStack<Value>, Option<Value>))
        ensures
            (popped.0@, popped.1) == self@.pop(),
    {
        let mut configs = self.configs;
        let top = configs.pop();
        (ConfigStack { path_sep: self.path_sep, configs }, top)
    }

    /// Splits a path into its keys on the stack's separator, after trimming
    /// the separators at both ends.
    pub fn path_to_parts(&self, path: &str) -> (parts: Vec<String>)
        ensures
            parts.deep_view() == path_parts(path@, self@.path_sep),
    {
        split_path(path, self.path_sep)
    }

    /// Looks up the node at `path`, whose keys are separated by the stack's
    /// separator. Separators at either end of the path are ignored; an empty
    /// key between two separators, and the single empty key of an empty
    /// path, are looked up like any other key.
    ///
    /// The node found is borrowed from the layer that holds it.
    pub fn get(&self, path: &str) -> (found: Lookup<&Value>)
        ensures
            found@ == self@.get(path@),
            self@.layers.len() == 0 ==> found is Missing,
    {
        self.get_parts(self.path_to_parts(path))
    }

    /// Looks up the node at a path that is already split into its keys. The
    /// keys are taken as they are: none is split on the separator.
    ///
    /// Layers are tried from the most recently pushed down to the base; the
    /// first one in which every key resolves gives the result. With no keys
    /// at all that is the top layer itself.
    pub fn get_parts(&self, path_parts: Vec<String>) -> (found: Lookup<&Value>)
        ensures
            found@ == self@.get_parts(path_parts.deep_view()),
            self@.layers.len() == 0 ==> found is Missing,
    {
        let ghost parts = path_parts.deep_view();
        let mut remaining: usize = self.configs.len();
        assert(self.configs@.take(remaining as int) == self.configs@);
        while remaining > 0
            invariant
                remaining <= self.configs.len(),
                parts == path_parts.deep_view(),
                lookup(self.configs@, parts) == lookup(self.configs@.take(remaining as int), parts),
            decreases remaining,
        {
            let idx: usize = remaining - 1;
            let mut node: &Value = &self.configs[idx];
            let mut depth: usize = 0;
            let mut fully_resolved = true;
            assert(parts.skip(0) == parts);
            while fully_resolved && depth < path_parts.len()
                invariant
                    depth <= path_parts.len(),
                    idx < self.configs.len(),
                    parts == path_parts.deep_view(),
                    fully_resolved ==> resolve(self.configs@[idx as int], parts) == resolve(
                        *node,
                        parts.skip(depth as int),
                    ),
                    !fully_resolved ==> resolve(self.configs@[idx as int], parts) is None,
                decreases (if fully_resolved { 1int } else { 0int }), path_parts.len() - depth,
            {
                let ghost rest = parts.skip(depth as int);
                assert(rest.drop_first() == parts.skip(depth as int + 1));
                match node._get(&path_parts[depth]) {
                    Some(child) => {
                        node = child;
                        depth = depth + 1;
                    },
                    None => {
                        fully_resolved = false;
                    },
                }
            }
            let ghost upper = self.configs@.take(remaining as int);
            assert(upper.drop_last() == self.configs@.take(idx as int));
            if fully_resolved {
                return Lookup::Found(node);
            }
            remaining = idx;
        }
        Lookup::Missing
    }
}

} // verus!
