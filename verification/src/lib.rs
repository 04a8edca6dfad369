//! Layered configuration lookup.
//!
//! A [`ConfigStack`] holds an ordered stack of tree-shaped documents and
//! answers path queries against it: the most recently pushed document in
//! which the whole path resolves wins.

pub mod configstack;
pub mod gettable;
pub mod hjson;
pub mod json;
pub mod path;
pub mod yaml;

pub use configstack::{ConfigStack, Lookup};
pub use gettable::Gettable;
