//! Typed outcomes of the store operations.

use vstd::prelude::*;

verus! {

/// An error returned by the alias store.
///
/// `InvalidNamespace` reports that the active namespace's alias map is
/// missing, a state the store's invariant rules out; the contracts prove it
/// unreachable, and the variant remains only to defend the interface.
/// `Simple` carries a policy-level rejection, such as an attempt to delete
/// the protected default namespace.
#[derive(Debug, PartialEq, Eq)]
pub enum Error {
    InvalidNamespace(String),
    AliasNotFound(String),
    NamespaceNotFound(String),
    Simple(&'static str),
}

} // verus!
