//! A per-user, namespaced alias store with a dice-expression resolution
//! pipeline.
//!
//! Users define text substitution rules ("aliases") scoped to named contexts
//! ("namespaces"); a free-form input expression is rewritten using the active
//! namespace's aliases, split into independent dice sub-expressions, handed
//! to an external roller, and the rolled text is sanitized for display.  The
//! whole store round-trips through a JSON snapshot.

pub mod color;
pub mod database;
pub mod error;
pub mod resolver;
pub mod snapshot;
pub mod table;
pub mod tz;
pub mod users;

use vstd::prelude::*;

verus! {

/// Adds two numbers.
pub fn add(left: usize, right: usize) -> (r: usize)
    requires
        left + right <= usize::MAX,
    ensures
        r == left + right,
{
    left + right
}

} // verus!
