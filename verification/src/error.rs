//! The narrow runtime error taxonomy of the resolution engine.

use vstd::prelude::*;

use crate::desc::TypeKey;

verus! {

/// Everything that can go wrong at registration or resolution time.
///
/// The dominant error class of dependency resolution — an unsatisfiable
/// description — is rejected when the description is registered, so the
/// remaining taxonomy is small.
#[derive(PartialEq, Eq, Structural, Debug)]
pub enum ResolveError {
    /// A description mentions a type key that is not registered (at
    /// registration time this includes the description's own, not yet
    /// assigned key, which is how cyclic descriptions are rejected).
    Unregistered(TypeKey),
    /// A shared, mutable-shared or borrowed wrapper for this key was reached
    /// while resolving on the stateless container, which has no store.
    ScopeRequired(TypeKey),
    /// A scope, or one of its handles, was used after the scope ended.
    ScopeEscape,
}

} // verus!
