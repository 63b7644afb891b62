//! A statically described dependency-resolution engine.
//!
//! A `Registry` holds one dependency description per producible type key.
//! Containers run a recursive resolution algorithm over those descriptions:
//! a stateless `BasicContainer` builds everything fresh, while a
//! `ScopedContainer` memoizes shared-wrapped types in a `Store` it owns for
//! the scope's lifetime, handing out reference-counted handles whose
//! entries are torn down deterministically when the scope ends.
//!
//! The executable resolvers are proved equal to a functional model of the
//! resolution algorithm; the engine's laws — fresh construction, per-scope
//! memoization, isolation between scopes, construction-once for shared
//! types, deterministic teardown, and the unrepresentability of cyclic
//! descriptions — are proved over that model and over the store.

mod container;
mod desc;
mod error;
mod laws;
mod registry;
mod resolution;
mod scope;
mod value;

pub use container::BasicContainer;
pub use container::Container;
pub use container::Scope;
pub use container::ScopedContainer;
pub use desc::Desc;
pub use desc::TypeKey;
pub use desc::desc_wf;
pub use desc::descs_wf;
pub use desc::first_unbound;
pub use error::ResolveError;
pub use laws::key_count;
pub use laws::lemma_aggregate_first_demand;
pub use laws::lemma_owned_freshness;
pub use laws::lemma_rmodel_handles;
pub use laws::lemma_rmodel_ids;
pub use laws::lemma_rmodel_mono;
pub use laws::lemma_rmodel_once;
pub use laws::lemma_scope_isolation;
pub use laws::lemma_scope_memoization;
pub use laws::lemma_shared_handle_present;
pub use laws::lemma_shared_once;
pub use laws::store_closed;
pub use registry::Registry;
pub use registry::cons_bound;
pub use registry::lemma_reaches_below;
pub use registry::lemma_registry_acyclic;
pub use registry::mentions;
pub use registry::exposes_key;
pub use registry::needs_scope;
pub use registry::reaches;
pub use registry::registry_wf;
pub use registry::scope_key;
pub use registry::shared_reach;
pub use resolution::ROut;
pub use resolution::RSeqOut;
pub use resolution::lemma_rmodel_next;
pub use resolution::rmodel;
pub use resolution::rmodel_seq;
pub use scope::EntryV;
pub use scope::Store;
pub use scope::dec_counts;
pub use scope::lemma_teardown_determinism;
pub use scope::sweep;
pub use scope::zero_keys_range;
pub use value::B;
pub use value::Handle;
pub use value::Instance;
pub use value::MutHandle;
pub use value::Owned;
pub use value::VModel;
pub use value::Value;
pub use value::counted_handles;
pub use value::handle_refs;
pub use value::ids_in;
pub use value::vmodel;
