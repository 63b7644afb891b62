//! Resolved values: instances, sharing handles, and their mathematical model.

use vstd::prelude::*;

use vstd::multiset::Multiset;

use crate::desc::TypeKey;

verus! {

/// A constructed instance of a producible type.
///
/// Construction is modeled as recording the resolved dependency value the
/// instance was built from, together with the instance's identity: a process
/// order number minted exactly once per construction.
#[derive(Debug, PartialEq)]
pub struct Instance {
    /// The producible type this instance belongs to.
    pub key: TypeKey,
    /// The instance's identity, unique per container or scope lineage.
    pub id: u64,
    /// The fully resolved dependency value the instance was built from.
    pub data: Value,
}

/// A counted handle to a memoized scope entry, granting read access.
///
/// Handles are minted by resolution; each mint raises the entry's handle
/// count and each release lowers it again. A handle is deliberately not
/// `Clone`: a new handle is obtained by resolving again.
#[derive(Debug, PartialEq)]
pub struct Handle {
    /// The store key of the entry the handle points to.
    pub key: TypeKey,
    /// The identity of the memoized instance.
    pub id: u64,
}

/// A counted handle to a memoized scope entry that also permits replacing
/// the stored value, so that one shared instance can be mutated in place.
#[derive(Debug, PartialEq)]
pub struct MutHandle {
    /// The store key of the entry the handle points to.
    pub key: TypeKey,
    /// The identity of the memoized instance.
    pub id: u64,
}

/// An uncounted reference to a memoized scope entry, valid only while the
/// owning scope is alive: reading through it after the scope ended is
/// rejected as a scope escape.
#[derive(Clone, Copy, PartialEq, Eq, Structural, Debug)]
pub struct B {
    /// The store key of the entry the reference points to.
    pub key: TypeKey,
    /// The identity of the memoized instance.
    pub id: u64,
}

/// A root dependency that wraps a freshly constructed, owned instance.
///
/// `Owned` is single use: consuming it unwraps to the instance, after which
/// the wrapper is spent.
#[derive(Debug, PartialEq)]
pub struct Owned {
    pub t: Instance,
}

impl Owned {
    /// Unwraps the freshly constructed instance.
    pub fn value(self) -> (r: Instance)
        ensures
            r == self.t,
    {
        self.t
    }
}

/// A fully resolved dependency value, mirroring the description shapes.
#[derive(Debug, PartialEq)]
pub enum Value {
    /// The resolution of the empty description.
    Unit,
    /// Positionally aggregated member values.
    Aggregate(Vec<Value>),
    /// A freshly constructed instance, held by value.
    Owned(Box<Owned>),
    /// A counted handle to the memoized instance of the key.
    Shared(Handle),
    /// A counted handle that also permits mutation of the stored value.
    MutShared(MutHandle),
    /// An uncounted reference tied to the owning scope's lifetime.
    Borrowed(B),
}

/// The mathematical model of a resolved value.
pub enum VModel {
    Unit,
    Aggregate(Seq<VModel>),
    /// key, identity, and the model of the instance's dependency value.
    Owned(u64, u64, Box<VModel>),
    /// key and identity of the memoized entry the handle points to.
    Shared(u64, u64),
    MutShared(u64, u64),
    Borrowed(u64, u64),
}

/// The model of an executable value.
pub open spec fn vmodel(v: Value) -> VModel
    decreases v,
{
    match v {
        Value::Unit => VModel::Unit,
        Value::Aggregate(vs) => VModel::Aggregate(vmodels(vs@)),
        Value::Owned(o) => VModel::Owned(o.t.key.k, o.t.id, Box::new(vmodel(o.t.data))),
        Value::Shared(h) => VModel::Shared(h.key.k, h.id),
        Value::MutShared(h) => VModel::MutShared(h.key.k, h.id),
        Value::Borrowed(b) => VModel::Borrowed(b.key.k, b.id),
    }
}

/// The models of a sequence of executable values.
pub open spec fn vmodels(vs: Seq<Value>) -> Seq<VModel>
    decreases vs,
{
    if vs.len() == 0 {
        Seq::empty()
    } else {
        seq![vmodel(vs[0])] + vmodels(vs.drop_first())
    }
}

/// The multiset of store keys of all counted handles inside a value.
///
/// Shared and mutable-shared handles are counted; borrowed references are
/// not, because their validity is tied to the scope, not to a count.
pub open spec fn counted_handles(v: VModel) -> Multiset<u64>
    decreases v,
{
    match v {
        VModel::Unit => Multiset::empty(),
        VModel::Aggregate(vs) => counted_handles_seq(vs),
        VModel::Owned(_, _, d) => counted_handles(*d),
        VModel::Shared(k, _) => Multiset::singleton(k),
        VModel::MutShared(k, _) => Multiset::singleton(k),
        VModel::Borrowed(_, _) => Multiset::empty(),
    }
}

/// The counted handles of a sequence of value models.
pub open spec fn counted_handles_seq(vs: Seq<VModel>) -> Multiset<u64>
    decreases vs,
{
    if vs.len() == 0 {
        Multiset::empty()
    } else {
        counted_handles(vs[0]).add(counted_handles_seq(vs.drop_first()))
    }
}

/// Every instance identity occurring in a value, whether of an owned
/// instance or of the entry a handle or borrowed reference points to.
pub open spec fn ids_in(v: VModel) -> Set<u64>
    decreases v,
{
    match v {
        VModel::Unit => Set::empty(),
        VModel::Aggregate(vs) => ids_in_seq(vs),
        VModel::Owned(_, id, d) => ids_in(*d).insert(id),
        VModel::Shared(_, id) => Set::empty().insert(id),
        VModel::MutShared(_, id) => Set::empty().insert(id),
        VModel::Borrowed(_, id) => Set::empty().insert(id),
    }
}

/// The identities occurring in a sequence of value models.
pub open spec fn ids_in_seq(vs: Seq<VModel>) -> Set<u64>
    decreases vs,
{
    if vs.len() == 0 {
        Set::empty()
    } else {
        ids_in(vs[0]).union(ids_in_seq(vs.drop_first()))
    }
}

/// The pairs `(key, id)` of every handle or borrowed reference in a value.
pub open spec fn handle_refs(v: VModel) -> Set<(u64, u64)>
    decreases v,
{
    match v {
        VModel::Unit => Set::empty(),
        VModel::Aggregate(vs) => handle_refs_seq(vs),
        VModel::Owned(_, _, d) => handle_refs(*d),
        VModel::Shared(k, id) => Set::empty().insert((k, id)),
        VModel::MutShared(k, id) => Set::empty().insert((k, id)),
        VModel::Borrowed(k, id) => Set::empty().insert((k, id)),
    }
}

/// The handle references of a sequence of value models.
pub open spec fn handle_refs_seq(vs: Seq<VModel>) -> Set<(u64, u64)>
    decreases vs,
{
    if vs.len() == 0 {
        Set::empty()
    } else {
        handle_refs(vs[0]).union(handle_refs_seq(vs.drop_first()))
    }
}

} // verus!
