//! The containers: the entry points that run the resolution algorithm.
//!
//! `BasicContainer` is stateless: every resolution re-runs the full
//! recursive descent, and any wrapper that needs memoization is rejected.
//! `ScopedContainer` binds the same recursion to a scope-owned `Store` and
//! memoizes shared-wrapped types there.

use vstd::prelude::*;

use crate::desc::Desc;
use crate::desc::TypeKey;
use crate::desc::desc_wf;
use crate::desc::descs_wf;
use crate::desc::lemma_descs_wf_index;
use crate::error::ResolveError;
use crate::registry::Registry;
use crate::registry::cons_bound;
use crate::registry::cons_bound_seq;
use crate::registry::lemma_cons_seq_step;
use crate::registry::lemma_scope_key_seq_none;
use crate::registry::lemma_scope_key_seq_skip;
use crate::registry::needs_scope;
use crate::registry::scope_key;
use crate::resolution::bump_count;
use crate::resolution::lemma_rmodel_dom;
use crate::resolution::lemma_rmodel_next;
use crate::resolution::lemma_rmodel_no_scope;
use crate::resolution::lemma_rmodel_seq_step;
use crate::resolution::rmodel;
use crate::resolution::rmodel_seq;
use crate::scope::EntryV;
use crate::scope::Store;
use crate::scope::lemma_vmodels_index;
use crate::value::Handle;
use crate::value::Instance;
use crate::value::MutHandle;
use crate::value::Owned;
use crate::value::VModel;
use crate::value::Value;
use crate::value::B;
use crate::value::vmodel;
use crate::value::vmodels;

verus! {

/// Resolves `d` against a live scope, following the resolution model.
fn resolve_scoped(reg: &Registry, bound: u64, d: &Desc, sp: &mut Store, next_id: &mut u64) -> (v:
    Value)
    requires
        reg.wf(),
        bound as nat <= reg@.len(),
        desc_wf(*d, bound as nat),
        old(sp).inv(),
        !old(sp).has_ended(),
        old(sp).capacity() == reg@.len(),
        *old(next_id) + cons_bound(reg@, bound as nat, *d) <= u64::MAX,
    ensures
        final(sp).inv(),
        !final(sp).has_ended(),
        final(sp).capacity() == old(sp).capacity(),
        final(sp).destroyed_log() == old(sp).destroyed_log(),
        ({
            let rm = rmodel(reg@, bound as nat, *d, old(sp).entries(), *old(next_id) as nat);
            vmodel(v) == rm.v && final(sp).entries() == rm.m && *final(next_id) as nat == rm.next
        }),
    decreases bound, *d,
{
    match d {
        Desc::Empty => Value::Unit,
        Desc::Owned(t) => {
            proof {
                assert(desc_wf(reg@[t.k as int], t.k as nat));
                lemma_rmodel_next(
                    reg@,
                    t.k as nat,
                    reg@[t.k as int],
                    old(sp).entries(),
                    *old(next_id) as nat,
                );
            }
            let dd = reg.desc_ref(t.k);
            let dv = resolve_scoped(reg, t.k, dd, sp, next_id);
            let id = *next_id;
            *next_id = id + 1;
            Value::Owned(Box::new(Owned { t: Instance { key: *t, id, data: dv } }))
        },
        Desc::Shared(t) => {
            proof {
                assert(desc_wf(reg@[t.k as int], t.k as nat));
            }
            match sp.entry_id(*t) {
                Some(id) => {
                    sp.bump(*t);
                    proof {
                        assert(sp.entries() == bump_count(old(sp).entries(), t.k));
                    }
                    Value::Shared(Handle { key: *t, id })
                },
                None => {
                    proof {
                        lemma_rmodel_next(
                            reg@,
                            t.k as nat,
                            reg@[t.k as int],
                            old(sp).entries(),
                            *old(next_id) as nat,
                        );
                        lemma_rmodel_dom(
                            reg@,
                            t.k as nat,
                            reg@[t.k as int],
                            old(sp).entries(),
                            *old(next_id) as nat,
                        );
                    }
                    let dd = reg.desc_ref(t.k);
                    let dv = resolve_scoped(reg, t.k, dd, sp, next_id);
                    let id = *next_id;
                    *next_id = id + 1;
                    sp.insert(*t, id, dv, 1);
                    Value::Shared(Handle { key: *t, id })
                },
            }
        },
        Desc::MutShared(t) => {
            proof {
                assert(desc_wf(reg@[t.k as int], t.k as nat));
            }
            match sp.entry_id(*t) {
                Some(id) => {
                    sp.bump(*t);
                    proof {
                        assert(sp.entries() == bump_count(old(sp).entries(), t.k));
                    }
                    Value::MutShared(MutHandle { key: *t, id })
                },
                None => {
                    proof {
                        lemma_rmodel_next(
                            reg@,
                            t.k as nat,
                            reg@[t.k as int],
                            old(sp).entries(),
                            *old(next_id) as nat,
                        );
                        lemma_rmodel_dom(
                            reg@,
                            t.k as nat,
                            reg@[t.k as int],
                            old(sp).entries(),
                            *old(next_id) as nat,
                        );
                    }
                    let dd = reg.desc_ref(t.k);
                    let dv = resolve_scoped(reg, t.k, dd, sp, next_id);
                    let id = *next_id;
                    *next_id = id + 1;
                    sp.insert(*t, id, dv, 1);
                    Value::MutShared(MutHandle { key: *t, id })
                },
            }
        },
        Desc::Borrowed(t) => {
            proof {
                assert(desc_wf(reg@[t.k as int], t.k as nat));
            }
            match sp.entry_id(*t) {
                Some(id) => Value::Borrowed(B { key: *t, id }),
                None => {
                    proof {
                        lemma_rmodel_next(
                            reg@,
                            t.k as nat,
                            reg@[t.k as int],
                            old(sp).entries(),
                            *old(next_id) as nat,
                        );
                        lemma_rmodel_dom(
                            reg@,
                            t.k as nat,
                            reg@[t.k as int],
                            old(sp).entries(),
                            *old(next_id) as nat,
                        );
                    }
                    let dd = reg.desc_ref(t.k);
                    let dv = resolve_scoped(reg, t.k, dd, sp, next_id);
                    let id = *next_id;
                    *next_id = id + 1;
                    sp.insert(*t, id, dv, 0);
                    Value::Borrowed(B { key: *t, id })
                },
            }
        },
        Desc::Aggregate(ds) => {
            let n = ds.len();
            let mut vs: Vec<Value> = Vec::new();
            proof {
                assert(ds@.skip(0) =~= ds@);
                assert(vmodels(vs@) + rmodel_seq(
                    reg@,
                    bound as nat,
                    ds@,
                    old(sp).entries(),
                    *old(next_id) as nat,
                ).vs =~= rmodel_seq(
                    reg@,
                    bound as nat,
                    ds@,
                    old(sp).entries(),
                    *old(next_id) as nat,
                ).vs);
            }
            for i in 0..n
                invariant
                    n == ds.len(),
                    *d == Desc::Aggregate(*ds),
                    reg.wf(),
                    bound as nat <= reg@.len(),
                    descs_wf(ds@, bound as nat),
                    sp.inv(),
                    !sp.has_ended(),
                    sp.capacity() == reg@.len(),
                    sp.destroyed_log() == old(sp).destroyed_log(),
                    vs@.len() == i,
                    *next_id as nat + cons_bound_seq(reg@, bound as nat, ds@.skip(i as int))
                        <= u64::MAX,
                    ({
                        let target = rmodel_seq(
                            reg@,
                            bound as nat,
                            ds@,
                            old(sp).entries(),
                            *old(next_id) as nat,
                        );
                        let rest = rmodel_seq(
                            reg@,
                            bound as nat,
                            ds@.skip(i as int),
                            sp.entries(),
                            *next_id as nat,
                        );
                        target.m == rest.m && target.next == rest.next && target.vs == vmodels(vs@)
                            + rest.vs
                    }),
                decreases n - i,
            {
                proof {
                    lemma_descs_wf_index(ds@, bound as nat);
                    assert(*d is Aggregate);
                    assert(d->Aggregate_0 == *ds);
                    assert(decreases_to!(*d => d->Aggregate_0));
                    assert(decreases_to!(*ds => ds@));
                    assert(decreases_to!(ds@ => ds@[i as int]));
                    assert(decreases_to!(*d => ds@[i as int]));
                    lemma_cons_seq_step(reg@, bound as nat, ds@, i as int);
                }
                let ghost pre_vs = vs@;
                let ghost pre_entries = sp.entries();
                let ghost pre_next = *next_id as nat;
                let v_i = resolve_scoped(reg, bound, &ds[i], sp, next_id);
                vs.push(v_i);
                proof {
                    lemma_rmodel_seq_step(
                        reg@,
                        bound as nat,
                        ds@,
                        i as int,
                        pre_entries,
                        pre_next,
                    );
                    lemma_rmodel_next(reg@, bound as nat, ds@[i as int], pre_entries, pre_next);
                    lemma_vmodels_index(pre_vs);
                    lemma_vmodels_index(vs@);
                    let r0 = rmodel(reg@, bound as nat, ds@[i as int], pre_entries, pre_next);
                    assert(vmodels(vs@) =~= vmodels(pre_vs) + seq![r0.v]);
                    let r1 = rmodel_seq(
                        reg@,
                        bound as nat,
                        ds@.skip(i as int + 1),
                        r0.m,
                        r0.next,
                    );
                    assert((vmodels(pre_vs) + seq![r0.v]) + r1.vs =~= vmodels(pre_vs) + (seq![
                        r0.v,
                    ] + r1.vs));
                }
            }
            proof {
                assert(ds@.skip(n as int) =~= Seq::<Desc>::empty());
                let target = rmodel_seq(
                    reg@,
                    bound as nat,
                    ds@,
                    old(sp).entries(),
                    *old(next_id) as nat,
                );
                assert(vmodels(vs@) + Seq::<VModel>::empty() =~= vmodels(vs@));
                assert(target.vs == vmodels(vs@));
            }
            Value::Aggregate(vs)
        },
    }
}

/// Resolves `d` without a store, following the resolution model with an
/// empty store; callable only for descriptions that need no scope.
fn resolve_basic(reg: &Registry, bound: u64, d: &Desc, next_id: &mut u64) -> (v: Value)
    requires
        reg.wf(),
        bound as nat <= reg@.len(),
        desc_wf(*d, bound as nat),
        !needs_scope(reg@, bound as nat, *d),
        *old(next_id) + cons_bound(reg@, bound as nat, *d) <= u64::MAX,
    ensures
        ({
            let rm = rmodel(
                reg@,
                bound as nat,
                *d,
                Map::<u64, EntryV>::empty(),
                *old(next_id) as nat,
            );
            vmodel(v) == rm.v && *final(next_id) as nat == rm.next
        }),
    decreases bound, *d,
{
    match d {
        Desc::Empty => Value::Unit,
        Desc::Owned(t) => {
            proof {
                assert(desc_wf(reg@[t.k as int], t.k as nat));
                lemma_rmodel_next(
                    reg@,
                    t.k as nat,
                    reg@[t.k as int],
                    Map::<u64, EntryV>::empty(),
                    *old(next_id) as nat,
                );
            }
            let dd = reg.desc_ref(t.k);
            let dv = resolve_basic(reg, t.k, dd, next_id);
            let id = *next_id;
            *next_id = id + 1;
            Value::Owned(Box::new(Owned { t: Instance { key: *t, id, data: dv } }))
        },
        Desc::Shared(_) => {
            proof {
                assert(false);
            }
            Value::Unit
        },
        Desc::MutShared(_) => {
            proof {
                assert(false);
            }
            Value::Unit
        },
        Desc::Borrowed(_) => {
            proof {
                assert(false);
            }
            Value::Unit
        },
        Desc::Aggregate(ds) => {
            let n = ds.len();
            let mut vs: Vec<Value> = Vec::new();
            proof {
                lemma_scope_key_seq_none(reg@, bound as nat, ds@);
                assert(ds@.skip(0) =~= ds@);
                assert(vmodels(vs@) + rmodel_seq(
                    reg@,
                    bound as nat,
                    ds@,
                    Map::<u64, EntryV>::empty(),
                    *old(next_id) as nat,
                ).vs =~= rmodel_seq(
                    reg@,
                    bound as nat,
                    ds@,
                    Map::<u64, EntryV>::empty(),
                    *old(next_id) as nat,
                ).vs);
            }
            for i in 0..n
                invariant
                    n == ds.len(),
                    *d == Desc::Aggregate(*ds),
                    reg.wf(),
                    bound as nat <= reg@.len(),
                    descs_wf(ds@, bound as nat),
                    forall|j: int|
                        0 <= j < ds@.len() ==> scope_key(reg@, bound as nat, #[trigger] ds@[j])
                            is None,
                    vs@.len() == i,
                    *next_id as nat + cons_bound_seq(reg@, bound as nat, ds@.skip(i as int))
                        <= u64::MAX,
                    ({
                        let target = rmodel_seq(
                            reg@,
                            bound as nat,
                            ds@,
                            Map::<u64, EntryV>::empty(),
                            *old(next_id) as nat,
                        );
                        let rest = rmodel_seq(
                            reg@,
                            bound as nat,
                            ds@.skip(i as int),
                            Map::<u64, EntryV>::empty(),
                            *next_id as nat,
                        );
                        target.next == rest.next && target.vs == vmodels(vs@) + rest.vs
                    }),
                decreases n - i,
            {
                proof {
                    lemma_descs_wf_index(ds@, bound as nat);
                    assert(*d is Aggregate);
                    assert(d->Aggregate_0 == *ds);
                    assert(decreases_to!(*d => d->Aggregate_0));
                    assert(decreases_to!(*ds => ds@));
                    assert(decreases_to!(ds@ => ds@[i as int]));
                    assert(decreases_to!(*d => ds@[i as int]));
                    lemma_cons_seq_step(reg@, bound as nat, ds@, i as int);
                }
                let ghost pre_vs = vs@;
                let ghost pre_next = *next_id as nat;
                let v_i = resolve_basic(reg, bound, &ds[i], next_id);
                vs.push(v_i);
                proof {
                    lemma_rmodel_seq_step(
                        reg@,
                        bound as nat,
                        ds@,
                        i as int,
                        Map::<u64, EntryV>::empty(),
                        pre_next,
                    );
                    lemma_rmodel_next(
                        reg@,
                        bound as nat,
                        ds@[i as int],
                        Map::<u64, EntryV>::empty(),
                        pre_next,
                    );
                    lemma_rmodel_no_scope(
                        reg@,
                        bound as nat,
                        ds@[i as int],
                        Map::<u64, EntryV>::empty(),
                        pre_next,
                    );
                    lemma_vmodels_index(pre_vs);
                    lemma_vmodels_index(vs@);
                    let r0 = rmodel(
                        reg@,
                        bound as nat,
                        ds@[i as int],
                        Map::<u64, EntryV>::empty(),
                        pre_next,
                    );
                    assert(vmodels(vs@) =~= vmodels(pre_vs) + seq![r0.v]);
                    let r1 = rmodel_seq(
                        reg@,
                        bound as nat,
                        ds@.skip(i as int + 1),
                        r0.m,
                        r0.next,
                    );
                    assert((vmodels(pre_vs) + seq![r0.v]) + r1.vs =~= vmodels(pre_vs) + (seq![
                        r0.v,
                    ] + r1.vs));
                }
            }
            proof {
                assert(ds@.skip(n as int) =~= Seq::<Desc>::empty());
                let target = rmodel_seq(
                    reg@,
                    bound as nat,
                    ds@,
                    Map::<u64, EntryV>::empty(),
                    *old(next_id) as nat,
                );
                assert(vmodels(vs@) + Seq::<VModel>::empty() =~= vmodels(vs@));
                assert(target.vs == vmodels(vs@));
            }
            Value::Aggregate(vs)
        },
    }
}

/// Finds the first store-needing wrapper reached by resolving `d`, in
/// depth-first order.
fn find_scope_key(reg: &Registry, bound: u64, d: &Desc) -> (r: Option<TypeKey>)
    requires
        reg.wf(),
        bound as nat <= reg@.len(),
        desc_wf(*d, bound as nat),
    ensures
        r == scope_key(reg@, bound as nat, *d),
    decreases bound, *d,
{
    match d {
        Desc::Empty => None,
        Desc::Owned(t) => {
            proof {
                assert(desc_wf(reg@[t.k as int], t.k as nat));
            }
            find_scope_key(reg, t.k, reg.desc_ref(t.k))
        },
        Desc::Shared(t) => Some(*t),
        Desc::MutShared(t) => Some(*t),
        Desc::Borrowed(t) => Some(*t),
        Desc::Aggregate(ds) => {
            let n = ds.len();
            for i in 0..n
                invariant
                    n == ds.len(),
                    *d == Desc::Aggregate(*ds),
                    reg.wf(),
                    bound as nat <= reg@.len(),
                    descs_wf(ds@, bound as nat),
                    forall|j: int|
                        0 <= j < i ==> scope_key(reg@, bound as nat, #[trigger] ds@[j]) is None,
                decreases n - i,
            {
                proof {
                    lemma_descs_wf_index(ds@, bound as nat);
                    assert(*d is Aggregate);
                    assert(d->Aggregate_0 == *ds);
                    assert(decreases_to!(*d => d->Aggregate_0));
                    assert(decreases_to!(*ds => ds@));
                    assert(decreases_to!(ds@ => ds@[i as int]));
                    assert(decreases_to!(*d => ds@[i as int]));
                }
                let r = find_scope_key(reg, bound, &ds[i]);
                if r.is_some() {
                    proof {
                        lemma_scope_key_seq_skip(reg@, bound as nat, ds@, i as int);
                        crate::desc::lemma_descs_wf_skip(ds@, bound as nat, i as int);
                        assert(ds@.skip(i as int)[0] == ds@[i as int]);
                    }
                    return r;
                }
            }
            proof {
                lemma_scope_key_seq_skip(reg@, bound as nat, ds@, n as int);
                assert(ds@.skip(n as int) =~= Seq::<Desc>::empty());
            }
            None
        },
    }
}

/// The stateless container: every resolution re-runs the full recursive
/// descent from scratch, and nothing is ever shared between resolutions.
pub struct BasicContainer {
    next_id: u64,
}

impl BasicContainer {
    /// The next instance identity this container will mint.
    pub closed spec fn next_identity(&self) -> nat {
        self.next_id as nat
    }

    /// Creates a stateless container.
    pub fn new() -> (c: BasicContainer)
        ensures
            c.next_identity() == 0,
    {
        BasicContainer { next_id: 0 }
    }

    /// The next instance identity this container will mint.
    pub fn next_id(&self) -> (r: u64)
        ensures
            r as nat == self.next_identity(),
    {
        self.next_id
    }

    /// Resolves a fresh instance of the producible type `key`.
    ///
    /// Succeeds exactly when `key` is registered and its description never
    /// reaches a shared, mutable-shared or borrowed wrapper: those require a
    /// scoped container and are rejected here as `ScopeRequired`.
    pub fn resolve(&mut self, reg: &Registry, key: TypeKey) -> (r: Result<Instance, ResolveError>)
        requires
            reg.wf(),
            key.k < reg@.len() ==> old(self).next_identity() + 1 + cons_bound(
                reg@,
                key.k as nat,
                reg@[key.k as int],
            ) <= u64::MAX,
        ensures
            r is Ok <==> (key.k < reg@.len() && !needs_scope(reg@, key.k as nat, reg@[key.k as int])),
            match r {
                Ok(inst) => ({
                    let rm = rmodel(
                        reg@,
                        key.k as nat,
                        reg@[key.k as int],
                        Map::<u64, EntryV>::empty(),
                        old(self).next_identity(),
                    );
                    &&& inst.key == key
                    &&& inst.id as nat == rm.next
                    &&& vmodel(inst.data) == rm.v
                    &&& final(self).next_identity() == rm.next + 1
                }),
                Err(e) => final(self).next_identity() == old(self).next_identity() && if key.k
                    >= reg@.len() {
                    e == ResolveError::Unregistered(key)
                } else {
                    e == ResolveError::ScopeRequired(
                        scope_key(reg@, key.k as nat, reg@[key.k as int]).unwrap(),
                    )
                },
            },
    {
        let n = reg.len();
        if key.k >= n as u64 {
            return Err(ResolveError::Unregistered(key));
        }
        proof {
            assert(desc_wf(reg@[key.k as int], key.k as nat));
        }
        match find_scope_key(reg, key.k, reg.desc_ref(key.k)) {
            Some(t) => Err(ResolveError::ScopeRequired(t)),
            None => {
                proof {
                    lemma_rmodel_next(
                        reg@,
                        key.k as nat,
                        reg@[key.k as int],
                        Map::<u64, EntryV>::empty(),
                        old(self).next_identity(),
                    );
                }
                let dv = resolve_basic(reg, key.k, reg.desc_ref(key.k), &mut self.next_id);
                let id = self.next_id;
                self.next_id = id + 1;
                Ok(Instance { key, id, data: dv })
            },
        }
    }
}

/// A container that can resolve dependencies.
///
/// The two container variants share this interface; the precise, model
/// equated contracts live on the variants' own resolution methods.
pub trait Container: Sized {
    /// The container is in a state fit to resolve against `reg`.
    spec fn ready(&self, reg: &Registry) -> bool;

    /// The next instance identity the container will mint.
    spec fn minted(&self) -> nat;

    /// Resolves a fresh instance of the producible type `key`: the
    /// registered dependency description is resolved first, and the
    /// instance is constructed from the result.
    fn resolve(&mut self, reg: &Registry, key: TypeKey) -> (r: Result<Instance, ResolveError>)
        requires
            reg.wf(),
            old(self).ready(reg),
            key.k < reg@.len() ==> old(self).minted() + 1 + cons_bound(
                reg@,
                key.k as nat,
                reg@[key.k as int],
            ) <= u64::MAX,
        ensures
            final(self).ready(reg),
            match r {
                Ok(inst) => {
                    &&& inst.key == key
                    &&& old(self).minted() <= inst.id as nat
                    &&& (inst.id as nat) < final(self).minted()
                },
                Err(_) => final(self).minted() == old(self).minted(),
            },
    ;
}

impl Container for BasicContainer {
    /// A stateless container is always fit to resolve.
    open spec fn ready(&self, reg: &Registry) -> bool {
        true
    }

    open spec fn minted(&self) -> nat {
        self.next_identity()
    }

    fn resolve(&mut self, reg: &Registry, key: TypeKey) -> (r: Result<Instance, ResolveError>) {
        proof {
            if key.k < reg@.len() {
                assert(desc_wf(reg@[key.k as int], key.k as nat));
                lemma_rmodel_next(
                    reg@,
                    key.k as nat,
                    reg@[key.k as int],
                    Map::<u64, EntryV>::empty(),
                    old(self).next_identity(),
                );
            }
        }
        BasicContainer::resolve(self, reg, key)
    }
}

impl Container for ScopedContainer {
    /// A scoped container is fit to resolve while its invariant holds and
    /// its store is sized to the registry.
    open spec fn ready(&self, reg: &Registry) -> bool {
        self.inv() && self.capacity() == reg@.len()
    }

    open spec fn minted(&self) -> nat {
        self.next_identity()
    }

    fn resolve(&mut self, reg: &Registry, key: TypeKey) -> (r: Result<Instance, ResolveError>) {
        proof {
            if key.k < reg@.len() {
                assert(desc_wf(reg@[key.k as int], key.k as nat));
                lemma_rmodel_next(
                    reg@,
                    key.k as nat,
                    reg@[key.k as int],
                    old(self).entries(),
                    old(self).next_identity(),
                );
            }
        }
        ScopedContainer::resolve(self, reg, key)
    }
}

/// The scoping operation: creating a new scope and using it within a
/// callback whose return tears the scope down.
pub trait Scope: Container {
    /// Runs `f` with a fresh scoped container bound to this container's
    /// identity stream, and ends the scope when `f` returns, so that the
    /// store's lifetime is exactly the call; identities minted inside the
    /// scope are consumed from this container, so a later scope never
    /// shares an instance with an earlier one.
    fn scope<F, T>(&mut self, reg: &Registry, f: F) -> (out: T) where
        F: FnOnce(ScopedContainer) -> (ScopedContainer, T),

        requires
            forall|sc: ScopedContainer|
                sc.inv() && sc.capacity() == reg@.len() && !sc.has_ended() && sc.entries()
                    == Map::<u64, EntryV>::empty() && sc.destroyed_log() == Seq::<u64>::empty()
                    && sc.next_identity() == old(self).minted() ==> #[trigger] call_requires(
                    f,
                    (sc,),
                ),
            forall|sc: ScopedContainer, res: (ScopedContainer, T)| #[trigger]
                call_ensures(f, (sc,), res) ==> res.0.inv(),
        ensures
            exists|sc0: ScopedContainer, sc1: ScopedContainer|
                {
                    &&& sc0.inv()
                    &&& sc0.capacity() == reg@.len()
                    &&& !sc0.has_ended()
                    &&& sc0.entries() == Map::<u64, EntryV>::empty()
                    &&& sc0.destroyed_log() == Seq::<u64>::empty()
                    &&& sc0.next_identity() == old(self).minted()
                    &&& #[trigger] call_ensures(f, (sc0,), (sc1, out))
                    &&& final(self).minted() == sc1.next_identity()
                },
    ;
}

impl Scope for BasicContainer {
    fn scope<F, T>(&mut self, reg: &Registry, f: F) -> (out: T) where F: FnOnce(
        ScopedContainer,
    ) -> (ScopedContainer, T) {
        let sc = ScopedContainer::new(reg, self.next_id);
        let ghost g0 = sc;
        let (sc1, out) = f(sc);
        let ghost g1 = sc1;
        let mut sc1 = sc1;
        sc1.end();
        self.next_id = sc1.next_id();
        proof {
            assert(call_ensures(f, (g0,), (g1, out)));
        }
        out
    }
}

/// The scoped container: the same recursive descent, bound to one scope
/// whose store memoizes every shared-wrapped type on first demand.
pub struct ScopedContainer {
    scope: Store,
    next_id: u64,
}

impl ScopedContainer {
    /// The next instance identity this container will mint.
    pub closed spec fn next_identity(&self) -> nat {
        self.next_id as nat
    }

    /// The model of the memoized entries, keyed by type key.
    pub closed spec fn entries(&self) -> Map<u64, EntryV> {
        self.scope.entries()
    }

    /// The number of store slots: one per registered type key.
    pub closed spec fn capacity(&self) -> nat {
        self.scope.capacity()
    }

    /// Whether the owned scope has ended.
    pub closed spec fn has_ended(&self) -> bool {
        self.scope.has_ended()
    }

    /// The keys of the destroyed entries, in destruction order.
    pub closed spec fn destroyed_log(&self) -> Seq<u64> {
        self.scope.destroyed_log()
    }

    /// The container's invariant: its scope's invariant.
    pub closed spec fn inv(&self) -> bool {
        self.scope.inv()
    }

    /// Creates a scoped container with a fresh scope sized to the registry,
    /// minting identities from `first_id` on.
    ///
    /// Distinct scopes created from successive identity ranges never share
    /// an instance: their stores are independent.
    pub fn new(reg: &Registry, first_id: u64) -> (c: ScopedContainer)
        ensures
            c.inv(),
            c.capacity() == reg@.len(),
            c.entries() == Map::<u64, EntryV>::empty(),
            !c.has_ended(),
            c.destroyed_log() == Seq::<u64>::empty(),
            c.next_identity() == first_id,
    {
        ScopedContainer { scope: Store::new(reg.len()), next_id: first_id }
    }

    /// The next instance identity this container will mint.
    pub fn next_id(&self) -> (r: u64)
        ensures
            r as nat == self.next_identity(),
    {
        self.next_id
    }

    /// A read-only view of the owned scope, for reading handles and
    /// inspecting the store.
    pub fn scope(&self) -> (r: &Store)
        ensures
            r.entries() == self.entries(),
            r.capacity() == self.capacity(),
            r.has_ended() == self.has_ended(),
            r.destroyed_log() == self.destroyed_log(),
            self.inv() ==> r.inv(),
    {
        &self.scope
    }

    /// Resolves a fresh instance of the producible type `key`, memoizing
    /// every shared-wrapped type its description reaches.
    ///
    /// Succeeds exactly when `key` is registered and the scope is alive.
    pub fn resolve(&mut self, reg: &Registry, key: TypeKey) -> (r: Result<Instance, ResolveError>)
        requires
            reg.wf(),
            old(self).inv(),
            old(self).capacity() == reg@.len(),
            key.k < reg@.len() ==> old(self).next_identity() + 1 + cons_bound(
                reg@,
                key.k as nat,
                reg@[key.k as int],
            ) <= u64::MAX,
        ensures
            final(self).inv(),
            final(self).capacity() == old(self).capacity(),
            final(self).has_ended() == old(self).has_ended(),
            final(self).destroyed_log() == old(self).destroyed_log(),
            r is Ok <==> (!old(self).has_ended() && key.k < reg@.len()),
            match r {
                Ok(inst) => ({
                    let rm = rmodel(
                        reg@,
                        key.k as nat,
                        reg@[key.k as int],
                        old(self).entries(),
                        old(self).next_identity(),
                    );
                    &&& inst.key == key
                    &&& inst.id as nat == rm.next
                    &&& vmodel(inst.data) == rm.v
                    &&& final(self).entries() == rm.m
                    &&& final(self).next_identity() == rm.next + 1
                }),
                Err(e) => {
                    &&& final(self).entries() == old(self).entries()
                    &&& final(self).next_identity() == old(self).next_identity()
                    &&& if old(self).has_ended() {
                        e == ResolveError::ScopeEscape
                    } else {
                        e == ResolveError::Unregistered(key)
                    }
                },
            },
    {
        if self.scope.is_ended() {
            return Err(ResolveError::ScopeEscape);
        }
        let n = reg.len();
        if key.k >= n as u64 {
            return Err(ResolveError::Unregistered(key));
        }
        proof {
            assert(desc_wf(reg@[key.k as int], key.k as nat));
            lemma_rmodel_next(
                reg@,
                key.k as nat,
                reg@[key.k as int],
                old(self).entries(),
                old(self).next_identity(),
            );
        }
        let dv = resolve_scoped(
            reg,
            key.k,
            reg.desc_ref(key.k),
            &mut self.scope,
            &mut self.next_id,
        );
        let id = self.next_id;
        self.next_id = id + 1;
        Ok(Instance { key, id, data: dv })
    }

    /// The memoization primitive: returns a counted handle to the memoized
    /// instance of `key`, resolving and storing it first if absent.
    ///
    /// Within one scope, every handle returned for the same key carries the
    /// same instance identity.
    pub fn get_or_add(&mut self, reg: &Registry, key: TypeKey) -> (r: Result<
        Handle,
        ResolveError,
    >)
        requires
            reg.wf(),
            old(self).inv(),
            old(self).capacity() == reg@.len(),
            key.k < reg@.len() ==> old(self).next_identity() + 1 + cons_bound(
                reg@,
                key.k as nat,
                reg@[key.k as int],
            ) <= u64::MAX,
        ensures
            final(self).inv(),
            final(self).capacity() == old(self).capacity(),
            final(self).has_ended() == old(self).has_ended(),
            final(self).destroyed_log() == old(self).destroyed_log(),
            r is Ok <==> (!old(self).has_ended() && key.k < reg@.len()),
            match r {
                Ok(h) => ({
                    let rm = rmodel(
                        reg@,
                        reg@.len() as nat,
                        Desc::Shared(key),
                        old(self).entries(),
                        old(self).next_identity(),
                    );
                    &&& h.key == key
                    &&& VModel::Shared(key.k, h.id) == rm.v
                    &&& final(self).entries() == rm.m
                    &&& final(self).next_identity() == rm.next
                    &&& final(self).entries().dom().contains(key.k)
                    &&& final(self).entries()[key.k].id == h.id
                }),
                Err(e) => {
                    &&& final(self).entries() == old(self).entries()
                    &&& final(self).next_identity() == old(self).next_identity()
                    &&& if old(self).has_ended() {
                        e == ResolveError::ScopeEscape
                    } else {
                        e == ResolveError::Unregistered(key)
                    }
                },
            },
    {
        if self.scope.is_ended() {
            return Err(ResolveError::ScopeEscape);
        }
        let n = reg.len();
        if key.k >= n as u64 {
            return Err(ResolveError::Unregistered(key));
        }
        proof {
            assert(desc_wf(reg@[key.k as int], key.k as nat));
            assert(desc_wf(Desc::Shared(key), reg@.len() as nat));
        }
        match self.scope.entry_id(key) {
            Some(id) => {
                self.scope.bump(key);
                proof {
                    assert(self.scope.entries() == bump_count(old(self).entries(), key.k));
                }
                Ok(Handle { key, id })
            },
            None => {
                proof {
                    lemma_rmodel_next(
                        reg@,
                        key.k as nat,
                        reg@[key.k as int],
                        old(self).entries(),
                        old(self).next_identity(),
                    );
                    lemma_rmodel_dom(
                        reg@,
                        key.k as nat,
                        reg@[key.k as int],
                        old(self).entries(),
                        old(self).next_identity(),
                    );
                }
                let dv = resolve_scoped(
                    reg,
                    key.k,
                    reg.desc_ref(key.k),
                    &mut self.scope,
                    &mut self.next_id,
                );
                let id = self.next_id;
                self.next_id = id + 1;
                self.scope.insert(key, id, dv, 1);
                Ok(Handle { key, id })
            },
        }
    }

    /// Releases a value, giving back every counted handle inside it; once
    /// the scope has ended, entries whose last handle this was are destroyed.
    pub fn release(&mut self, v: Value)
        requires
            old(self).inv(),
        ensures
            final(self).inv(),
            final(self).capacity() == old(self).capacity(),
            final(self).has_ended() == old(self).has_ended(),
            final(self).next_identity() == old(self).next_identity(),
            ({
                let m1 = crate::scope::dec_counts(
                    old(self).entries(),
                    crate::value::counted_handles(vmodel(v)),
                );
                if old(self).has_ended() {
                    final(self).entries() == crate::scope::sweep(m1) && final(self).destroyed_log()
                        == old(self).destroyed_log() + crate::scope::zero_keys_range(
                        m1,
                        old(self).capacity(),
                        0,
                    )
                } else {
                    final(self).entries() == m1 && final(self).destroyed_log() == old(self).destroyed_log()
                }
            }),
    {
        self.scope.release(v);
    }

    /// Replaces the value memoized under a mutable-shared handle.
    pub fn write(&mut self, h: &MutHandle, v: Value) -> (r: Result<(), ResolveError>)
        requires
            old(self).inv(),
        ensures
            final(self).inv(),
            final(self).capacity() == old(self).capacity(),
            final(self).has_ended() == old(self).has_ended(),
            final(self).next_identity() == old(self).next_identity(),
            match r {
                Ok(_) => ({
                    let k = h.key.k;
                    let m1 = crate::scope::dec_counts(
                        old(self).entries(),
                        crate::value::counted_handles(vmodel(v)),
                    );
                    let m2 = m1.insert(
                        k,
                        EntryV { id: h.id, data: vmodel(v), count: m1[k].count },
                    );
                    &&& old(self).entries().dom().contains(k)
                    &&& old(self).entries()[k].id == h.id
                    &&& if old(self).has_ended() {
                        final(self).entries() == crate::scope::sweep(m2) && final(self).destroyed_log() == old(self).destroyed_log()
                            + crate::scope::zero_keys_range(m2, old(self).capacity(), 0)
                    } else {
                        final(self).entries() == m2 && final(self).destroyed_log() == old(self).destroyed_log()
                    }
                }),
                Err(e) => {
                    &&& e == ResolveError::ScopeEscape
                    &&& final(self).entries() == old(self).entries()
                    &&& final(self).destroyed_log() == old(self).destroyed_log()
                    &&& !(old(self).entries().dom().contains(h.key.k) && old(self).entries()[h.key.k].id == h.id)
                },
            },
    {
        self.scope.write(h, v)
    }

    /// Ends the scope and runs the teardown pass; see `Store::end`.
    pub fn end(&mut self)
        requires
            old(self).inv(),
        ensures
            final(self).inv(),
            final(self).has_ended(),
            final(self).capacity() == old(self).capacity(),
            final(self).next_identity() == old(self).next_identity(),
            if old(self).has_ended() {
                final(self).entries() == old(self).entries() && final(self).destroyed_log() == old(self).destroyed_log()
            } else {
                final(self).entries() == crate::scope::sweep(old(self).entries()) && final(self).destroyed_log() == old(self).destroyed_log() + crate::scope::zero_keys_range(
                    old(self).entries(),
                    old(self).capacity(),
                    0,
                )
            },
    {
        self.scope.end()
    }
}

} // verus!
