//! The mathematical model of the resolution algorithm.
//!
//! Resolution is a depth-first descent over a description: dependencies are
//! fully resolved before the instance that needs them is constructed. The
//! model threads the scope's store, the next fresh identity, and the
//! memoization log (the keys inserted into the store, in insertion order)
//! through that descent; the executable resolvers are proved equal to it.

use vstd::prelude::*;

use crate::desc::Desc;
use crate::desc::desc_wf;
use crate::desc::descs_wf;
use crate::registry::cons_bound;
use crate::registry::needs_scope;
use crate::registry::scope_key_seq;
use crate::registry::cons_bound_seq;
use crate::registry::registry_wf;
use crate::scope::EntryV;
use crate::scope::dec_counts;
use crate::scope::sat_add1;
use crate::value::VModel;
use crate::value::counted_handles;

verus! {

/// The outcome of resolving one description.
pub struct ROut {
    /// The resolved value.
    pub v: VModel,
    /// The store after resolution.
    pub m: Map<u64, EntryV>,
    /// The next fresh instance identity.
    pub next: nat,
    /// The keys memoized during resolution, in insertion order.
    pub log: Seq<u64>,
}

/// The outcome of resolving a sequence of member descriptions.
pub struct RSeqOut {
    /// The resolved member values, in order.
    pub vs: Seq<VModel>,
    /// The store after resolution.
    pub m: Map<u64, EntryV>,
    /// The next fresh instance identity.
    pub next: nat,
    /// The keys memoized during resolution, in insertion order.
    pub log: Seq<u64>,
}

/// Resolves `d` against the store `m`, minting identities from `next`.
///
/// An owned wrapper always constructs a fresh instance. A shared,
/// mutable-shared or borrowed wrapper consults the store first: on a hit it
/// yields a handle to the memoized instance without constructing anything;
/// on a miss it resolves the wrapped type's description, constructs the
/// instance, moves it into the store, and yields the first handle. Counted
/// handles inside a value that moves into the store are released, since the
/// store holds its entries directly.
pub open spec fn rmodel(reg: Seq<Desc>, bound: nat, d: Desc, m: Map<u64, EntryV>, next: nat) -> ROut
    decreases bound, d,
    when registry_wf(reg) && bound <= reg.len() && desc_wf(d, bound)
{
    match d {
        Desc::Empty => ROut { v: VModel::Unit, m, next, log: Seq::empty() },
        Desc::Aggregate(ds) => {
            let r = rmodel_seq(reg, bound, ds@, m, next);
            ROut { v: VModel::Aggregate(r.vs), m: r.m, next: r.next, log: r.log }
        },
        Desc::Owned(t) => {
            let r = rmodel(reg, t.k as nat, reg[t.k as int], m, next);
            ROut {
                v: VModel::Owned(t.k, r.next as u64, Box::new(r.v)),
                m: r.m,
                next: r.next + 1,
                log: r.log,
            }
        },
        Desc::Shared(t) => {
            if m.dom().contains(t.k) {
                ROut {
                    v: VModel::Shared(t.k, m[t.k].id),
                    m: bump_count(m, t.k),
                    next,
                    log: Seq::empty(),
                }
            } else {
                let r = rmodel(reg, t.k as nat, reg[t.k as int], m, next);
                let id = r.next as u64;
                let m1 = dec_counts(r.m, counted_handles(r.v));
                ROut {
                    v: VModel::Shared(t.k, id),
                    m: m1.insert(t.k, EntryV { id, data: r.v, count: 1 }),
                    next: r.next + 1,
                    log: r.log.push(t.k),
                }
            }
        },
        Desc::MutShared(t) => {
            if m.dom().contains(t.k) {
                ROut {
                    v: VModel::MutShared(t.k, m[t.k].id),
                    m: bump_count(m, t.k),
                    next,
                    log: Seq::empty(),
                }
            } else {
                let r = rmodel(reg, t.k as nat, reg[t.k as int], m, next);
                let id = r.next as u64;
                let m1 = dec_counts(r.m, counted_handles(r.v));
                ROut {
                    v: VModel::MutShared(t.k, id),
                    m: m1.insert(t.k, EntryV { id, data: r.v, count: 1 }),
                    next: r.next + 1,
                    log: r.log.push(t.k),
                }
            }
        },
        Desc::Borrowed(t) => {
            if m.dom().contains(t.k) {
                ROut { v: VModel::Borrowed(t.k, m[t.k].id), m, next, log: Seq::empty() }
            } else {
                let r = rmodel(reg, t.k as nat, reg[t.k as int], m, next);
                let id = r.next as u64;
                let m1 = dec_counts(r.m, counted_handles(r.v));
                ROut {
                    v: VModel::Borrowed(t.k, id),
                    m: m1.insert(t.k, EntryV { id, data: r.v, count: 0 }),
                    next: r.next + 1,
                    log: r.log.push(t.k),
                }
            }
        },
    }
}

/// Resolves members left to right, threading the store between them: a
/// shared type memoized by an earlier member is observed by later ones.
pub open spec fn rmodel_seq(
    reg: Seq<Desc>,
    bound: nat,
    ds: Seq<Desc>,
    m: Map<u64, EntryV>,
    next: nat,
) -> RSeqOut
    decreases bound, ds,
    when registry_wf(reg) && bound <= reg.len() && descs_wf(ds, bound)
{
    if ds.len() == 0 {
        RSeqOut { vs: Seq::empty(), m, next, log: Seq::empty() }
    } else {
        let r0 = rmodel(reg, bound, ds[0], m, next);
        let r1 = rmodel_seq(reg, bound, ds.drop_first(), r0.m, r0.next);
        RSeqOut { vs: seq![r0.v] + r1.vs, m: r1.m, next: r1.next, log: r0.log + r1.log }
    }
}

/// One more counted handle was handed out for the entry at `k`.
pub open spec fn bump_count(m: Map<u64, EntryV>, k: u64) -> Map<u64, EntryV> {
    m.insert(k, EntryV { id: m[k].id, data: m[k].data, count: sat_add1(m[k].count) })
}

/// Unfolding one member off a suffix of the member resolution.
pub proof fn lemma_rmodel_seq_step(
    reg: Seq<Desc>,
    bound: nat,
    ds: Seq<Desc>,
    i: int,
    m: Map<u64, EntryV>,
    next: nat,
)
    requires
        registry_wf(reg),
        bound <= reg.len(),
        descs_wf(ds, bound),
        0 <= i < ds.len(),
    ensures
        ({
            let r0 = rmodel(reg, bound, ds[i], m, next);
            let r1 = rmodel_seq(reg, bound, ds.skip(i + 1), r0.m, r0.next);
            rmodel_seq(reg, bound, ds.skip(i), m, next) == RSeqOut {
                vs: seq![r0.v] + r1.vs,
                m: r1.m,
                next: r1.next,
                log: r0.log + r1.log,
            }
        }),
{
    crate::desc::lemma_descs_wf_skip(ds, bound, i);
    assert(ds.skip(i)[0] == ds[i]);
    assert(ds.skip(i).drop_first() =~= ds.skip(i + 1));
}

/// Resolution only ever memoizes keys below the bound of the description it
/// is resolving; every other key's entry is left as it was.
pub proof fn lemma_rmodel_dom(reg: Seq<Desc>, bound: nat, d: Desc, m: Map<u64, EntryV>, next: nat)
    requires
        registry_wf(reg),
        bound <= reg.len(),
        desc_wf(d, bound),
    ensures
        forall|k: u64|
            rmodel(reg, bound, d, m, next).m.dom().contains(k) ==> m.dom().contains(k) || k
                < bound,
    decreases bound, d,
{
    match d {
        Desc::Empty => {},
        Desc::Aggregate(ds) => {
            lemma_rmodel_seq_dom(reg, bound, ds@, m, next);
        },
        Desc::Owned(t) => {
            lemma_rmodel_dom(reg, t.k as nat, reg[t.k as int], m, next);
        },
        Desc::Shared(t) => {
            if !m.dom().contains(t.k) {
                lemma_rmodel_dom(reg, t.k as nat, reg[t.k as int], m, next);
            }
        },
        Desc::MutShared(t) => {
            if !m.dom().contains(t.k) {
                lemma_rmodel_dom(reg, t.k as nat, reg[t.k as int], m, next);
            }
        },
        Desc::Borrowed(t) => {
            if !m.dom().contains(t.k) {
                lemma_rmodel_dom(reg, t.k as nat, reg[t.k as int], m, next);
            }
        },
    }
}

/// The sequence form of `lemma_rmodel_dom`.
pub proof fn lemma_rmodel_seq_dom(
    reg: Seq<Desc>,
    bound: nat,
    ds: Seq<Desc>,
    m: Map<u64, EntryV>,
    next: nat,
)
    requires
        registry_wf(reg),
        bound <= reg.len(),
        descs_wf(ds, bound),
    ensures
        forall|k: u64|
            rmodel_seq(reg, bound, ds, m, next).m.dom().contains(k) ==> m.dom().contains(k) || k
                < bound,
    decreases bound, ds,
{
    if ds.len() > 0 {
        let r0 = rmodel(reg, bound, ds[0], m, next);
        lemma_rmodel_dom(reg, bound, ds[0], m, next);
        lemma_rmodel_seq_dom(reg, bound, ds.drop_first(), r0.m, r0.next);
    }
}

/// A resolution that needs no scope leaves the store untouched.
pub proof fn lemma_rmodel_no_scope(
    reg: Seq<Desc>,
    bound: nat,
    d: Desc,
    m: Map<u64, EntryV>,
    next: nat,
)
    requires
        registry_wf(reg),
        bound <= reg.len(),
        desc_wf(d, bound),
        !needs_scope(reg, bound, d),
    ensures
        rmodel(reg, bound, d, m, next).m == m,
        rmodel(reg, bound, d, m, next).log == Seq::<u64>::empty(),
    decreases bound, d,
{
    match d {
        Desc::Empty => {},
        Desc::Aggregate(ds) => {
            lemma_rmodel_seq_no_scope(reg, bound, ds@, m, next);
        },
        Desc::Owned(t) => {
            lemma_rmodel_no_scope(reg, t.k as nat, reg[t.k as int], m, next);
        },
        Desc::Shared(_) => {},
        Desc::MutShared(_) => {},
        Desc::Borrowed(_) => {},
    }
}

/// The sequence form of `lemma_rmodel_no_scope`.
pub proof fn lemma_rmodel_seq_no_scope(
    reg: Seq<Desc>,
    bound: nat,
    ds: Seq<Desc>,
    m: Map<u64, EntryV>,
    next: nat,
)
    requires
        registry_wf(reg),
        bound <= reg.len(),
        descs_wf(ds, bound),
        scope_key_seq(reg, bound, ds) is None,
    ensures
        rmodel_seq(reg, bound, ds, m, next).m == m,
        rmodel_seq(reg, bound, ds, m, next).log == Seq::<u64>::empty(),
    decreases bound, ds,
{
    if ds.len() > 0 {
        let r0 = rmodel(reg, bound, ds[0], m, next);
        lemma_rmodel_no_scope(reg, bound, ds[0], m, next);
        lemma_rmodel_seq_no_scope(reg, bound, ds.drop_first(), r0.m, r0.next);
        assert((Seq::<u64>::empty() + Seq::<u64>::empty()) =~= Seq::<u64>::empty());
    }
}

/// Identities are minted in order, at most one per possible construction,
/// and at most one memoization happens per minted identity.
pub proof fn lemma_rmodel_next(reg: Seq<Desc>, bound: nat, d: Desc, m: Map<u64, EntryV>, next: nat)
    requires
        registry_wf(reg),
        bound <= reg.len(),
        desc_wf(d, bound),
    ensures
        rmodel(reg, bound, d, m, next).next >= next,
        rmodel(reg, bound, d, m, next).next <= next + cons_bound(reg, bound, d),
        rmodel(reg, bound, d, m, next).log.len() <= rmodel(reg, bound, d, m, next).next - next,
    decreases bound, d,
{
    match d {
        Desc::Empty => {},
        Desc::Aggregate(ds) => {
            lemma_rmodel_seq_next(reg, bound, ds@, m, next);
        },
        Desc::Owned(t) => {
            lemma_rmodel_next(reg, t.k as nat, reg[t.k as int], m, next);
        },
        Desc::Shared(t) => {
            if !m.dom().contains(t.k) {
                lemma_rmodel_next(reg, t.k as nat, reg[t.k as int], m, next);
            }
        },
        Desc::MutShared(t) => {
            if !m.dom().contains(t.k) {
                lemma_rmodel_next(reg, t.k as nat, reg[t.k as int], m, next);
            }
        },
        Desc::Borrowed(t) => {
            if !m.dom().contains(t.k) {
                lemma_rmodel_next(reg, t.k as nat, reg[t.k as int], m, next);
            }
        },
    }
}

/// The sequence form of `lemma_rmodel_next`.
pub proof fn lemma_rmodel_seq_next(
    reg: Seq<Desc>,
    bound: nat,
    ds: Seq<Desc>,
    m: Map<u64, EntryV>,
    next: nat,
)
    requires
        registry_wf(reg),
        bound <= reg.len(),
        descs_wf(ds, bound),
    ensures
        rmodel_seq(reg, bound, ds, m, next).next >= next,
        rmodel_seq(reg, bound, ds, m, next).next <= next + cons_bound_seq(reg, bound, ds),
        rmodel_seq(reg, bound, ds, m, next).log.len() <= rmodel_seq(reg, bound, ds, m, next).next
            - next,
    decreases bound, ds,
{
    if ds.len() > 0 {
        let r0 = rmodel(reg, bound, ds[0], m, next);
        lemma_rmodel_next(reg, bound, ds[0], m, next);
        lemma_rmodel_seq_next(reg, bound, ds.drop_first(), r0.m, r0.next);
    }
}

} // verus!
