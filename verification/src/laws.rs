//! The laws of the resolution engine, proved over the resolution model.
//!
//! The statements build on one another: resolution leaves memoized entries
//! in place (`lemma_rmodel_mono`), handles always carry their entry's
//! identity (`lemma_rmodel_handles`), identities are minted in order
//! (`lemma_rmodel_ids`), the store stays closed under shared requirements
//! (`lemma_rmodel_closed`), and a key is memoized at most once
//! (`lemma_rmodel_once`). The named laws — owned freshness, scope
//! memoization, scope isolation, and shared-construction-once — follow.

use vstd::prelude::*;

use crate::desc::Desc;
use crate::desc::desc_wf;
use crate::desc::descs_wf;
use crate::registry::cons_bound;
use crate::registry::exposes_key;
use crate::registry::exposes_key_seq;
use crate::registry::cons_bound_seq;
use crate::registry::needs_scope;
use crate::registry::registry_wf;
use crate::registry::shared_reach;
use crate::registry::shared_reach_seq;
use crate::resolution::lemma_rmodel_dom;
use crate::resolution::lemma_rmodel_next;
use crate::resolution::lemma_rmodel_seq_next;
use crate::resolution::rmodel;
use crate::resolution::rmodel_seq;
use crate::scope::EntryV;
use crate::value::VModel;
use crate::value::handle_refs;
use crate::value::ids_in;
use crate::value::ids_in_seq;
use crate::value::handle_refs_seq;

verus! {

/// The number of times a key was memoized, by the log.
pub open spec fn key_count(s: Seq<u64>, k: u64) -> nat
    decreases s,
{
    if s.len() == 0 {
        0
    } else {
        (if s[0] == k {
            1nat
        } else {
            0nat
        }) + key_count(s.drop_first(), k)
    }
}

/// Appending one key raises its count by one and no other.
pub proof fn lemma_key_count_push(s: Seq<u64>, x: u64, k: u64)
    ensures
        key_count(s.push(x), k) == key_count(s, k) + (if x == k {
            1nat
        } else {
            0nat
        }),
    decreases s,
{
    if s.len() == 0 {
        assert(s.push(x).drop_first() =~= Seq::<u64>::empty());
        assert(s.push(x)[0] == x);
        assert(key_count(s.push(x), k) == (if x == k {
            1nat
        } else {
            0nat
        }) + key_count(s.push(x).drop_first(), k));
        assert(key_count(s.push(x).drop_first(), k) == 0);
    } else {
        assert(s.push(x).drop_first() =~= s.drop_first().push(x));
        assert(s.push(x)[0] == s[0]);
        lemma_key_count_push(s.drop_first(), x, k);
        assert(key_count(s.push(x), k) == (if s[0] == k {
            1nat
        } else {
            0nat
        }) + key_count(s.drop_first().push(x), k));
    }
}

/// Counts add over concatenation.
pub proof fn lemma_key_count_concat(a: Seq<u64>, b: Seq<u64>, k: u64)
    ensures
        key_count(a + b, k) == key_count(a, k) + key_count(b, k),
    decreases a,
{
    if a.len() == 0 {
        assert(a + b =~= b);
    } else {
        assert((a + b).drop_first() =~= a.drop_first() + b);
        assert((a + b)[0] == a[0]);
        lemma_key_count_concat(a.drop_first(), b, k);
    }
}

/// Resolution never removes a memoized entry, and never changes a memoized
/// entry's identity or stored value; only handle counts move.
pub proof fn lemma_rmodel_mono(reg: Seq<Desc>, bound: nat, d: Desc, m: Map<u64, EntryV>, next: nat)
    requires
        registry_wf(reg),
        bound <= reg.len(),
        desc_wf(d, bound),
    ensures
        forall|k: u64|
            m.dom().contains(k) ==> ({
                let r = rmodel(reg, bound, d, m, next);
                r.m.dom().contains(k) && r.m[k].id == m[k].id && r.m[k].data == m[k].data
            }),
    decreases bound, d,
{
    match d {
        Desc::Empty => {},
        Desc::Aggregate(ds) => {
            lemma_rmodel_seq_mono(reg, bound, ds@, m, next);
        },
        Desc::Owned(t) => {
            lemma_rmodel_mono(reg, t.k as nat, reg[t.k as int], m, next);
        },
        Desc::Shared(t) => {
            if !m.dom().contains(t.k) {
                lemma_rmodel_mono(reg, t.k as nat, reg[t.k as int], m, next);
            }
        },
        Desc::MutShared(t) => {
            if !m.dom().contains(t.k) {
                lemma_rmodel_mono(reg, t.k as nat, reg[t.k as int], m, next);
            }
        },
        Desc::Borrowed(t) => {
            if !m.dom().contains(t.k) {
                lemma_rmodel_mono(reg, t.k as nat, reg[t.k as int], m, next);
            }
        },
    }
}

/// The sequence form of `lemma_rmodel_mono`.
pub proof fn lemma_rmodel_seq_mono(
    reg: Seq<Desc>,
    bound: nat,
    ds: Seq<Desc>,
    m: Map<u64, EntryV>,
    next: nat,
)
    requires
        registry_wf(reg),
        bound <= reg.len(),
        descs_wf(ds, bound),
    ensures
        forall|k: u64|
            m.dom().contains(k) ==> ({
                let r = rmodel_seq(reg, bound, ds, m, next);
                r.m.dom().contains(k) && r.m[k].id == m[k].id && r.m[k].data == m[k].data
            }),
    decreases bound, ds,
{
    if ds.len() > 0 {
        let r0 = rmodel(reg, bound, ds[0], m, next);
        lemma_rmodel_mono(reg, bound, ds[0], m, next);
        lemma_rmodel_seq_mono(reg, bound, ds.drop_first(), r0.m, r0.next);
    }
}

/// Every handle in a resolved value points to an entry of the resulting
/// store and carries exactly that entry's identity.
pub proof fn lemma_rmodel_handles(
    reg: Seq<Desc>,
    bound: nat,
    d: Desc,
    m: Map<u64, EntryV>,
    next: nat,
)
    requires
        registry_wf(reg),
        bound <= reg.len(),
        desc_wf(d, bound),
    ensures
        ({
            let r = rmodel(reg, bound, d, m, next);
            forall|p: (u64, u64)| #[trigger]
                handle_refs(r.v).contains(p) ==> r.m.dom().contains(p.0) && r.m[p.0].id == p.1
        }),
    decreases bound, d,
{
    let r = rmodel(reg, bound, d, m, next);
    match d {
        Desc::Empty => {},
        Desc::Aggregate(ds) => {
            lemma_rmodel_seq_handles(reg, bound, ds@, m, next);
            assert(handle_refs(r.v) == handle_refs_seq(rmodel_seq(reg, bound, ds@, m, next).vs));
        },
        Desc::Owned(t) => {
            let ri = rmodel(reg, t.k as nat, reg[t.k as int], m, next);
            lemma_rmodel_handles(reg, t.k as nat, reg[t.k as int], m, next);
            assert(handle_refs(r.v) == handle_refs(ri.v));
        },
        Desc::Shared(t) => {
            if !m.dom().contains(t.k) {
                let ri = rmodel(reg, t.k as nat, reg[t.k as int], m, next);
                lemma_rmodel_handles(reg, t.k as nat, reg[t.k as int], m, next);
                assert(handle_refs(r.v) =~= Set::<(u64, u64)>::empty().insert(
                    (t.k, ri.next as u64),
                ));
            } else {
                assert(handle_refs(r.v) =~= Set::<(u64, u64)>::empty().insert((t.k, m[t.k].id)));
            }
        },
        Desc::MutShared(t) => {
            if !m.dom().contains(t.k) {
                let ri = rmodel(reg, t.k as nat, reg[t.k as int], m, next);
                lemma_rmodel_handles(reg, t.k as nat, reg[t.k as int], m, next);
                assert(handle_refs(r.v) =~= Set::<(u64, u64)>::empty().insert(
                    (t.k, ri.next as u64),
                ));
            } else {
                assert(handle_refs(r.v) =~= Set::<(u64, u64)>::empty().insert((t.k, m[t.k].id)));
            }
        },
        Desc::Borrowed(t) => {
            if !m.dom().contains(t.k) {
                let ri = rmodel(reg, t.k as nat, reg[t.k as int], m, next);
                lemma_rmodel_handles(reg, t.k as nat, reg[t.k as int], m, next);
                assert(handle_refs(r.v) =~= Set::<(u64, u64)>::empty().insert(
                    (t.k, ri.next as u64),
                ));
            } else {
                assert(handle_refs(r.v) =~= Set::<(u64, u64)>::empty().insert((t.k, m[t.k].id)));
            }
        },
    }
}

/// The sequence form of `lemma_rmodel_handles`.
pub proof fn lemma_rmodel_seq_handles(
    reg: Seq<Desc>,
    bound: nat,
    ds: Seq<Desc>,
    m: Map<u64, EntryV>,
    next: nat,
)
    requires
        registry_wf(reg),
        bound <= reg.len(),
        descs_wf(ds, bound),
    ensures
        ({
            let r = rmodel_seq(reg, bound, ds, m, next);
            forall|p: (u64, u64)| #[trigger]
                handle_refs_seq(r.vs).contains(p) ==> r.m.dom().contains(p.0) && r.m[p.0].id
                    == p.1
        }),
    decreases bound, ds,
{
    if ds.len() > 0 {
        let r = rmodel_seq(reg, bound, ds, m, next);
        let r0 = rmodel(reg, bound, ds[0], m, next);
        let r1 = rmodel_seq(reg, bound, ds.drop_first(), r0.m, r0.next);
        lemma_rmodel_handles(reg, bound, ds[0], m, next);
        lemma_rmodel_seq_handles(reg, bound, ds.drop_first(), r0.m, r0.next);
        lemma_rmodel_seq_mono(reg, bound, ds.drop_first(), r0.m, r0.next);
        assert((seq![r0.v] + r1.vs)[0] == r0.v);
        assert((seq![r0.v] + r1.vs).drop_first() =~= r1.vs);
        assert(handle_refs_seq(r.vs) =~= handle_refs(r0.v).union(handle_refs_seq(r1.vs)));
        assert forall|p: (u64, u64)| #[trigger]
            handle_refs_seq(r.vs).contains(p) implies r.m.dom().contains(p.0) && r.m[p.0].id
            == p.1 by {
            if handle_refs(r0.v).contains(p) {
                assert(r0.m.dom().contains(p.0) && r0.m[p.0].id == p.1);
            } else {
                assert(handle_refs_seq(r1.vs).contains(p));
            }
        }
    }
}

/// Every identity in a resolved value or a new store entry is either minted
/// by this resolution, in order from `next`, or is the identity of an entry
/// that was already memoized.
pub proof fn lemma_rmodel_ids(reg: Seq<Desc>, bound: nat, d: Desc, m: Map<u64, EntryV>, next: nat)
    requires
        registry_wf(reg),
        bound <= reg.len(),
        desc_wf(d, bound),
        next + cons_bound(reg, bound, d) <= u64::MAX,
        forall|k: u64| m.dom().contains(k) ==> ((#[trigger] m[k].id) as nat) < next,
    ensures
        ({
            let r = rmodel(reg, bound, d, m, next);
            (forall|id: u64| #[trigger]
                ids_in(r.v).contains(id) ==> (id as nat) < r.next && ((id as nat) >= next
                    || exists|k: u64| #[trigger] m.dom().contains(k) && m[k].id == id))
                && (forall|k: u64| #[trigger]
                r.m.dom().contains(k) ==> (r.m[k].id as nat) < r.next && ((r.m[k].id as nat)
                    >= next || (m.dom().contains(k) && m[k].id == r.m[k].id)))
        }),
    decreases bound, d,
{
    let r = rmodel(reg, bound, d, m, next);
    lemma_rmodel_next(reg, bound, d, m, next);
    match d {
        Desc::Empty => {},
        Desc::Aggregate(ds) => {
            lemma_rmodel_seq_ids(reg, bound, ds@, m, next);
            assert(ids_in(r.v) == ids_in_seq(rmodel_seq(reg, bound, ds@, m, next).vs));
        },
        Desc::Owned(t) => {
            let ri = rmodel(reg, t.k as nat, reg[t.k as int], m, next);
            lemma_rmodel_next(reg, t.k as nat, reg[t.k as int], m, next);
            lemma_rmodel_ids(reg, t.k as nat, reg[t.k as int], m, next);
            assert(ids_in(r.v) =~= ids_in(ri.v).insert(ri.next as u64));
            assert((ri.next as u64) as nat == ri.next);
        },
        Desc::Shared(t) => {
            if !m.dom().contains(t.k) {
                let ri = rmodel(reg, t.k as nat, reg[t.k as int], m, next);
                lemma_rmodel_next(reg, t.k as nat, reg[t.k as int], m, next);
                lemma_rmodel_ids(reg, t.k as nat, reg[t.k as int], m, next);
                assert(ids_in(r.v) =~= Set::<u64>::empty().insert(ri.next as u64));
                assert((ri.next as u64) as nat == ri.next);
            } else {
                assert(ids_in(r.v) =~= Set::<u64>::empty().insert(m[t.k].id));
            }
        },
        Desc::MutShared(t) => {
            if !m.dom().contains(t.k) {
                let ri = rmodel(reg, t.k as nat, reg[t.k as int], m, next);
                lemma_rmodel_next(reg, t.k as nat, reg[t.k as int], m, next);
                lemma_rmodel_ids(reg, t.k as nat, reg[t.k as int], m, next);
                assert(ids_in(r.v) =~= Set::<u64>::empty().insert(ri.next as u64));
                assert((ri.next as u64) as nat == ri.next);
            } else {
                assert(ids_in(r.v) =~= Set::<u64>::empty().insert(m[t.k].id));
            }
        },
        Desc::Borrowed(t) => {
            if !m.dom().contains(t.k) {
                let ri = rmodel(reg, t.k as nat, reg[t.k as int], m, next);
                lemma_rmodel_next(reg, t.k as nat, reg[t.k as int], m, next);
                lemma_rmodel_ids(reg, t.k as nat, reg[t.k as int], m, next);
                assert(ids_in(r.v) =~= Set::<u64>::empty().insert(ri.next as u64));
                assert((ri.next as u64) as nat == ri.next);
            } else {
                assert(ids_in(r.v) =~= Set::<u64>::empty().insert(m[t.k].id));
            }
        },
    }
}

/// The sequence form of `lemma_rmodel_ids`.
pub proof fn lemma_rmodel_seq_ids(
    reg: Seq<Desc>,
    bound: nat,
    ds: Seq<Desc>,
    m: Map<u64, EntryV>,
    next: nat,
)
    requires
        registry_wf(reg),
        bound <= reg.len(),
        descs_wf(ds, bound),
        next + cons_bound_seq(reg, bound, ds) <= u64::MAX,
        forall|k: u64| m.dom().contains(k) ==> ((#[trigger] m[k].id) as nat) < next,
    ensures
        ({
            let r = rmodel_seq(reg, bound, ds, m, next);
            (forall|id: u64| #[trigger]
                ids_in_seq(r.vs).contains(id) ==> (id as nat) < r.next && ((id as nat) >= next
                    || exists|k: u64| #[trigger] m.dom().contains(k) && m[k].id == id))
                && (forall|k: u64| #[trigger]
                r.m.dom().contains(k) ==> (r.m[k].id as nat) < r.next && ((r.m[k].id as nat)
                    >= next || (m.dom().contains(k) && m[k].id == r.m[k].id)))
        }),
    decreases bound, ds,
{
    if ds.len() > 0 {
        let r = rmodel_seq(reg, bound, ds, m, next);
        let r0 = rmodel(reg, bound, ds[0], m, next);
        let r1 = rmodel_seq(reg, bound, ds.drop_first(), r0.m, r0.next);
        lemma_rmodel_next(reg, bound, ds[0], m, next);
        lemma_rmodel_seq_next(reg, bound, ds.drop_first(), r0.m, r0.next);
        lemma_rmodel_ids(reg, bound, ds[0], m, next);
        lemma_rmodel_seq_ids(reg, bound, ds.drop_first(), r0.m, r0.next);
        assert((seq![r0.v] + r1.vs)[0] == r0.v);
        assert((seq![r0.v] + r1.vs).drop_first() =~= r1.vs);
        assert(ids_in_seq(r.vs) =~= ids_in(r0.v).union(ids_in_seq(r1.vs)));
        assert forall|id: u64| #[trigger]
            ids_in_seq(r.vs).contains(id) implies (id as nat) < r.next && ((id as nat) >= next
            || exists|k: u64| #[trigger] m.dom().contains(k) && m[k].id == id) by {
            if ids_in(r0.v).contains(id) {
                assert((id as nat) < r0.next);
            } else {
                assert(ids_in_seq(r1.vs).contains(id));
                if !((id as nat) >= r0.next) {
                    let k = choose|k: u64| #[trigger] r0.m.dom().contains(k) && r0.m[k].id == id;
                    assert((r0.m[k].id as nat) < r0.next);
                    if !((r0.m[k].id as nat) >= next) {
                        assert(m.dom().contains(k) && m[k].id == r0.m[k].id);
                    }
                }
            }
        }
        assert forall|k: u64| #[trigger]
            r.m.dom().contains(k) implies (r.m[k].id as nat) < r.next && ((r.m[k].id as nat)
            >= next || (m.dom().contains(k) && m[k].id == r.m[k].id)) by {
            assert(r1.m.dom().contains(k));
            if !((r1.m[k].id as nat) >= r0.next) {
                assert(r0.m.dom().contains(k) && r0.m[k].id == r1.m[k].id);
            }
        }
    }
}

/// The store is closed under shared requirements: whenever a type is
/// memoized, everything it demands through shared wrappers is memoized too,
/// because its construction demanded them first.
pub open spec fn store_closed(reg: Seq<Desc>, m: Map<u64, EntryV>) -> bool {
    forall|k: u64| #[trigger]
        m.dom().contains(k) ==> (k as nat) < reg.len() && (forall|x: u64|
            #[trigger] shared_reach(reg, k as nat, reg[k as int], x) ==> m.dom().contains(x))
}

/// Resolution keeps the store closed, and memoizes every shared-wrapped
/// type the description demands.
pub proof fn lemma_rmodel_closed(
    reg: Seq<Desc>,
    bound: nat,
    d: Desc,
    m: Map<u64, EntryV>,
    next: nat,
)
    requires
        registry_wf(reg),
        bound <= reg.len(),
        desc_wf(d, bound),
        store_closed(reg, m),
    ensures
        ({
            let r = rmodel(reg, bound, d, m, next);
            store_closed(reg, r.m) && (forall|x: u64|
                #[trigger] shared_reach(reg, bound, d, x) ==> r.m.dom().contains(x))
        }),
    decreases bound, d,
{
    let r = rmodel(reg, bound, d, m, next);
    match d {
        Desc::Empty => {
            assert(store_closed(reg, r.m));
            assert forall|x: u64| #[trigger] shared_reach(reg, bound, d, x) implies r.m.dom().contains(x) by {
                assert(!shared_reach(reg, bound, d, x));
            }
        },
        Desc::Aggregate(ds) => {
            lemma_rmodel_seq_closed(reg, bound, ds@, m, next);
            assert(store_closed(reg, r.m));
            assert forall|x: u64| #[trigger]
                shared_reach(reg, bound, d, x) implies r.m.dom().contains(x) by {
                assert(shared_reach_seq(reg, bound, ds@, x));
                assert(rmodel_seq(reg, bound, ds@, m, next).m.dom().contains(x));
            }
        },
        Desc::Owned(t) => {
            lemma_rmodel_closed(reg, t.k as nat, reg[t.k as int], m, next);
            assert(store_closed(reg, r.m));
            assert forall|x: u64| #[trigger]
                shared_reach(reg, bound, d, x) implies r.m.dom().contains(x) by {
                assert(shared_reach(reg, t.k as nat, reg[t.k as int], x));
                assert(rmodel(reg, t.k as nat, reg[t.k as int], m, next).m.dom().contains(x));
            }
        },
        Desc::Shared(t) => {
            if m.dom().contains(t.k) {
                assert(r.m.dom() =~= m.dom());
                assert forall|k: u64| #[trigger] r.m.dom().contains(k) implies (k as nat)
                    < reg.len() && (forall|x: u64|
                    #[trigger] shared_reach(reg, k as nat, reg[k as int], x)
                        ==> r.m.dom().contains(x)) by {
                    assert(m.dom().contains(k));
                }
                assert forall|x: u64| #[trigger]
                    shared_reach(reg, bound, d, x) implies r.m.dom().contains(x) by {
                    if x != t.k {
                        assert(shared_reach(reg, t.k as nat, reg[t.k as int], x));
                        assert(m.dom().contains(x));
                    }
                }
            } else {
                let ri = rmodel(reg, t.k as nat, reg[t.k as int], m, next);
                lemma_rmodel_closed(reg, t.k as nat, reg[t.k as int], m, next);
                assert(r.m.dom() =~= ri.m.dom().insert(t.k));
                assert forall|k: u64| #[trigger] r.m.dom().contains(k) implies (k as nat)
                    < reg.len() && (forall|x: u64|
                    #[trigger] shared_reach(reg, k as nat, reg[k as int], x)
                        ==> r.m.dom().contains(x)) by {
                    if k == t.k {
                        assert forall|x: u64|
                            #[trigger] shared_reach(reg, k as nat, reg[k as int], x) implies r.m.dom().contains(
                            x,
                        ) by {
                            assert(ri.m.dom().contains(x));
                        }
                    } else {
                        assert(ri.m.dom().contains(k));
                    }
                }
                assert forall|x: u64| #[trigger]
                    shared_reach(reg, bound, d, x) implies r.m.dom().contains(x) by {
                    if x != t.k {
                        assert(shared_reach(reg, t.k as nat, reg[t.k as int], x));
                        assert(ri.m.dom().contains(x));
                    }
                }
            }
        },
        Desc::MutShared(t) => {
            if m.dom().contains(t.k) {
                assert(r.m.dom() =~= m.dom());
                assert forall|k: u64| #[trigger] r.m.dom().contains(k) implies (k as nat)
                    < reg.len() && (forall|x: u64|
                    #[trigger] shared_reach(reg, k as nat, reg[k as int], x)
                        ==> r.m.dom().contains(x)) by {
                    assert(m.dom().contains(k));
                }
                assert forall|x: u64| #[trigger]
                    shared_reach(reg, bound, d, x) implies r.m.dom().contains(x) by {
                    if x != t.k {
                        assert(shared_reach(reg, t.k as nat, reg[t.k as int], x));
                        assert(m.dom().contains(x));
                    }
                }
            } else {
                let ri = rmodel(reg, t.k as nat, reg[t.k as int], m, next);
                lemma_rmodel_closed(reg, t.k as nat, reg[t.k as int], m, next);
                assert(r.m.dom() =~= ri.m.dom().insert(t.k));
                assert forall|k: u64| #[trigger] r.m.dom().contains(k) implies (k as nat)
                    < reg.len() && (forall|x: u64|
                    #[trigger] shared_reach(reg, k as nat, reg[k as int], x)
                        ==> r.m.dom().contains(x)) by {
                    if k == t.k {
                        assert forall|x: u64|
                            #[trigger] shared_reach(reg, k as nat, reg[k as int], x) implies r.m.dom().contains(
                            x,
                        ) by {
                            assert(ri.m.dom().contains(x));
                        }
                    } else {
                        assert(ri.m.dom().contains(k));
                    }
                }
                assert forall|x: u64| #[trigger]
                    shared_reach(reg, bound, d, x) implies r.m.dom().contains(x) by {
                    if x != t.k {
                        assert(shared_reach(reg, t.k as nat, reg[t.k as int], x));
                        assert(ri.m.dom().contains(x));
                    }
                }
            }
        },
        Desc::Borrowed(t) => {
            if m.dom().contains(t.k) {
                assert(r.m.dom() =~= m.dom());
                assert forall|k: u64| #[trigger] r.m.dom().contains(k) implies (k as nat)
                    < reg.len() && (forall|x: u64|
                    #[trigger] shared_reach(reg, k as nat, reg[k as int], x)
                        ==> r.m.dom().contains(x)) by {
                    assert(m.dom().contains(k));
                }
                assert forall|x: u64| #[trigger]
                    shared_reach(reg, bound, d, x) implies r.m.dom().contains(x) by {
                    if x != t.k {
                        assert(shared_reach(reg, t.k as nat, reg[t.k as int], x));
                        assert(m.dom().contains(x));
                    }
                }
            } else {
                let ri = rmodel(reg, t.k as nat, reg[t.k as int], m, next);
                lemma_rmodel_closed(reg, t.k as nat, reg[t.k as int], m, next);
                assert(r.m.dom() =~= ri.m.dom().insert(t.k));
                assert forall|k: u64| #[trigger] r.m.dom().contains(k) implies (k as nat)
                    < reg.len() && (forall|x: u64|
                    #[trigger] shared_reach(reg, k as nat, reg[k as int], x)
                        ==> r.m.dom().contains(x)) by {
                    if k == t.k {
                        assert forall|x: u64|
                            #[trigger] shared_reach(reg, k as nat, reg[k as int], x) implies r.m.dom().contains(
                            x,
                        ) by {
                            assert(ri.m.dom().contains(x));
                        }
                    } else {
                        assert(ri.m.dom().contains(k));
                    }
                }
                assert forall|x: u64| #[trigger]
                    shared_reach(reg, bound, d, x) implies r.m.dom().contains(x) by {
                    if x != t.k {
                        assert(shared_reach(reg, t.k as nat, reg[t.k as int], x));
                        assert(ri.m.dom().contains(x));
                    }
                }
            }
        },
    }
}

/// The sequence form of `lemma_rmodel_closed`.
pub proof fn lemma_rmodel_seq_closed(
    reg: Seq<Desc>,
    bound: nat,
    ds: Seq<Desc>,
    m: Map<u64, EntryV>,
    next: nat,
)
    requires
        registry_wf(reg),
        bound <= reg.len(),
        descs_wf(ds, bound),
        store_closed(reg, m),
    ensures
        ({
            let r = rmodel_seq(reg, bound, ds, m, next);
            store_closed(reg, r.m) && (forall|x: u64|
                #[trigger] shared_reach_seq(reg, bound, ds, x) ==> r.m.dom().contains(x))
        }),
    decreases bound, ds,
{
    if ds.len() > 0 {
        let r = rmodel_seq(reg, bound, ds, m, next);
        let r0 = rmodel(reg, bound, ds[0], m, next);
        let r1 = rmodel_seq(reg, bound, ds.drop_first(), r0.m, r0.next);
        lemma_rmodel_closed(reg, bound, ds[0], m, next);
        lemma_rmodel_seq_closed(reg, bound, ds.drop_first(), r0.m, r0.next);
        lemma_rmodel_seq_mono(reg, bound, ds.drop_first(), r0.m, r0.next);
        assert(r.m == r1.m);
        assert forall|x: u64| #[trigger]
            shared_reach_seq(reg, bound, ds, x) implies r.m.dom().contains(x) by {
            if shared_reach(reg, bound, ds[0], x) {
                assert(r0.m.dom().contains(x));
                assert(r1.m.dom().contains(x));
            } else {
                assert(shared_reach_seq(reg, bound, ds.drop_first(), x));
            }
        }
    }
}

/// Each key is memoized exactly once per resolution when it enters the
/// store, and never again once it is there.
pub proof fn lemma_rmodel_once(reg: Seq<Desc>, bound: nat, d: Desc, m: Map<u64, EntryV>, next: nat)
    requires
        registry_wf(reg),
        bound <= reg.len(),
        desc_wf(d, bound),
    ensures
        ({
            let r = rmodel(reg, bound, d, m, next);
            forall|x: u64|
                #[trigger] key_count(r.log, x) == (if r.m.dom().contains(x) && !m.dom().contains(
                    x,
                ) {
                    1nat
                } else {
                    0nat
                })
        }),
    decreases bound, d,
{
    let r = rmodel(reg, bound, d, m, next);
    match d {
        Desc::Empty => {
            assert forall|x: u64| #[trigger]
                key_count(r.log, x) == (if r.m.dom().contains(x) && !m.dom().contains(x) {
                    1nat
                } else {
                    0nat
                }) by {
                assert(key_count(r.log, x) == 0);
            }
        },
        Desc::Aggregate(ds) => {
            lemma_rmodel_seq_once(reg, bound, ds@, m, next);
            let rs = rmodel_seq(reg, bound, ds@, m, next);
            assert forall|x: u64| #[trigger]
                key_count(r.log, x) == (if r.m.dom().contains(x) && !m.dom().contains(x) {
                    1nat
                } else {
                    0nat
                }) by {
                assert(key_count(rs.log, x) == (if rs.m.dom().contains(x) && !m.dom().contains(x) {
                    1nat
                } else {
                    0nat
                }));
            }
        },
        Desc::Owned(t) => {
            lemma_rmodel_once(reg, t.k as nat, reg[t.k as int], m, next);
            let ri = rmodel(reg, t.k as nat, reg[t.k as int], m, next);
            assert forall|x: u64| #[trigger]
                key_count(r.log, x) == (if r.m.dom().contains(x) && !m.dom().contains(x) {
                    1nat
                } else {
                    0nat
                }) by {
                assert(key_count(ri.log, x) == (if ri.m.dom().contains(x) && !m.dom().contains(x) {
                    1nat
                } else {
                    0nat
                }));
            }
        },
        Desc::Shared(t) => {
            if m.dom().contains(t.k) {
                assert(r.m.dom() =~= m.dom());
                assert forall|x: u64| #[trigger]
                    key_count(r.log, x) == (if r.m.dom().contains(x) && !m.dom().contains(x) {
                        1nat
                    } else {
                        0nat
                    }) by {
                    assert(key_count(r.log, x) == 0);
                }
            } else {
                let ri = rmodel(reg, t.k as nat, reg[t.k as int], m, next);
                lemma_rmodel_once(reg, t.k as nat, reg[t.k as int], m, next);
                lemma_rmodel_dom(reg, t.k as nat, reg[t.k as int], m, next);
                assert(r.m.dom() =~= ri.m.dom().insert(t.k));
                assert forall|x: u64|
                    #[trigger] key_count(r.log, x) == (if r.m.dom().contains(x)
                        && !m.dom().contains(x) {
                        1nat
                    } else {
                        0nat
                    }) by {
                    lemma_key_count_push(ri.log, t.k, x);
                    if x == t.k {
                        assert(!ri.m.dom().contains(t.k));
                        assert(key_count(ri.log, x) == 0);
                    }
                }
            }
        },
        Desc::MutShared(t) => {
            if m.dom().contains(t.k) {
                assert(r.m.dom() =~= m.dom());
                assert forall|x: u64| #[trigger]
                    key_count(r.log, x) == (if r.m.dom().contains(x) && !m.dom().contains(x) {
                        1nat
                    } else {
                        0nat
                    }) by {
                    assert(key_count(r.log, x) == 0);
                }
            } else {
                let ri = rmodel(reg, t.k as nat, reg[t.k as int], m, next);
                lemma_rmodel_once(reg, t.k as nat, reg[t.k as int], m, next);
                lemma_rmodel_dom(reg, t.k as nat, reg[t.k as int], m, next);
                assert(r.m.dom() =~= ri.m.dom().insert(t.k));
                assert forall|x: u64|
                    #[trigger] key_count(r.log, x) == (if r.m.dom().contains(x)
                        && !m.dom().contains(x) {
                        1nat
                    } else {
                        0nat
                    }) by {
                    lemma_key_count_push(ri.log, t.k, x);
                    if x == t.k {
                        assert(!ri.m.dom().contains(t.k));
                        assert(key_count(ri.log, x) == 0);
                    }
                }
            }
        },
        Desc::Borrowed(t) => {
            if m.dom().contains(t.k) {
                assert forall|x: u64| #[trigger]
                    key_count(r.log, x) == (if r.m.dom().contains(x) && !m.dom().contains(x) {
                        1nat
                    } else {
                        0nat
                    }) by {
                    assert(key_count(r.log, x) == 0);
                }
            } else {
                let ri = rmodel(reg, t.k as nat, reg[t.k as int], m, next);
                lemma_rmodel_once(reg, t.k as nat, reg[t.k as int], m, next);
                lemma_rmodel_dom(reg, t.k as nat, reg[t.k as int], m, next);
                assert(r.m.dom() =~= ri.m.dom().insert(t.k));
                assert forall|x: u64|
                    #[trigger] key_count(r.log, x) == (if r.m.dom().contains(x)
                        && !m.dom().contains(x) {
                        1nat
                    } else {
                        0nat
                    }) by {
                    lemma_key_count_push(ri.log, t.k, x);
                    if x == t.k {
                        assert(!ri.m.dom().contains(t.k));
                        assert(key_count(ri.log, x) == 0);
                    }
                }
            }
        },
    }
}

/// The sequence form of `lemma_rmodel_once`.
pub proof fn lemma_rmodel_seq_once(
    reg: Seq<Desc>,
    bound: nat,
    ds: Seq<Desc>,
    m: Map<u64, EntryV>,
    next: nat,
)
    requires
        registry_wf(reg),
        bound <= reg.len(),
        descs_wf(ds, bound),
    ensures
        ({
            let r = rmodel_seq(reg, bound, ds, m, next);
            forall|x: u64|
                #[trigger] key_count(r.log, x) == (if r.m.dom().contains(x) && !m.dom().contains(
                    x,
                ) {
                    1nat
                } else {
                    0nat
                })
        }),
    decreases bound, ds,
{
    if ds.len() > 0 {
        let r = rmodel_seq(reg, bound, ds, m, next);
        let r0 = rmodel(reg, bound, ds[0], m, next);
        let r1 = rmodel_seq(reg, bound, ds.drop_first(), r0.m, r0.next);
        lemma_rmodel_once(reg, bound, ds[0], m, next);
        lemma_rmodel_seq_once(reg, bound, ds.drop_first(), r0.m, r0.next);
        lemma_rmodel_mono(reg, bound, ds[0], m, next);
        lemma_rmodel_seq_mono(reg, bound, ds.drop_first(), r0.m, r0.next);
        assert forall|x: u64|
            #[trigger] key_count(r.log, x) == (if r.m.dom().contains(x) && !m.dom().contains(x) {
                1nat
            } else {
                0nat
            }) by {
            lemma_key_count_concat(r0.log, r1.log, x);
            if m.dom().contains(x) {
                assert(r0.m.dom().contains(x));
            } else if r0.m.dom().contains(x) {
                assert(r1.m.dom().contains(x));
                assert(key_count(r1.log, x) == 0);
            }
        }
    }
}

/// Shared construction happens exactly once: resolving a description that
/// demands a shared-wrapped type against a fresh store memoizes that type,
/// and memoizes it exactly once, however many members demand it.
pub proof fn lemma_shared_once(reg: Seq<Desc>, bound: nat, d: Desc, x: u64, next: nat)
    requires
        registry_wf(reg),
        bound <= reg.len(),
        desc_wf(d, bound),
        shared_reach(reg, bound, d, x),
    ensures
        ({
            let r = rmodel(reg, bound, d, Map::<u64, EntryV>::empty(), next);
            r.m.dom().contains(x) && key_count(r.log, x) == 1
        }),
{
    let m0 = Map::<u64, EntryV>::empty();
    assert(store_closed(reg, m0));
    lemma_rmodel_closed(reg, bound, d, m0, next);
    lemma_rmodel_once(reg, bound, d, m0, next);
}

/// Aggregate ordering: when the first member of an aggregate demands a
/// shared-wrapped type, the type is constructed and memoized exactly once,
/// during that first member, and the second member observes the memoized
/// instance without constructing it again.
pub proof fn lemma_aggregate_first_demand(
    reg: Seq<Desc>,
    bound: nat,
    a: Desc,
    b: Desc,
    x: u64,
    next: nat,
)
    requires
        registry_wf(reg),
        bound <= reg.len(),
        desc_wf(a, bound),
        desc_wf(b, bound),
        shared_reach(reg, bound, a, x),
    ensures
        ({
            let r1 = rmodel(reg, bound, a, Map::<u64, EntryV>::empty(), next);
            let r2 = rmodel(reg, bound, b, r1.m, r1.next);
            r1.m.dom().contains(x) && key_count(r1.log, x) == 1 && key_count(r2.log, x) == 0
        }),
{
    let m0 = Map::<u64, EntryV>::empty();
    let r1 = rmodel(reg, bound, a, m0, next);
    lemma_shared_once(reg, bound, a, x, next);
    lemma_rmodel_once(reg, bound, b, r1.m, r1.next);
}

/// Owned freshness: for a producible type whose description reaches no
/// shared wrapper, two successive resolutions on a stateless container
/// yield instances with no identity in common: nothing is shared.
pub proof fn lemma_owned_freshness(reg: Seq<Desc>, k: u64, n0: nat)
    requires
        registry_wf(reg),
        (k as nat) < reg.len(),
        !needs_scope(reg, k as nat, reg[k as int]),
        n0 + 2 * cons_bound(reg, k as nat, reg[k as int]) + 2 <= u64::MAX,
    ensures
        ({
            let d = reg[k as int];
            let r1 = rmodel(reg, k as nat, d, Map::<u64, EntryV>::empty(), n0);
            let r2 = rmodel(reg, k as nat, d, Map::<u64, EntryV>::empty(), r1.next + 1);
            forall|id: u64|
                #[trigger] ids_in(r1.v).insert(r1.next as u64).contains(id) ==> !ids_in(
                    r2.v,
                ).insert(r2.next as u64).contains(id)
        }),
{
    let d = reg[k as int];
    let m0 = Map::<u64, EntryV>::empty();
    let r1 = rmodel(reg, k as nat, d, m0, n0);
    let r2 = rmodel(reg, k as nat, d, m0, r1.next + 1);
    lemma_rmodel_next(reg, k as nat, d, m0, n0);
    lemma_rmodel_next(reg, k as nat, d, m0, r1.next + 1);
    lemma_rmodel_ids(reg, k as nat, d, m0, n0);
    lemma_rmodel_ids(reg, k as nat, d, m0, r1.next + 1);
    assert forall|id: u64|
        #[trigger] ids_in(r1.v).insert(r1.next as u64).contains(id) implies !ids_in(r2.v).insert(
        r2.next as u64,
    ).contains(id) by {
        assert((id as nat) <= r1.next);
        if ids_in(r2.v).contains(id) {
            assert((id as nat) >= r1.next + 1);
        }
    }
}

/// Scope isolation: resolving the same type in two scopes whose identity
/// ranges do not overlap yields unrelated instances: no memoized entry and
/// no value shares an identity between the two.
pub proof fn lemma_scope_isolation(reg: Seq<Desc>, k: u64, n0: nat, n1: nat)
    requires
        registry_wf(reg),
        (k as nat) < reg.len(),
        n0 + cons_bound(reg, k as nat, reg[k as int]) <= n1,
        n1 + cons_bound(reg, k as nat, reg[k as int]) <= u64::MAX,
    ensures
        ({
            let d = reg[k as int];
            let r1 = rmodel(reg, k as nat, d, Map::<u64, EntryV>::empty(), n0);
            let r2 = rmodel(reg, k as nat, d, Map::<u64, EntryV>::empty(), n1);
            (forall|j: u64|
                r1.m.dom().contains(j) && r2.m.dom().contains(j) ==> (#[trigger] r1.m[j].id)
                    != (#[trigger] r2.m[j].id)) && (forall|id: u64| #[trigger]
                ids_in(r1.v).contains(id) ==> !ids_in(r2.v).contains(id))
        }),
{
    let d = reg[k as int];
    let m0 = Map::<u64, EntryV>::empty();
    let r1 = rmodel(reg, k as nat, d, m0, n0);
    let r2 = rmodel(reg, k as nat, d, m0, n1);
    lemma_rmodel_next(reg, k as nat, d, m0, n0);
    lemma_rmodel_ids(reg, k as nat, d, m0, n0);
    lemma_rmodel_ids(reg, k as nat, d, m0, n1);
}

/// A resolution whose description exposes a wrapper for key `x` hands out a
/// handle or borrowed reference for `x` in the resolved value.
pub proof fn lemma_shared_handle_present(
    reg: Seq<Desc>,
    bound: nat,
    d: Desc,
    m: Map<u64, EntryV>,
    next: nat,
    x: u64,
)
    requires
        registry_wf(reg),
        bound <= reg.len(),
        desc_wf(d, bound),
        exposes_key(reg, bound, d, x),
    ensures
        exists|id: u64| #[trigger]
            handle_refs(rmodel(reg, bound, d, m, next).v).contains((x, id)),
    decreases bound, d,
{
    let r = rmodel(reg, bound, d, m, next);
    match d {
        Desc::Empty => {},
        Desc::Aggregate(ds) => {
            lemma_shared_handle_present_seq(reg, bound, ds@, m, next, x);
            let rs = rmodel_seq(reg, bound, ds@, m, next);
            let id = choose|id: u64| #[trigger] handle_refs_seq(rs.vs).contains((x, id));
            assert(handle_refs(r.v).contains((x, id)));
        },
        Desc::Owned(t) => {
            lemma_shared_handle_present(reg, t.k as nat, reg[t.k as int], m, next, x);
            let ri = rmodel(reg, t.k as nat, reg[t.k as int], m, next);
            let id = choose|id: u64| #[trigger] handle_refs(ri.v).contains((x, id));
            assert(handle_refs(r.v).contains((x, id)));
        },
        Desc::Shared(t) => {
            if m.dom().contains(t.k) {
                assert(handle_refs(r.v).contains((x, m[t.k].id)));
            } else {
                let ri = rmodel(reg, t.k as nat, reg[t.k as int], m, next);
                assert(handle_refs(r.v).contains((x, ri.next as u64)));
            }
        },
        Desc::MutShared(t) => {
            if m.dom().contains(t.k) {
                assert(handle_refs(r.v).contains((x, m[t.k].id)));
            } else {
                let ri = rmodel(reg, t.k as nat, reg[t.k as int], m, next);
                assert(handle_refs(r.v).contains((x, ri.next as u64)));
            }
        },
        Desc::Borrowed(t) => {
            if m.dom().contains(t.k) {
                assert(handle_refs(r.v).contains((x, m[t.k].id)));
            } else {
                let ri = rmodel(reg, t.k as nat, reg[t.k as int], m, next);
                assert(handle_refs(r.v).contains((x, ri.next as u64)));
            }
        },
    }
}

/// The sequence form of `lemma_shared_handle_present`.
pub proof fn lemma_shared_handle_present_seq(
    reg: Seq<Desc>,
    bound: nat,
    ds: Seq<Desc>,
    m: Map<u64, EntryV>,
    next: nat,
    x: u64,
)
    requires
        registry_wf(reg),
        bound <= reg.len(),
        descs_wf(ds, bound),
        exposes_key_seq(reg, bound, ds, x),
    ensures
        exists|id: u64| #[trigger]
            handle_refs_seq(rmodel_seq(reg, bound, ds, m, next).vs).contains((x, id)),
    decreases bound, ds,
{
    let r = rmodel_seq(reg, bound, ds, m, next);
    let r0 = rmodel(reg, bound, ds[0], m, next);
    let r1 = rmodel_seq(reg, bound, ds.drop_first(), r0.m, r0.next);
    assert((seq![r0.v] + r1.vs)[0] == r0.v);
    assert((seq![r0.v] + r1.vs).drop_first() =~= r1.vs);
    if exposes_key(reg, bound, ds[0], x) {
        lemma_shared_handle_present(reg, bound, ds[0], m, next, x);
        let id = choose|id: u64| #[trigger] handle_refs(r0.v).contains((x, id));
        assert(handle_refs_seq(r.vs).contains((x, id)));
    } else {
        lemma_shared_handle_present_seq(reg, bound, ds.drop_first(), r0.m, r0.next, x);
        let id = choose|id: u64| #[trigger] handle_refs_seq(r1.vs).contains((x, id));
        assert(handle_refs_seq(r.vs).contains((x, id)));
    }
}

/// Scope memoization: within one scope, any two resolutions hand out
/// handles with identical identity for the same shared-wrapped type,
/// however deeply those handles sit in the resolved values.
pub proof fn lemma_scope_memoization(
    reg: Seq<Desc>,
    bound: nat,
    d1: Desc,
    d2: Desc,
    m: Map<u64, EntryV>,
    n1: nat,
    n2: nat,
)
    requires
        registry_wf(reg),
        bound <= reg.len(),
        desc_wf(d1, bound),
        desc_wf(d2, bound),
    ensures
        ({
            let r1 = rmodel(reg, bound, d1, m, n1);
            let r2 = rmodel(reg, bound, d2, r1.m, n2);
            forall|t: u64, id1: u64, id2: u64|
                handle_refs(r1.v).contains((t, id1)) && handle_refs(r2.v).contains((t, id2))
                    ==> id1 == id2
        }),
{
    let r1 = rmodel(reg, bound, d1, m, n1);
    let r2 = rmodel(reg, bound, d2, r1.m, n2);
    lemma_rmodel_handles(reg, bound, d1, m, n1);
    lemma_rmodel_handles(reg, bound, d2, r1.m, n2);
    lemma_rmodel_mono(reg, bound, d2, r1.m, n2);
    assert forall|t: u64, id1: u64, id2: u64|
        handle_refs(r1.v).contains((t, id1)) && handle_refs(r2.v).contains(
            (t, id2),
        ) implies id1 == id2 by {
        assert(r1.m.dom().contains(t) && r1.m[t].id == id1);
        assert(r2.m[t].id == id2);
        assert(r2.m[t].id == r1.m[t].id);
    }
}

} // verus!
