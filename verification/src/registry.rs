//! The registry: one dependency description per producible type key.

use vstd::prelude::*;

use crate::desc::Desc;
use crate::desc::TypeKey;
use crate::desc::desc_wf;
use crate::desc::descs_wf;
use crate::desc::first_unbound;
use crate::error::ResolveError;

verus! {

/// Key `j` is mentioned directly by the description `d`.
pub open spec fn mentions(d: Desc, j: nat) -> bool
    decreases d,
{
    match d {
        Desc::Empty => false,
        Desc::Aggregate(ds) => seq_mentions(ds@, j),
        Desc::Owned(t) => t.k == j,
        Desc::Shared(t) => t.k == j,
        Desc::MutShared(t) => t.k == j,
        Desc::Borrowed(t) => t.k == j,
    }
}

/// Key `j` is mentioned by some member of `ds`.
pub open spec fn seq_mentions(ds: Seq<Desc>, j: nat) -> bool
    decreases ds,
{
    ds.len() > 0 && (mentions(ds[0], j) || seq_mentions(ds.drop_first(), j))
}

/// Every description in a well-formed registry mentions only keys below its
/// own: registration assigns keys in order and rejects anything else.
pub open spec fn registry_wf(reg: Seq<Desc>) -> bool {
    forall|i: int| 0 <= i < reg.len() ==> desc_wf(#[trigger] reg[i], i as nat)
}

/// A well-formed description mentions only keys below its bound.
pub proof fn lemma_mentions_bound(d: Desc, bound: nat, j: nat)
    requires
        desc_wf(d, bound),
        mentions(d, j),
    ensures
        j < bound,
    decreases d,
{
    match d {
        Desc::Aggregate(ds) => {
            lemma_seq_mentions_bound(ds@, bound, j);
        },
        _ => {},
    }
}

/// The sequence form of `lemma_mentions_bound`.
pub proof fn lemma_seq_mentions_bound(ds: Seq<Desc>, bound: nat, j: nat)
    requires
        descs_wf(ds, bound),
        seq_mentions(ds, j),
    ensures
        j < bound,
    decreases ds,
{
    if mentions(ds[0], j) {
        lemma_mentions_bound(ds[0], bound, j);
    } else {
        lemma_seq_mentions_bound(ds.drop_first(), bound, j);
    }
}

/// The producible type of key `i` requires the type of key `j`, directly or
/// transitively, through its registered description.
pub open spec fn reaches(reg: Seq<Desc>, i: nat, j: nat) -> bool
    decreases i,
    when registry_wf(reg) && i < reg.len()
{
    mentions(reg[i as int], j) || exists|m: nat|
        #[trigger] mentions(reg[i as int], m) && m < i && reaches(reg, m, j)
}

/// Requirements always point towards earlier keys.
pub proof fn lemma_reaches_below(reg: Seq<Desc>, i: nat, j: nat)
    requires
        registry_wf(reg),
        i < reg.len(),
        reaches(reg, i, j),
    ensures
        j < i,
    decreases i,
{
    if mentions(reg[i as int], j) {
        lemma_mentions_bound(reg[i as int], i, j);
    } else {
        let m = choose|m: nat| #[trigger] mentions(reg[i as int], m) && m < i && reaches(reg, m, j);
        lemma_reaches_below(reg, m, j);
    }
}

/// No producible type can require itself, directly or transitively: cyclic
/// descriptions are structurally unrepresentable in a well-formed registry.
pub proof fn lemma_registry_acyclic(reg: Seq<Desc>, i: nat)
    requires
        registry_wf(reg),
        i < reg.len(),
    ensures
        !reaches(reg, i, i),
{
    if reaches(reg, i, i) {
        lemma_reaches_below(reg, i, i);
    }
}

/// The first shared, mutable-shared or borrowed wrapper reached by resolving
/// `d` on a container without a store, in depth-first order; `None` when
/// resolution never needs a store.
pub open spec fn scope_key(reg: Seq<Desc>, bound: nat, d: Desc) -> Option<TypeKey>
    decreases bound, d,
    when registry_wf(reg) && bound <= reg.len() && desc_wf(d, bound)
{
    match d {
        Desc::Empty => None,
        Desc::Aggregate(ds) => scope_key_seq(reg, bound, ds@),
        Desc::Owned(t) => scope_key(reg, t.k as nat, reg[t.k as int]),
        Desc::Shared(t) => Some(t),
        Desc::MutShared(t) => Some(t),
        Desc::Borrowed(t) => Some(t),
    }
}

/// The first store-needing wrapper over a sequence of member descriptions.
pub open spec fn scope_key_seq(reg: Seq<Desc>, bound: nat, ds: Seq<Desc>) -> Option<TypeKey>
    decreases bound, ds,
    when registry_wf(reg) && bound <= reg.len() && descs_wf(ds, bound)
{
    if ds.len() == 0 {
        None
    } else {
        match scope_key(reg, bound, ds[0]) {
            Some(t) => Some(t),
            None => scope_key_seq(reg, bound, ds.drop_first()),
        }
    }
}

/// Resolving `d` requires a scoped container.
pub open spec fn needs_scope(reg: Seq<Desc>, bound: nat, d: Desc) -> bool {
    scope_key(reg, bound, d) is Some
}

/// Resolving `d` demands the memoized instance of key `x`: some shared,
/// mutable-shared or borrowed wrapper for `x` is reachable through the
/// descent, through owned wrappers and through the descriptions of the
/// shared-wrapped types themselves.
pub open spec fn shared_reach(reg: Seq<Desc>, bound: nat, d: Desc, x: u64) -> bool
    decreases bound, d,
    when registry_wf(reg) && bound <= reg.len() && desc_wf(d, bound)
{
    match d {
        Desc::Empty => false,
        Desc::Aggregate(ds) => shared_reach_seq(reg, bound, ds@, x),
        Desc::Owned(t) => shared_reach(reg, t.k as nat, reg[t.k as int], x),
        Desc::Shared(t) => t.k == x || shared_reach(reg, t.k as nat, reg[t.k as int], x),
        Desc::MutShared(t) => t.k == x || shared_reach(reg, t.k as nat, reg[t.k as int], x),
        Desc::Borrowed(t) => t.k == x || shared_reach(reg, t.k as nat, reg[t.k as int], x),
    }
}

/// The member-sequence form of `shared_reach`.
pub open spec fn shared_reach_seq(reg: Seq<Desc>, bound: nat, ds: Seq<Desc>, x: u64) -> bool
    decreases bound, ds,
    when registry_wf(reg) && bound <= reg.len() && descs_wf(ds, bound)
{
    ds.len() > 0 && (shared_reach(reg, bound, ds[0], x) || shared_reach_seq(
        reg,
        bound,
        ds.drop_first(),
        x,
    ))
}

/// Resolving `d` hands out a handle or borrowed reference for key `x` in
/// the resolved value itself: a wrapper for `x` is reachable through owned
/// wrappers and aggregates alone, so it is not hidden inside another
/// memoized entry.
pub open spec fn exposes_key(reg: Seq<Desc>, bound: nat, d: Desc, x: u64) -> bool
    decreases bound, d,
    when registry_wf(reg) && bound <= reg.len() && desc_wf(d, bound)
{
    match d {
        Desc::Empty => false,
        Desc::Aggregate(ds) => exposes_key_seq(reg, bound, ds@, x),
        Desc::Owned(t) => exposes_key(reg, t.k as nat, reg[t.k as int], x),
        Desc::Shared(t) => t.k == x,
        Desc::MutShared(t) => t.k == x,
        Desc::Borrowed(t) => t.k == x,
    }
}

/// The member-sequence form of `exposes_key`.
pub open spec fn exposes_key_seq(reg: Seq<Desc>, bound: nat, ds: Seq<Desc>, x: u64) -> bool
    decreases bound, ds,
    when registry_wf(reg) && bound <= reg.len() && descs_wf(ds, bound)
{
    ds.len() > 0 && (exposes_key(reg, bound, ds[0], x) || exposes_key_seq(
        reg,
        bound,
        ds.drop_first(),
        x,
    ))
}

/// An upper bound on the number of instance constructions that resolving `d`
/// can perform, counting every wrapper as a miss.
pub open spec fn cons_bound(reg: Seq<Desc>, bound: nat, d: Desc) -> nat
    decreases bound, d,
    when registry_wf(reg) && bound <= reg.len() && desc_wf(d, bound)
{
    match d {
        Desc::Empty => 0,
        Desc::Aggregate(ds) => cons_bound_seq(reg, bound, ds@),
        Desc::Owned(t) => 1 + cons_bound(reg, t.k as nat, reg[t.k as int]),
        Desc::Shared(t) => 1 + cons_bound(reg, t.k as nat, reg[t.k as int]),
        Desc::MutShared(t) => 1 + cons_bound(reg, t.k as nat, reg[t.k as int]),
        Desc::Borrowed(t) => 1 + cons_bound(reg, t.k as nat, reg[t.k as int]),
    }
}

/// The construction bound summed over a sequence of member descriptions.
pub open spec fn cons_bound_seq(reg: Seq<Desc>, bound: nat, ds: Seq<Desc>) -> nat
    decreases bound, ds,
    when registry_wf(reg) && bound <= reg.len() && descs_wf(ds, bound)
{
    if ds.len() == 0 {
        0
    } else {
        cons_bound(reg, bound, ds[0]) + cons_bound_seq(reg, bound, ds.drop_first())
    }
}

/// Splitting one member off the construction bound of a member suffix.
pub proof fn lemma_cons_seq_step(reg: Seq<Desc>, bound: nat, ds: Seq<Desc>, i: int)
    requires
        registry_wf(reg),
        bound <= reg.len(),
        descs_wf(ds, bound),
        0 <= i < ds.len(),
    ensures
        cons_bound_seq(reg, bound, ds.skip(i)) == cons_bound(reg, bound, ds[i]) + cons_bound_seq(
            reg,
            bound,
            ds.skip(i + 1),
        ),
{
    crate::desc::lemma_descs_wf_skip(ds, bound, i);
    assert(ds.skip(i)[0] == ds[i]);
    assert(ds.skip(i).drop_first() =~= ds.skip(i + 1));
}

/// Skipping members that need no scope does not change the first
/// store-needing wrapper.
pub proof fn lemma_scope_key_seq_skip(reg: Seq<Desc>, bound: nat, ds: Seq<Desc>, i: int)
    requires
        registry_wf(reg),
        bound <= reg.len(),
        descs_wf(ds, bound),
        0 <= i <= ds.len(),
        forall|j: int| 0 <= j < i ==> scope_key(reg, bound, #[trigger] ds[j]) is None,
    ensures
        scope_key_seq(reg, bound, ds) == scope_key_seq(reg, bound, ds.skip(i)),
    decreases i,
{
    crate::desc::lemma_descs_wf_skip(ds, bound, i);
    if i > 0 {
        lemma_scope_key_seq_skip(reg, bound, ds, i - 1);
        crate::desc::lemma_descs_wf_skip(ds, bound, i - 1);
        assert(ds.skip(i - 1).drop_first() =~= ds.skip(i));
        assert(ds.skip(i - 1)[0] == ds[i - 1]);
    } else {
        assert(ds.skip(0) =~= ds);
    }
}

/// When no member needs a scope, each member needs none.
pub proof fn lemma_scope_key_seq_none(reg: Seq<Desc>, bound: nat, ds: Seq<Desc>)
    requires
        registry_wf(reg),
        bound <= reg.len(),
        descs_wf(ds, bound),
        scope_key_seq(reg, bound, ds) is None,
    ensures
        forall|i: int| 0 <= i < ds.len() ==> scope_key(reg, bound, #[trigger] ds[i]) is None,
    decreases ds,
{
    if ds.len() > 0 {
        lemma_scope_key_seq_none(reg, bound, ds.drop_first());
        assert forall|i: int| 0 <= i < ds.len() implies scope_key(
            reg,
            bound,
            #[trigger] ds[i],
        ) is None by {
            if i > 0 {
                assert(ds.drop_first()[i - 1] == ds[i]);
            }
        }
    }
}

/// The registry of dependency descriptions, addressed by sequentially
/// assigned type keys.
pub struct Registry {
    descs: Vec<Desc>,
}

impl View for Registry {
    type V = Seq<Desc>;

    closed spec fn view(&self) -> Seq<Desc> {
        self.descs@
    }
}

impl Registry {
    /// Everything ever registered was well formed, so every description
    /// mentions only keys assigned before its own.
    pub open spec fn wf(&self) -> bool {
        registry_wf(self@)
    }

    /// Creates an empty registry.
    pub fn new() -> (r: Registry)
        ensures
            r@ == Seq::<Desc>::empty(),
            r.wf(),
    {
        Registry { descs: Vec::new() }
    }

    /// The number of registered producible types.
    pub fn len(&self) -> (n: usize)
        ensures
            n == self@.len(),
    {
        self.descs.len()
    }

    /// Registers the description of the next producible type and assigns its
    /// key.
    ///
    /// The description may only mention keys that are already assigned; in
    /// particular it cannot mention the key being assigned to it, so a type
    /// that directly or indirectly requires itself is rejected here, before
    /// any resolution runs.
    pub fn register(&mut self, d: Desc) -> (r: Result<TypeKey, ResolveError>)
        requires
            old(self).wf(),
        ensures
            final(self).wf(),
            r is Ok <==> desc_wf(d, old(self)@.len() as nat),
            match r {
                Ok(t) => {
                    &&& t.k == old(self)@.len()
                    &&& final(self)@ == old(self)@.push(d)
                },
                Err(e) => {
                    &&& final(self)@ == old(self)@
                    &&& e == ResolveError::Unregistered(
                        first_unbound(d, old(self)@.len() as nat).unwrap(),
                    )
                },
            },
    {
        let n = self.descs.len();
        match d.check_below(n as u64) {
            Some(t) => Err(ResolveError::Unregistered(t)),
            None => {
                self.descs.push(d);
                proof {
                    assert forall|i: int| 0 <= i < self@.len() implies desc_wf(
                        #[trigger] self@[i],
                        i as nat,
                    ) by {
                        if i < old(self)@.len() {
                            assert(self@[i] == old(self)@[i]);
                        }
                    }
                }
                Ok(TypeKey { k: n as u64 })
            },
        }
    }

    /// An upper bound on the number of instance constructions that
    /// resolving `key` can perform, counting the instance of `key` itself
    /// and every wrapper as a store miss; `None` when the key is not
    /// registered or the bound does not fit in a machine word.
    ///
    /// A container's resolution asks that its next identity plus this bound
    /// stay within the identity space.
    pub fn construction_bound(&self, key: TypeKey) -> (r: Option<u64>)
        requires
            self.wf(),
        ensures
            match r {
                Some(b) => key.k < self@.len() && b as nat == 1 + cons_bound(
                    self@,
                    key.k as nat,
                    self@[key.k as int],
                ),
                None => key.k >= self@.len() || 1 + cons_bound(
                    self@,
                    key.k as nat,
                    self@[key.k as int],
                ) > u64::MAX,
            },
    {
        let n = self.len();
        if key.k >= n as u64 {
            return None;
        }
        proof {
            assert(desc_wf(self@[key.k as int], key.k as nat));
        }
        match self.desc_bound(key.k, self.desc_ref(key.k)) {
            Some(b) => if b < u64::MAX {
                Some(b + 1)
            } else {
                None
            },
            None => None,
        }
    }

    /// The construction bound of one description, by recursive descent.
    fn desc_bound(&self, bound: u64, d: &Desc) -> (r: Option<u64>)
        requires
            self.wf(),
            bound as nat <= self@.len(),
            desc_wf(*d, bound as nat),
        ensures
            match r {
                Some(b) => b as nat == cons_bound(self@, bound as nat, *d),
                None => cons_bound(self@, bound as nat, *d) > u64::MAX,
            },
        decreases bound, *d,
    {
        match d {
            Desc::Empty => Some(0),
            Desc::Owned(t) => {
                proof {
                    assert(desc_wf(self@[t.k as int], t.k as nat));
                }
                match self.desc_bound(t.k, self.desc_ref(t.k)) {
                    Some(b) => if b < u64::MAX {
                        Some(b + 1)
                    } else {
                        None
                    },
                    None => None,
                }
            },
            Desc::Shared(t) => {
                proof {
                    assert(desc_wf(self@[t.k as int], t.k as nat));
                }
                match self.desc_bound(t.k, self.desc_ref(t.k)) {
                    Some(b) => if b < u64::MAX {
                        Some(b + 1)
                    } else {
                        None
                    },
                    None => None,
                }
            },
            Desc::MutShared(t) => {
                proof {
                    assert(desc_wf(self@[t.k as int], t.k as nat));
                }
                match self.desc_bound(t.k, self.desc_ref(t.k)) {
                    Some(b) => if b < u64::MAX {
                        Some(b + 1)
                    } else {
                        None
                    },
                    None => None,
                }
            },
            Desc::Borrowed(t) => {
                proof {
                    assert(desc_wf(self@[t.k as int], t.k as nat));
                }
                match self.desc_bound(t.k, self.desc_ref(t.k)) {
                    Some(b) => if b < u64::MAX {
                        Some(b + 1)
                    } else {
                        None
                    },
                    None => None,
                }
            },
            Desc::Aggregate(ds) => {
                let n = ds.len();
                let mut acc: u64 = 0;
                proof {
                    assert(ds@.skip(0) =~= ds@);
                }
                for i in 0..n
                    invariant
                        n == ds.len(),
                        *d == Desc::Aggregate(*ds),
                        self.wf(),
                        bound as nat <= self@.len(),
                        descs_wf(ds@, bound as nat),
                        acc as nat + cons_bound_seq(self@, bound as nat, ds@.skip(i as int))
                            == cons_bound_seq(self@, bound as nat, ds@),
                    decreases n - i,
                {
                    proof {
                        crate::desc::lemma_descs_wf_index(ds@, bound as nat);
                        assert(*d is Aggregate);
                        assert(d->Aggregate_0 == *ds);
                        assert(decreases_to!(*d => d->Aggregate_0));
                        assert(decreases_to!(*ds => ds@));
                        assert(decreases_to!(ds@ => ds@[i as int]));
                        assert(decreases_to!(*d => ds@[i as int]));
                        lemma_cons_seq_step(self@, bound as nat, ds@, i as int);
                    }
                    match self.desc_bound(bound, &ds[i]) {
                        Some(c) => {
                            if acc <= u64::MAX - c {
                                acc = acc + c;
                            } else {
                                return None;
                            }
                        },
                        None => {
                            return None;
                        },
                    }
                }
                proof {
                    assert(ds@.skip(n as int) =~= Seq::<Desc>::empty());
                }
                Some(acc)
            },
        }
    }

    /// The registered description at an assigned key.
    pub(crate) fn desc_ref(&self, k: u64) -> (r: &Desc)
        requires
            k < self@.len(),
        ensures
            *r == self@[k as int],
    {
        let n = self.descs.len();
        proof {
            assert(k < n);
        }
        &self.descs[k as usize]
    }

    /// The registered description of `key`, when the key is assigned.
    pub fn description(&self, key: TypeKey) -> (r: Option<&Desc>)
        ensures
            match r {
                Some(d) => key.k < self@.len() && *d == self@[key.k as int],
                None => key.k >= self@.len(),
            },
    {
        if key.k < self.descs.len() as u64 {
            Some(&self.descs[key.k as usize])
        } else {
            None
        }
    }
}

} // verus!
