//! The heterogeneous store a scope owns for its lifetime.
//!
//! The store is an arena keyed by type key, holding at most one memoized
//! instance per key together with its outstanding handle count. Ending the
//! scope destroys every entry whose handles are all released; an entry still
//! referenced by a counted handle is destroyed by the release of its last
//! handle. Each entry is destroyed exactly once, and never while the scope
//! is alive.

use vstd::prelude::*;

use vstd::multiset::Multiset;

use crate::desc::TypeKey;
use crate::error::ResolveError;
use crate::value::B;
use crate::value::Handle;
use crate::value::MutHandle;
use crate::value::VModel;
use crate::value::Value;
use crate::value::counted_handles;
use crate::value::counted_handles_seq;
use crate::value::vmodel;
use crate::value::vmodels;

verus! {

broadcast use vstd::multiset::group_multiset_axioms;

/// The model of one occupied store entry: the memoized instance's identity,
/// the model of its stored value, and its outstanding handle count.
pub struct EntryV {
    pub id: u64,
    pub data: VModel,
    pub count: u64,
}

/// The lifecycle of one store slot.
#[derive(Clone, Copy, PartialEq, Eq, Structural)]
enum SlotState {
    /// Nothing was memoized under this key yet.
    Vacant,
    /// An instance is memoized under this key.
    Occupied,
    /// The memoized instance was torn down; destruction runs at most once.
    Destroyed,
}

/// Decrementing by `m` with a floor at zero.
pub open spec fn sat_sub(c: u64, m: nat) -> u64 {
    if m >= c {
        0
    } else {
        (c - m) as u64
    }
}

/// Incrementing by one with a ceiling at the largest count.
pub open spec fn sat_add1(c: u64) -> u64 {
    if c == u64::MAX {
        c
    } else {
        (c + 1) as u64
    }
}

/// Releases one handle per occurrence in `ms` from the matching entries.
pub open spec fn dec_counts(m: Map<u64, EntryV>, ms: Multiset<u64>) -> Map<u64, EntryV> {
    Map::new(
        |k: u64| m.dom().contains(k),
        |k: u64| EntryV { id: m[k].id, data: m[k].data, count: sat_sub(m[k].count, ms.count(k)) },
    )
}

/// The entries that survive a teardown pass: those still referenced by an
/// outstanding counted handle.
pub open spec fn sweep(m: Map<u64, EntryV>) -> Map<u64, EntryV> {
    Map::new(|k: u64| m.dom().contains(k) && m[k].count > 0, |k: u64| m[k])
}

/// The keys in `[lo, hi)` whose entries have no outstanding handle, in
/// descending key order: the order a teardown pass destroys them in.
pub open spec fn zero_keys_range(m: Map<u64, EntryV>, hi: nat, lo: nat) -> Seq<u64>
    decreases hi - lo,
{
    if hi <= lo {
        Seq::empty()
    } else {
        (if m.dom().contains((hi - 1) as u64) && m[(hi - 1) as u64].count == 0 {
            seq![(hi - 1) as u64]
        } else {
            Seq::empty()
        }) + zero_keys_range(m, (hi - 1) as nat, lo)
    }
}

/// A bounded-lifetime context owning one memoization store.
pub struct Store {
    /// The number of store slots: one per registered type key.
    n: usize,
    /// Identity of the memoized instance per slot.
    ids: Vec<u64>,
    /// The memoized value per slot; `Some` exactly for occupied slots.
    datas: Vec<Option<Value>>,
    /// Outstanding counted handles per slot.
    counts: Vec<u64>,
    /// Lifecycle state per slot.
    states: Vec<SlotState>,
    /// Whether the scope has ended; ending starts the teardown.
    ended: bool,
    /// The keys whose entries were destroyed, in destruction order.
    destroyed: Vec<u64>,
}

impl Store {
    /// The number of store slots.
    pub closed spec fn capacity(&self) -> nat {
        self.n as nat
    }

    /// The model of the occupied entries, keyed by type key.
    pub closed spec fn entries(&self) -> Map<u64, EntryV> {
        Map::new(
            |k: u64| (k as nat) < self.n as nat && self.states@[k as int] is Occupied,
            |k: u64|
                EntryV {
                    id: self.ids@[k as int],
                    data: vmodel(self.datas@[k as int].unwrap()),
                    count: self.counts@[k as int],
                },
        )
    }

    /// Whether the scope has ended.
    pub closed spec fn has_ended(&self) -> bool {
        self.ended
    }

    /// The keys of the destroyed entries, in destruction order.
    pub closed spec fn destroyed_log(&self) -> Seq<u64> {
        self.destroyed@
    }

    /// The store's structural invariant, apart from the teardown rule.
    pub closed spec fn base_inv(&self) -> bool {
        &&& self.ids@.len() == self.n
        &&& self.datas@.len() == self.n
        &&& self.counts@.len() == self.n
        &&& self.states@.len() == self.n
        &&& forall|i: int|
            0 <= i < self.n ==> (self.states@[i] is Occupied <==> self.datas@[i] is Some)
        &&& forall|i: int| 0 <= i < self.n && self.states@[i] is Vacant ==> self.counts@[i] == 0
        &&& forall|i: int| 0 <= i < self.n && self.states@[i] is Destroyed ==> self.counts@[i] == 0
        &&& forall|j: int|
            0 <= j < self.destroyed@.len() ==> self.destroyed@[j] < self.n && self.states@[#[trigger] self.destroyed@[j] as int] is Destroyed
        &&& forall|j1: int, j2: int|
            0 <= j1 < j2 < self.destroyed@.len() ==> self.destroyed@[j1] != self.destroyed@[j2]
        &&& forall|i: int|
            0 <= i < self.n && self.states@[i] is Destroyed ==> self.destroyed@.contains(i as u64)
        &&& !self.ended ==> self.destroyed@.len() == 0
        &&& !self.ended ==> forall|i: int| 0 <= i < self.n ==> !(self.states@[i] is Destroyed)
    }

    /// Once the scope has ended, an entry with no outstanding handle never
    /// lingers: teardown destroys it at once.
    pub closed spec fn teardown_inv(&self) -> bool {
        self.ended ==> forall|i: int|
            0 <= i < self.n && self.states@[i] is Occupied ==> self.counts@[i] > 0
    }

    /// The scope's invariant: every operation preserves it.
    pub closed spec fn inv(&self) -> bool {
        self.base_inv() && self.teardown_inv()
    }

    /// Creates a store with one vacant slot per registered type key.
    pub(crate) fn new(n: usize) -> (s: Store)
        ensures
            s.inv(),
            s.capacity() == n,
            s.entries() == Map::<u64, EntryV>::empty(),
            !s.has_ended(),
            s.destroyed_log() == Seq::<u64>::empty(),
    {
        let mut ids: Vec<u64> = Vec::new();
        let mut datas: Vec<Option<Value>> = Vec::new();
        let mut counts: Vec<u64> = Vec::new();
        let mut states: Vec<SlotState> = Vec::new();
        for i in 0..n
            invariant
                ids@.len() == i,
                datas@.len() == i,
                counts@.len() == i,
                states@.len() == i,
                forall|j: int| 0 <= j < i ==> states@[j] is Vacant,
                forall|j: int| 0 <= j < i ==> counts@[j] == 0,
                forall|j: int| 0 <= j < i ==> datas@[j] is None,
            decreases n - i,
        {
            ids.push(0);
            datas.push(None);
            counts.push(0);
            states.push(SlotState::Vacant);
        }
        let s = Store { n, ids, datas, counts, states, ended: false, destroyed: Vec::new() };
        proof {
            assert(s.entries() =~= Map::<u64, EntryV>::empty());
        }
        s
    }

    /// Whether an instance is currently memoized under `key`.
    pub fn contains(&self, key: TypeKey) -> (r: bool)
        requires
            self.inv(),
        ensures
            r == self.entries().dom().contains(key.k),
    {
        key.k < self.n as u64 && match self.states[key.k as usize] {
            SlotState::Occupied => true,
            _ => false,
        }
    }

    /// The number of outstanding counted handles for `key`.
    pub fn handle_count(&self, key: TypeKey) -> (r: u64)
        requires
            self.inv(),
        ensures
            r == if self.entries().dom().contains(key.k) {
                self.entries()[key.k].count
            } else {
                0u64
            },
    {
        if key.k < self.n as u64 {
            self.counts[key.k as usize]
        } else {
            0
        }
    }

    /// The identity of the instance memoized under `key`, if any.
    pub fn entry_id(&self, key: TypeKey) -> (r: Option<u64>)
        requires
            self.inv(),
        ensures
            r == if self.entries().dom().contains(key.k) {
                Some(self.entries()[key.k].id)
            } else {
                None::<u64>
            },
    {
        if self.contains(key) {
            Some(self.ids[key.k as usize])
        } else {
            None
        }
    }

    /// Whether the scope has ended and teardown has begun.
    pub fn is_ended(&self) -> (r: bool)
        ensures
            r == self.has_ended(),
    {
        self.ended
    }

    /// The keys of the destroyed entries, in destruction order.
    pub fn destroyed(&self) -> (r: &Vec<u64>)
        ensures
            r@ == self.destroyed_log(),
    {
        &self.destroyed
    }

    /// Reads the memoized value a counted handle points to.
    ///
    /// A handle stays readable after the scope ends, for as long as it is
    /// not released: the entry it points to is deferred, not destroyed.
    pub fn read(&self, h: &Handle) -> (r: Result<&Value, ResolveError>)
        requires
            self.inv(),
        ensures
            match r {
                Ok(v) => {
                    &&& self.entries().dom().contains(h.key.k)
                    &&& self.entries()[h.key.k].id == h.id
                    &&& vmodel(*v) == self.entries()[h.key.k].data
                },
                Err(e) => {
                    &&& e == ResolveError::ScopeEscape
                    &&& !(self.entries().dom().contains(h.key.k) && self.entries()[h.key.k].id
                        == h.id)
                },
            },
    {
        self.read_slot(h.key, h.id)
    }

    /// Reads the memoized value a mutable-shared handle points to.
    pub fn read_mut(&self, h: &MutHandle) -> (r: Result<&Value, ResolveError>)
        requires
            self.inv(),
        ensures
            match r {
                Ok(v) => {
                    &&& self.entries().dom().contains(h.key.k)
                    &&& self.entries()[h.key.k].id == h.id
                    &&& vmodel(*v) == self.entries()[h.key.k].data
                },
                Err(e) => {
                    &&& e == ResolveError::ScopeEscape
                    &&& !(self.entries().dom().contains(h.key.k) && self.entries()[h.key.k].id
                        == h.id)
                },
            },
    {
        self.read_slot(h.key, h.id)
    }

    /// Reads the memoized value a borrowed reference points to.
    ///
    /// Unlike a counted handle, a borrowed reference is rejected as a scope
    /// escape once the scope has ended, whether or not the entry survives.
    pub fn read_borrowed(&self, b: &B) -> (r: Result<&Value, ResolveError>)
        requires
            self.inv(),
        ensures
            match r {
                Ok(v) => {
                    &&& !self.has_ended()
                    &&& self.entries().dom().contains(b.key.k)
                    &&& self.entries()[b.key.k].id == b.id
                    &&& vmodel(*v) == self.entries()[b.key.k].data
                },
                Err(e) => {
                    &&& e == ResolveError::ScopeEscape
                    &&& !(!self.has_ended() && self.entries().dom().contains(b.key.k)
                        && self.entries()[b.key.k].id == b.id)
                },
            },
    {
        if self.ended {
            Err(ResolveError::ScopeEscape)
        } else {
            self.read_slot(b.key, b.id)
        }
    }

    /// Reads the value stored under `key` when its identity matches.
    fn read_slot(&self, key: TypeKey, id: u64) -> (r: Result<&Value, ResolveError>)
        requires
            self.inv(),
        ensures
            match r {
                Ok(v) => {
                    &&& self.entries().dom().contains(key.k)
                    &&& self.entries()[key.k].id == id
                    &&& vmodel(*v) == self.entries()[key.k].data
                },
                Err(e) => {
                    &&& e == ResolveError::ScopeEscape
                    &&& !(self.entries().dom().contains(key.k) && self.entries()[key.k].id == id)
                },
            },
    {
        if self.contains(key) && self.ids[key.k as usize] == id {
            match &self.datas[key.k as usize] {
                Some(v) => Ok(v),
                None => {
                    proof {
                        assert(false);
                    }
                    Err(ResolveError::ScopeEscape)
                },
            }
        } else {
            Err(ResolveError::ScopeEscape)
        }
    }
}

/// Teardown determinism: while the scope is alive nothing has been
/// destroyed; a destroyed entry was destroyed exactly once and is gone from
/// the store for good; and after the scope has ended, every surviving entry
/// still has an outstanding counted handle, so destruction always waits for
/// the last release and never runs early.
pub proof fn lemma_teardown_determinism(s: &Store)
    requires
        s.inv(),
    ensures
        !s.has_ended() ==> s.destroyed_log().len() == 0,
        forall|j1: int, j2: int|
            0 <= j1 < j2 < s.destroyed_log().len() ==> s.destroyed_log()[j1]
                != s.destroyed_log()[j2],
        forall|j: int|
            0 <= j < s.destroyed_log().len() ==> !s.entries().dom().contains(
                #[trigger] s.destroyed_log()[j],
            ),
        s.has_ended() ==> forall|k: u64| #[trigger]
            s.entries().dom().contains(k) ==> s.entries()[k].count > 0,
{
}

impl B {
    /// Yields the memoized value this reference points to, valid only while
    /// the owning scope is alive.
    pub fn value<'a>(&self, scope: &'a Store) -> (r: Result<&'a Value, ResolveError>)
        requires
            scope.inv(),
        ensures
            match r {
                Ok(v) => {
                    &&& !scope.has_ended()
                    &&& scope.entries().dom().contains(self.key.k)
                    &&& scope.entries()[self.key.k].id == self.id
                    &&& vmodel(*v) == scope.entries()[self.key.k].data
                },
                Err(e) => {
                    &&& e == ResolveError::ScopeEscape
                    &&& !(!scope.has_ended() && scope.entries().dom().contains(self.key.k)
                        && scope.entries()[self.key.k].id == self.id)
                },
            },
    {
        scope.read_borrowed(self)
    }
}

/// Releasing nothing changes nothing.
pub proof fn lemma_dec_counts_empty(m: Map<u64, EntryV>)
    ensures
        dec_counts(m, Multiset::empty()) == m,
{
    assert(dec_counts(m, Multiset::empty()) =~= m);
}

/// Releasing two batches of handles in turn releases their union.
pub proof fn lemma_dec_counts_add(m: Map<u64, EntryV>, a: Multiset<u64>, b: Multiset<u64>)
    ensures
        dec_counts(dec_counts(m, a), b) == dec_counts(m, a.add(b)),
{
    assert(dec_counts(dec_counts(m, a), b) =~= dec_counts(m, a.add(b)));
}

/// Peeling the head off the counted handles of a value suffix.
pub proof fn lemma_chs_skip_step(vs: Seq<VModel>, i: int)
    requires
        0 <= i < vs.len(),
    ensures
        counted_handles_seq(vs.skip(i)) == counted_handles(vs[i]).add(
            counted_handles_seq(vs.skip(i + 1)),
        ),
{
    assert(vs.skip(i).drop_first() =~= vs.skip(i + 1));
    assert(vs.skip(i)[0] == vs[i]);
}

/// The value models of a sequence, element by element.
pub proof fn lemma_vmodels_index(s: Seq<Value>)
    ensures
        vmodels(s).len() == s.len(),
        forall|i: int| 0 <= i < s.len() ==> vmodels(s)[i] == vmodel(s[i]),
    decreases s,
{
    if s.len() > 0 {
        lemma_vmodels_index(s.drop_first());
        assert forall|i: int| 0 <= i < s.len() implies vmodels(s)[i] == vmodel(s[i]) by {
            if i > 0 {
                assert(vmodels(s.drop_first())[i - 1] == vmodel(s.drop_first()[i - 1]));
            }
        }
    }
}

/// Splitting one key off the low end of a teardown range.
proof fn lemma_zkr_lo(m: Map<u64, EntryV>, hi: nat, lo: nat)
    requires
        lo < hi,
        hi <= u64::MAX,
    ensures
        zero_keys_range(m, hi, lo) == zero_keys_range(m, hi, (lo + 1) as nat) + (
        if m.dom().contains(lo as u64) && m[lo as u64].count == 0 {
            seq![lo as u64]
        } else {
            Seq::<u64>::empty()
        }),
    decreases hi - lo,
{
    let tail = if m.dom().contains(lo as u64) && m[lo as u64].count == 0 {
        seq![lo as u64]
    } else {
        Seq::<u64>::empty()
    };
    let h1 = (hi - 1) as nat;
    let head = if m.dom().contains(h1 as u64) && m[h1 as u64].count == 0 {
        seq![h1 as u64]
    } else {
        Seq::<u64>::empty()
    };
    assert(zero_keys_range(m, hi, lo) == head + zero_keys_range(m, h1, lo));
    if lo + 1 < hi {
        lemma_zkr_lo(m, h1, lo);
        assert(zero_keys_range(m, hi, (lo + 1) as nat) == head + zero_keys_range(
            m,
            h1,
            (lo + 1) as nat,
        ));
        assert(head + (zero_keys_range(m, h1, (lo + 1) as nat) + tail) =~= (head
            + zero_keys_range(m, h1, (lo + 1) as nat)) + tail);
    } else {
        assert(h1 == lo);
        assert(head == tail);
        assert(zero_keys_range(m, h1, lo) =~= Seq::<u64>::empty());
        assert(zero_keys_range(m, hi, (lo + 1) as nat) =~= Seq::<u64>::empty());
        assert(head + Seq::<u64>::empty() =~= Seq::<u64>::empty() + tail);
    }
}

/// The keys a teardown pass destroys: all and only the zero-count occupied
/// keys of the range, in strictly descending order.
proof fn lemma_zkr_props(m: Map<u64, EntryV>, hi: nat, lo: nat)
    requires
        hi <= u64::MAX,
    ensures
        forall|j: int|
            0 <= j < zero_keys_range(m, hi, lo).len() ==> {
                let k = #[trigger] zero_keys_range(m, hi, lo)[j];
                lo <= k < hi && m.dom().contains(k) && m[k].count == 0
            },
        forall|j1: int, j2: int|
            0 <= j1 < j2 < zero_keys_range(m, hi, lo).len() ==> zero_keys_range(m, hi, lo)[j1]
                > zero_keys_range(m, hi, lo)[j2],
        forall|k: u64|
            lo <= k < hi && m.dom().contains(k) && m[k].count == 0 ==> zero_keys_range(
                m,
                hi,
                lo,
            ).contains(k),
    decreases hi - lo,
{
    if hi > lo {
        lemma_zkr_props(m, (hi - 1) as nat, lo);
        let rest = zero_keys_range(m, (hi - 1) as nat, lo);
        let head = if m.dom().contains((hi - 1) as u64) && m[(hi - 1) as u64].count == 0 {
            seq![(hi - 1) as u64]
        } else {
            Seq::<u64>::empty()
        };
        let whole = zero_keys_range(m, hi, lo);
        assert(whole == head + rest);
        assert forall|j: int| 0 <= j < whole.len() implies {
            let k = #[trigger] whole[j];
            lo <= k < hi && m.dom().contains(k) && m[k].count == 0
        } by {
            if j < head.len() {
                assert(whole[j] == head[j]);
            } else {
                assert(whole[j] == rest[j - head.len()]);
            }
        }
        assert forall|j1: int, j2: int| 0 <= j1 < j2 < whole.len() implies whole[j1]
            > whole[j2] by {
            if j1 < head.len() {
                assert(whole[j1] == head[j1]);
                assert(whole[j2] == rest[j2 - head.len()]);
                assert(rest[j2 - head.len()] < (hi - 1) as u64);
            } else {
                assert(whole[j1] == rest[j1 - head.len()]);
                assert(whole[j2] == rest[j2 - head.len()]);
            }
        }
        assert forall|k: u64|
            lo <= k < hi && m.dom().contains(k) && m[k].count == 0 implies whole.contains(k) by {
            if k == (hi - 1) as u64 {
                assert(whole[0] == k);
            } else {
                assert(rest.contains(k));
                let j = choose|j: int| 0 <= j < rest.len() && rest[j] == k;
                assert(whole[head.len() + j] == k);
            }
        }
    }
}

impl Store {
    /// Lowers the handle counts of the matching entries by one per counted
    /// handle occurring in `v`, with a floor at zero.
    fn dec_handle_counts(&mut self, v: &Value)
        requires
            old(self).base_inv(),
        ensures
            final(self).base_inv(),
            final(self).capacity() == old(self).capacity(),
            final(self).has_ended() == old(self).has_ended(),
            final(self).destroyed_log() == old(self).destroyed_log(),
            final(self).entries() == dec_counts(old(self).entries(), counted_handles(vmodel(*v))),
        decreases *v,
    {
        match v {
            Value::Unit => {
                proof {
                    lemma_dec_counts_empty(self.entries());
                }
            },
            Value::Borrowed(_) => {
                proof {
                    lemma_dec_counts_empty(self.entries());
                }
            },
            Value::Shared(h) => {
                self.dec_one(h.key);
                proof {
                    assert(self.entries() =~= dec_counts(
                        old(self).entries(),
                        counted_handles(vmodel(*v)),
                    ));
                }
            },
            Value::MutShared(h) => {
                self.dec_one(h.key);
                proof {
                    assert(self.entries() =~= dec_counts(
                        old(self).entries(),
                        counted_handles(vmodel(*v)),
                    ));
                }
            },
            Value::Owned(o) => {
                proof {
                    assert(decreases_to!(*v => o.t.data));
                }
                self.dec_handle_counts(&o.t.data);
            },
            Value::Aggregate(vs) => {
                let n = vs.len();
                proof {
                    lemma_vmodels_index(vs@);
                    assert(vmodels(vs@).skip(0) =~= vmodels(vs@));
                }
                for i in 0..n
                    invariant
                        n == vs.len(),
                        *v == Value::Aggregate(*vs),
                        self.base_inv(),
                        self.capacity() == old(self).capacity(),
                        self.has_ended() == old(self).has_ended(),
                        self.destroyed_log() == old(self).destroyed_log(),
                        dec_counts(
                            self.entries(),
                            counted_handles_seq(vmodels(vs@).skip(i as int)),
                        ) == dec_counts(old(self).entries(), counted_handles(vmodel(*v))),
                    decreases n - i,
                {
                    proof {
                        assert(decreases_to!(*v => vs@[i as int]));
                    }
                    let ghost pre = self.entries();
                    self.dec_handle_counts(&vs[i]);
                    proof {
                        lemma_vmodels_index(vs@);
                        lemma_chs_skip_step(vmodels(vs@), i as int);
                        lemma_dec_counts_add(
                            pre,
                            counted_handles(vmodels(vs@)[i as int]),
                            counted_handles_seq(vmodels(vs@).skip(i as int + 1)),
                        );
                    }
                }
                proof {
                    lemma_vmodels_index(vs@);
                    assert(vmodels(vs@).skip(n as int) =~= Seq::<VModel>::empty());
                    lemma_dec_counts_empty(self.entries());
                }
            },
        }
    }

    /// Ends the scope and runs the teardown pass.
    ///
    /// Every memoized entry with no outstanding counted handle is destroyed
    /// now, in descending key order, so that entries are destroyed before
    /// the entries they were built from. An entry still referenced by a
    /// counted handle is deferred: it is destroyed by the release of its
    /// last handle. Ending an already ended scope changes nothing.
    pub fn end(&mut self)
        requires
            old(self).inv(),
        ensures
            final(self).inv(),
            final(self).has_ended(),
            final(self).capacity() == old(self).capacity(),
            if old(self).has_ended() {
                final(self).entries() == old(self).entries() && final(self).destroyed_log()
                    == old(self).destroyed_log()
            } else {
                final(self).entries() == sweep(old(self).entries()) && final(self).destroyed_log()
                    == old(self).destroyed_log() + zero_keys_range(
                    old(self).entries(),
                    old(self).capacity(),
                    0,
                )
            },
    {
        if !self.ended {
            self.ended = true;
            self.sweep_destroy();
        }
    }

    /// Releases a value: every counted handle in it is given back, and once
    /// the scope has ended, entries whose last handle this was are destroyed.
    pub fn release(&mut self, v: Value)
        requires
            old(self).inv(),
        ensures
            final(self).inv(),
            final(self).capacity() == old(self).capacity(),
            final(self).has_ended() == old(self).has_ended(),
            ({
                let m1 = dec_counts(old(self).entries(), counted_handles(vmodel(v)));
                if old(self).has_ended() {
                    final(self).entries() == sweep(m1) && final(self).destroyed_log() == old(self).destroyed_log() + zero_keys_range(m1, old(self).capacity(), 0)
                } else {
                    final(self).entries() == m1 && final(self).destroyed_log() == old(self).destroyed_log()
                }
            }),
    {
        self.dec_handle_counts(&v);
        if self.ended {
            self.sweep_destroy();
        }
    }

    /// Replaces the value memoized under a mutable-shared handle.
    ///
    /// The new value's counted handles move into the store and are released;
    /// the entry keeps its key, identity and handle count, so every current
    /// and future handle to it observes the new value.
    pub fn write(&mut self, h: &MutHandle, v: Value) -> (r: Result<(), ResolveError>)
        requires
            old(self).inv(),
        ensures
            final(self).inv(),
            final(self).capacity() == old(self).capacity(),
            final(self).has_ended() == old(self).has_ended(),
            match r {
                Ok(_) => ({
                    let k = h.key.k;
                    let m1 = dec_counts(old(self).entries(), counted_handles(vmodel(v)));
                    let m2 = m1.insert(
                        k,
                        EntryV { id: h.id, data: vmodel(v), count: m1[k].count },
                    );
                    &&& old(self).entries().dom().contains(k)
                    &&& old(self).entries()[k].id == h.id
                    &&& if old(self).has_ended() {
                        final(self).entries() == sweep(m2) && final(self).destroyed_log() == old(self).destroyed_log() + zero_keys_range(m2, old(self).capacity(), 0)
                    } else {
                        final(self).entries() == m2 && final(self).destroyed_log() == old(self).destroyed_log()
                    }
                }),
                Err(e) => {
                    &&& e == ResolveError::ScopeEscape
                    &&& final(self).entries() == old(self).entries()
                    &&& final(self).destroyed_log() == old(self).destroyed_log()
                    &&& !(old(self).entries().dom().contains(h.key.k) && old(self).entries()[h.key.k].id == h.id)
                },
            },
    {
        let valid = self.contains(h.key) && self.ids[h.key.k as usize] == h.id;
        if !valid {
            return Err(ResolveError::ScopeEscape);
        }
        self.dec_handle_counts(&v);
        let i = h.key.k as usize;
        self.datas.set(i, Some(v));
        proof {
            let k = h.key.k;
            let m1 = dec_counts(old(self).entries(), counted_handles(vmodel(v)));
            assert(self.entries() =~= m1.insert(
                k,
                EntryV { id: h.id, data: vmodel(v), count: m1[k].count },
            ));
        }
        if self.ended {
            proof {
                let k = h.key.k;
                assert(self.entries().dom().contains(k));
                assert((k as nat) < self.n as nat && self.states@[k as int] is Occupied);
                assert(self.base_inv());
            }
            self.sweep_destroy();
        } else {
            proof {
                let k = h.key.k;
                assert(self.entries().dom().contains(k));
                assert((k as nat) < self.n as nat && self.states@[k as int] is Occupied);
                assert(self.base_inv());
            }
        }
        Ok(())
    }

    /// Memoizes `data` under `key` with the given identity and initial
    /// handle count. The counted handles inside `data` move into the store
    /// and are released: the store itself holds its entries directly.
    pub(crate) fn insert(&mut self, key: TypeKey, id: u64, data: Value, count: u64)
        requires
            old(self).inv(),
            !old(self).has_ended(),
            key.k < old(self).capacity(),
            !old(self).entries().dom().contains(key.k),
        ensures
            final(self).inv(),
            final(self).capacity() == old(self).capacity(),
            !final(self).has_ended(),
            final(self).destroyed_log() == old(self).destroyed_log(),
            final(self).entries() == dec_counts(
                old(self).entries(),
                counted_handles(vmodel(data)),
            ).insert(key.k, EntryV { id, data: vmodel(data), count }),
    {
        self.dec_handle_counts(&data);
        let i = key.k as usize;
        self.ids.set(i, id);
        self.datas.set(i, Some(data));
        self.counts.set(i, count);
        self.states.set(i, SlotState::Occupied);
        proof {
            assert(self.entries() =~= dec_counts(
                old(self).entries(),
                counted_handles(vmodel(data)),
            ).insert(key.k, EntryV { id, data: vmodel(data), count }));
        }
    }

    /// Raises the handle count of an occupied entry by one, with a ceiling.
    pub(crate) fn bump(&mut self, key: TypeKey)
        requires
            old(self).inv(),
            old(self).entries().dom().contains(key.k),
        ensures
            final(self).inv(),
            final(self).capacity() == old(self).capacity(),
            final(self).has_ended() == old(self).has_ended(),
            final(self).destroyed_log() == old(self).destroyed_log(),
            final(self).entries() == old(self).entries().insert(
                key.k,
                EntryV {
                    id: old(self).entries()[key.k].id,
                    data: old(self).entries()[key.k].data,
                    count: sat_add1(old(self).entries()[key.k].count),
                },
            ),
    {
        let i = key.k as usize;
        let c = self.counts[i];
        if c < u64::MAX {
            self.counts.set(i, c + 1);
        }
        proof {
            assert(self.entries() =~= old(self).entries().insert(
                key.k,
                EntryV {
                    id: old(self).entries()[key.k].id,
                    data: old(self).entries()[key.k].data,
                    count: sat_add1(old(self).entries()[key.k].count),
                },
            ));
        }
    }

    /// The teardown pass: destroys, in descending key order, every memoized
    /// entry with no outstanding counted handle.
    fn sweep_destroy(&mut self)
        requires
            old(self).base_inv(),
            old(self).has_ended(),
        ensures
            final(self).inv(),
            final(self).has_ended(),
            final(self).capacity() == old(self).capacity(),
            final(self).entries() == sweep(old(self).entries()),
            final(self).destroyed_log() == old(self).destroyed_log() + zero_keys_range(
                old(self).entries(),
                old(self).capacity(),
                0,
            ),
    {
        let n = self.n;
        let mut k = n;
        proof {
            assert(zero_keys_range(old(self).entries(), n as nat, n as nat) =~= Seq::<
                u64,
            >::empty());
            assert(self.destroyed@ =~= old(self).destroyed@ + zero_keys_range(
                old(self).entries(),
                n as nat,
                n as nat,
            ));
        }
        while k > 0
            invariant
                k <= n,
                n == self.n,
                old(self).base_inv(),
                old(self).has_ended(),
                self.n == old(self).n,
                self.ended,
                self.ids@ == old(self).ids@,
                self.counts@ == old(self).counts@,
                self.datas@.len() == n,
                self.states@.len() == n,
                forall|i: int|
                    0 <= i < k ==> self.states@[i] == old(self).states@[i] && self.datas@[i] == old(self).datas@[i],
                forall|i: int|
                    k <= i < n ==> (if old(self).states@[i] is Occupied && old(self).counts@[i]
                        == 0 {
                        self.states@[i] is Destroyed && self.datas@[i] is None
                    } else {
                        self.states@[i] == old(self).states@[i] && self.datas@[i] == old(self).datas@[i]
                    }),
                self.destroyed@ == old(self).destroyed@ + zero_keys_range(
                    old(self).entries(),
                    n as nat,
                    k as nat,
                ),
            decreases k,
        {
            k -= 1;
            proof {
                lemma_zkr_lo(old(self).entries(), n as nat, k as nat);
            }
            let occupied_zero = match self.states[k] {
                SlotState::Occupied => self.counts[k] == 0,
                _ => false,
            };
            if occupied_zero {
                self.states.set(k, SlotState::Destroyed);
                self.datas.set(k, None);
                self.destroyed.push(k as u64);
                proof {
                    assert(self.destroyed@ =~= old(self).destroyed@ + zero_keys_range(
                        old(self).entries(),
                        n as nat,
                        k as nat,
                    ));
                }
            } else {
                proof {
                    assert(self.destroyed@ =~= old(self).destroyed@ + zero_keys_range(
                        old(self).entries(),
                        n as nat,
                        k as nat,
                    ));
                }
            }
        }
        proof {
            lemma_zkr_props(old(self).entries(), n as nat, 0);
            assert(self.entries() =~= sweep(old(self).entries()));
            assert forall|i: int|
                0 <= i < self.n && self.states@[i] is Destroyed implies self.destroyed@.contains(
                i as u64,
            ) by {
                if old(self).states@[i] is Destroyed {
                    assert(old(self).destroyed@.contains(i as u64));
                    let j = choose|j: int|
                        0 <= j < old(self).destroyed@.len() && old(self).destroyed@[j] == i as u64;
                    assert(self.destroyed@[j] == i as u64);
                } else {
                    assert(old(self).states@[i] is Occupied && old(self).counts@[i] == 0);
                    assert(old(self).entries().dom().contains(i as u64));
                    assert(old(self).entries()[i as u64].count == 0);
                    assert(zero_keys_range(old(self).entries(), n as nat, 0).contains(i as u64));
                    let z = zero_keys_range(old(self).entries(), n as nat, 0);
                    let j = choose|j: int| 0 <= j < z.len() && z[j] == i as u64;
                    assert(self.destroyed@[old(self).destroyed@.len() + j] == i as u64);
                }
            }
        }
    }

    /// Lowers one handle count by one, with a floor at zero.
    fn dec_one(&mut self, key: TypeKey)
        requires
            old(self).base_inv(),
        ensures
            final(self).base_inv(),
            final(self).capacity() == old(self).capacity(),
            final(self).has_ended() == old(self).has_ended(),
            final(self).destroyed_log() == old(self).destroyed_log(),
            final(self).entries() == dec_counts(
                old(self).entries(),
                Multiset::empty().insert(key.k),
            ),
    {
        if key.k < self.n as u64 {
            let i = key.k as usize;
            let c = self.counts[i];
            if c > 0 {
                self.counts.set(i, c - 1);
            }
        }
        proof {
            assert(self.entries() =~= dec_counts(
                old(self).entries(),
                Multiset::empty().insert(key.k),
            ));
        }
    }
}

} // verus!
