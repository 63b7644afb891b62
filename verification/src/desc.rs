//! Dependency descriptions: the closed family of root-dependency shapes.

use vstd::prelude::*;

verus! {

/// A process-wide key standing for one producible type.
///
/// Keys are assigned sequentially by a `Registry` at registration time, so
/// they are collision-free by construction and are used only for lookup.
#[derive(Clone, Copy, PartialEq, Eq, Structural, Debug)]
pub struct TypeKey {
    pub k: u64,
}

/// The dependency description of a producible type: what must be resolved
/// before the type can be constructed.
///
/// `Empty` materializes from nothing; `Aggregate` resolves its members left
/// to right and aggregates the results positionally; the four wrapper shapes
/// name a producible type key together with its sharing policy. The store
/// memoizes at most one instance per type key, so the shared, mutable-shared
/// and borrowed wrappers of one key all observe the same instance within a
/// scope.
pub enum Desc {
    /// Materializes from nothing.
    Empty,
    /// A tuple of member descriptions, resolved left to right.
    Aggregate(Vec<Desc>),
    /// The keyed type, constructed fresh on every resolution.
    Owned(TypeKey),
    /// The keyed type, memoized per scope and handed out by counted handle.
    Shared(TypeKey),
    /// Like `Shared`, but the handle also permits replacing the stored value.
    MutShared(TypeKey),
    /// Like `Shared`, but yields an uncounted reference tied to the scope.
    Borrowed(TypeKey),
}

/// All type keys mentioned by `d` lie below `bound`.
///
/// A description registered for key `b` may only mention keys below `b`, so a
/// description can never reach its own key: cycles are unrepresentable.
pub open spec fn desc_wf(d: Desc, bound: nat) -> bool
    decreases d,
{
    match d {
        Desc::Empty => true,
        Desc::Aggregate(ds) => descs_wf(ds@, bound),
        Desc::Owned(t) => t.k < bound,
        Desc::Shared(t) => t.k < bound,
        Desc::MutShared(t) => t.k < bound,
        Desc::Borrowed(t) => t.k < bound,
    }
}

/// Every description in `ds` is well formed below `bound`.
pub open spec fn descs_wf(ds: Seq<Desc>, bound: nat) -> bool
    decreases ds,
{
    ds.len() == 0 || (desc_wf(ds[0], bound) && descs_wf(ds.drop_first(), bound))
}

/// Well-formedness of a member sequence, member by member.
pub proof fn lemma_descs_wf_index(ds: Seq<Desc>, bound: nat)
    requires
        descs_wf(ds, bound),
    ensures
        forall|i: int| 0 <= i < ds.len() ==> desc_wf(#[trigger] ds[i], bound),
    decreases ds,
{
    if ds.len() > 0 {
        lemma_descs_wf_index(ds.drop_first(), bound);
        assert forall|i: int| 0 <= i < ds.len() implies desc_wf(#[trigger] ds[i], bound) by {
            if i > 0 {
                assert(ds.drop_first()[i - 1] == ds[i]);
            }
        }
    }
}

/// A suffix of a well-formed member sequence is well formed.
pub proof fn lemma_descs_wf_skip(ds: Seq<Desc>, bound: nat, i: int)
    requires
        descs_wf(ds, bound),
        0 <= i <= ds.len(),
    ensures
        descs_wf(ds.skip(i), bound),
    decreases i,
{
    if i > 0 {
        lemma_descs_wf_skip(ds, bound, i - 1);
        if ds.skip(i - 1).len() > 0 {
            assert(ds.skip(i - 1).drop_first() =~= ds.skip(i));
        } else {
            assert(ds.skip(i) =~= ds.skip(i - 1));
        }
    } else {
        assert(ds.skip(0) =~= ds);
    }
}

/// The first key mentioned by `d`, in depth-first order, that does not lie
/// below `bound`; `None` when the description is well formed below `bound`.
pub open spec fn first_unbound(d: Desc, bound: nat) -> Option<TypeKey>
    decreases d,
{
    match d {
        Desc::Empty => None,
        Desc::Aggregate(ds) => first_unbound_seq(ds@, bound),
        Desc::Owned(t) => if t.k < bound { None } else { Some(t) },
        Desc::Shared(t) => if t.k < bound { None } else { Some(t) },
        Desc::MutShared(t) => if t.k < bound { None } else { Some(t) },
        Desc::Borrowed(t) => if t.k < bound { None } else { Some(t) },
    }
}

/// The first unbound key over a sequence of member descriptions.
pub open spec fn first_unbound_seq(ds: Seq<Desc>, bound: nat) -> Option<TypeKey>
    decreases ds,
{
    if ds.len() == 0 {
        None
    } else {
        match first_unbound(ds[0], bound) {
            Some(t) => Some(t),
            None => first_unbound_seq(ds.drop_first(), bound),
        }
    }
}

/// A description is well formed exactly when it has no unbound key.
pub proof fn lemma_first_unbound_none(d: Desc, bound: nat)
    ensures
        desc_wf(d, bound) <==> first_unbound(d, bound) is None,
    decreases d,
{
    match d {
        Desc::Aggregate(ds) => {
            lemma_first_unbound_seq_none(ds@, bound);
        },
        _ => {},
    }
}

/// The sequence form of `lemma_first_unbound_none`.
pub proof fn lemma_first_unbound_seq_none(ds: Seq<Desc>, bound: nat)
    ensures
        descs_wf(ds, bound) <==> first_unbound_seq(ds, bound) is None,
    decreases ds,
{
    if ds.len() > 0 {
        lemma_first_unbound_none(ds[0], bound);
        lemma_first_unbound_seq_none(ds.drop_first(), bound);
    }
}

/// Skipping members whose check already passed does not change the result.
proof fn lemma_first_unbound_seq_skip(ds: Seq<Desc>, bound: nat, i: int)
    requires
        0 <= i <= ds.len(),
        forall|j: int| 0 <= j < i ==> first_unbound(#[trigger] ds[j], bound) is None,
    ensures
        first_unbound_seq(ds, bound) == first_unbound_seq(ds.skip(i), bound),
    decreases i,
{
    if i > 0 {
        assert(ds.skip(i - 1).drop_first() =~= ds.skip(i));
        lemma_first_unbound_seq_skip(ds, bound, i - 1);
        assert(ds.skip(i - 1)[0] == ds[i - 1]);
    } else {
        assert(ds.skip(0) =~= ds);
    }
}

impl Desc {
    /// Reports the first key this description mentions that does not lie
    /// below `bound`, or `None` when all mentioned keys do.
    pub fn check_below(&self, bound: u64) -> (r: Option<TypeKey>)
        ensures
            r == first_unbound(*self, bound as nat),
            r is None <==> desc_wf(*self, bound as nat),
        decreases *self,
    {
        proof {
            lemma_first_unbound_none(*self, bound as nat);
        }
        match self {
            Desc::Empty => None,
            Desc::Aggregate(ds) => {
                let n = ds.len();
                for i in 0..n
                    invariant
                        n == ds.len(),
                        *self == Desc::Aggregate(*ds),
                        forall|j: int|
                            0 <= j < i ==> first_unbound(#[trigger] ds@[j], bound as nat) is None,
                    decreases n - i,
                {
                    proof {
                        assert(decreases_to!(*self => ds@[i as int]));
                    }
                    let r = ds[i].check_below(bound);
                    if r.is_some() {
                        proof {
                            lemma_first_unbound_seq_skip(ds@, bound as nat, i as int);
                            assert(ds@.skip(i as int)[0] == ds@[i as int]);
                            lemma_first_unbound_none(*self, bound as nat);
                        }
                        return r;
                    }
                }
                proof {
                    lemma_first_unbound_seq_skip(ds@, bound as nat, n as int);
                    assert(ds@.skip(n as int) =~= Seq::<Desc>::empty());
                }
                None
            },
            Desc::Owned(t) => if t.k < bound { None } else { Some(*t) },
            Desc::Shared(t) => if t.k < bound { None } else { Some(*t) },
            Desc::MutShared(t) => if t.k < bound { None } else { Some(*t) },
            Desc::Borrowed(t) => if t.k < bound { None } else { Some(*t) },
        }
    }
}

} // verus!
