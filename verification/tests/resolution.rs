//! Stateless resolution: fresh construction, rejection of store-needing
//! wrappers, and registration-time validation.

use ioc::BasicContainer;
use ioc::Desc;
use ioc::Instance;
use ioc::ResolveError;
use ioc::Registry;
use ioc::TypeKey;
use ioc::Value;

/// All instance identities in a value, including nested owned instances and
/// handles of any kind.
fn collect_ids(v: &Value, out: &mut Vec<u64>) {
    match v {
        Value::Unit => {}
        Value::Aggregate(vs) => {
            for m in vs {
                collect_ids(m, out);
            }
        }
        Value::Owned(o) => {
            let inst = o.as_ref();
            collect_instance_ids(&inst.t, out);
        }
        Value::Shared(h) => out.push(h.id),
        Value::MutShared(h) => out.push(h.id),
        Value::Borrowed(b) => out.push(b.id),
    }
}

fn collect_instance_ids(i: &Instance, out: &mut Vec<u64>) {
    out.push(i.id);
    collect_ids(&i.data, out);
}

#[test]
fn empty_description_resolves_to_unit() {
    let mut reg = Registry::new();
    let x = reg.register(Desc::Empty).unwrap();
    assert_eq!(x.k, 0);

    let mut c = BasicContainer::new();
    let inst = c.resolve(&reg, x).unwrap();
    assert_eq!(inst.key, x);
    assert_eq!(inst.id, 0);
    assert!(matches!(inst.data, Value::Unit));
    assert_eq!(c.next_id(), 1);
}

#[test]
fn owned_chain_constructs_two_xs() {
    // X has no dependency, Y depends on Owned<X>, Z depends on
    // (Owned<X>, Owned<Y>): resolving Z constructs X twice, independently.
    let mut reg = Registry::new();
    let x = reg.register(Desc::Empty).unwrap();
    let y = reg.register(Desc::Owned(x)).unwrap();
    let z = reg
        .register(Desc::Aggregate(vec![Desc::Owned(x), Desc::Owned(y)]))
        .unwrap();

    let mut c = BasicContainer::new();
    let inst = c.resolve(&reg, z).unwrap();
    assert_eq!(inst.key, z);
    // Four constructions in all: X, X, Y, Z.
    assert_eq!(c.next_id(), 4);

    match inst.data {
        Value::Aggregate(members) => {
            assert_eq!(members.len(), 2);
            let mut it = members.into_iter();
            let first = it.next().unwrap();
            let second = it.next().unwrap();
            let x0 = match first {
                Value::Owned(o) => o.value(),
                _ => panic!("first member should be an owned instance"),
            };
            assert_eq!(x0.key, x);
            let y0 = match second {
                Value::Owned(o) => o.value(),
                _ => panic!("second member should be an owned instance"),
            };
            assert_eq!(y0.key, y);
            let x1 = match y0.data {
                Value::Owned(o) => o.value(),
                _ => panic!("the owned instance of y should hold an owned x"),
            };
            assert_eq!(x1.key, x);
            // Two X constructions, zero sharing.
            assert_ne!(x0.id, x1.id);
        }
        _ => panic!("z should resolve to an aggregate"),
    }
}

#[test]
fn successive_resolutions_share_no_identity() {
    let mut reg = Registry::new();
    let x = reg.register(Desc::Empty).unwrap();
    let y = reg.register(Desc::Owned(x)).unwrap();

    let mut c = BasicContainer::new();
    let first = c.resolve(&reg, y).unwrap();
    let second = c.resolve(&reg, y).unwrap();

    let mut ids1 = Vec::new();
    collect_instance_ids(&first, &mut ids1);
    let mut ids2 = Vec::new();
    collect_instance_ids(&second, &mut ids2);
    for a in &ids1 {
        assert!(!ids2.contains(a));
    }
}

#[test]
fn shared_wrapper_requires_scope() {
    let mut reg = Registry::new();
    let x = reg.register(Desc::Empty).unwrap();
    let y = reg.register(Desc::Shared(x)).unwrap();

    let mut c = BasicContainer::new();
    assert_eq!(c.resolve(&reg, y), Err(ResolveError::ScopeRequired(x)));
    // Nested behind an owned wrapper it is still rejected.
    let z = reg.register(Desc::Owned(y)).unwrap();
    assert_eq!(c.resolve(&reg, z), Err(ResolveError::ScopeRequired(x)));
}

#[test]
fn unregistered_key_is_rejected() {
    let reg = Registry::new();
    let mut c = BasicContainer::new();
    let ghost_key = TypeKey { k: 7 };
    assert_eq!(
        c.resolve(&reg, ghost_key),
        Err(ResolveError::Unregistered(ghost_key))
    );
}

#[test]
fn registration_rejects_unassigned_keys() {
    let mut reg = Registry::new();
    let x = reg.register(Desc::Empty).unwrap();
    // A description may only mention keys that are already assigned.
    let future = TypeKey { k: 5 };
    assert_eq!(
        reg.register(Desc::Owned(future)),
        Err(ResolveError::Unregistered(future))
    );
    // In particular it cannot mention the key being assigned to it, so a
    // self-requiring type is rejected at registration.
    let own_key = TypeKey { k: reg.len() as u64 };
    assert_eq!(
        reg.register(Desc::Shared(own_key)),
        Err(ResolveError::Unregistered(own_key))
    );
    // A failed registration assigns nothing.
    assert_eq!(reg.len(), 1);
    let y = reg.register(Desc::Owned(x)).unwrap();
    assert_eq!(y.k, 1);
}

#[test]
fn deep_first_bad_key_is_reported() {
    let mut reg = Registry::new();
    let x = reg.register(Desc::Empty).unwrap();
    let bad_a = TypeKey { k: 9 };
    let bad_b = TypeKey { k: 11 };
    let d = Desc::Aggregate(vec![
        Desc::Owned(x),
        Desc::Aggregate(vec![Desc::Shared(bad_a), Desc::Owned(bad_b)]),
    ]);
    // Depth-first order: the first unassigned key mentioned is reported.
    assert_eq!(reg.register(d), Err(ResolveError::Unregistered(bad_a)));
}

#[test]
fn construction_bound_counts_every_construction() {
    let mut reg = Registry::new();
    let x = reg.register(Desc::Empty).unwrap();
    let y = reg.register(Desc::Owned(x)).unwrap();
    let z = reg
        .register(Desc::Aggregate(vec![Desc::Owned(x), Desc::Owned(y)]))
        .unwrap();

    assert_eq!(reg.construction_bound(x), Some(1));
    assert_eq!(reg.construction_bound(y), Some(2));
    // x, x, y and z itself.
    assert_eq!(reg.construction_bound(z), Some(4));
    assert_eq!(reg.construction_bound(TypeKey { k: 42 }), None);
}

#[test]
fn aggregate_members_resolve_left_to_right() {
    let mut reg = Registry::new();
    let x = reg.register(Desc::Empty).unwrap();
    let trio = reg
        .register(Desc::Aggregate(vec![
            Desc::Owned(x),
            Desc::Owned(x),
            Desc::Owned(x),
        ]))
        .unwrap();

    let mut c = BasicContainer::new();
    let inst = c.resolve(&reg, trio).unwrap();
    match inst.data {
        Value::Aggregate(members) => {
            assert_eq!(members.len(), 3);
            let mut ids = Vec::new();
            for m in members {
                match m {
                    Value::Owned(o) => ids.push(o.value().id),
                    _ => panic!("members should be owned instances"),
                }
            }
            // Identities are minted in member order.
            assert_eq!(ids, vec![0, 1, 2]);
        }
        _ => panic!("expected an aggregate"),
    }
}
