//! Scoped resolution: memoization, isolation between scopes, mutation
//! through mutable-shared handles, and borrowed references.

use ioc::Desc;
use ioc::ResolveError;
use ioc::Registry;
use ioc::ScopedContainer;
use ioc::Value;

#[test]
fn shared_resolutions_have_identical_identity() {
    let mut reg = Registry::new();
    let x = reg.register(Desc::Empty).unwrap();
    let y = reg.register(Desc::Shared(x)).unwrap();

    let mut sc = ScopedContainer::new(&reg, 0);
    let first = sc.resolve(&reg, y).unwrap();
    let second = sc.resolve(&reg, y).unwrap();

    let h1 = match first.data {
        Value::Shared(h) => h,
        _ => panic!("y should resolve to a shared handle"),
    };
    let h2 = match second.data {
        Value::Shared(h) => h,
        _ => panic!("y should resolve to a shared handle"),
    };
    assert_eq!(h1.key, x);
    assert_eq!(h2.key, x);
    // Same scope: same memoized instance, by identity.
    assert_eq!(h1.id, h2.id);
    assert_eq!(sc.scope().handle_count(x), 2);
}

#[test]
fn get_or_add_memoizes_on_first_demand() {
    let mut reg = Registry::new();
    let x = reg.register(Desc::Empty).unwrap();

    let mut sc = ScopedContainer::new(&reg, 0);
    assert!(!sc.scope().contains(x));
    let h1 = sc.get_or_add(&reg, x).unwrap();
    assert!(sc.scope().contains(x));
    let before = sc.next_id();
    let h2 = sc.get_or_add(&reg, x).unwrap();
    // The second request constructed nothing.
    assert_eq!(sc.next_id(), before);
    assert_eq!(h1.id, h2.id);
}

#[test]
fn distinct_scopes_share_nothing() {
    let mut reg = Registry::new();
    let x = reg.register(Desc::Empty).unwrap();
    let y = reg.register(Desc::Shared(x)).unwrap();

    let mut sc1 = ScopedContainer::new(&reg, 0);
    let first = sc1.resolve(&reg, y).unwrap();
    let mut sc2 = ScopedContainer::new(&reg, sc1.next_id());
    let second = sc2.resolve(&reg, y).unwrap();

    let h1 = match first.data {
        Value::Shared(h) => h,
        _ => panic!("expected a shared handle"),
    };
    let h2 = match second.data {
        Value::Shared(h) => h,
        _ => panic!("expected a shared handle"),
    };
    // Two scopes, two unrelated instances.
    assert_ne!(h1.id, h2.id);
    assert_ne!(first.id, second.id);
}

#[test]
fn aggregate_constructs_shared_type_once() {
    // Both members transitively require the same shared-wrapped X.
    let mut reg = Registry::new();
    let x = reg.register(Desc::Empty).unwrap();
    let a = reg.register(Desc::Shared(x)).unwrap();
    let b = reg.register(Desc::Shared(x)).unwrap();
    let pair = reg
        .register(Desc::Aggregate(vec![Desc::Owned(a), Desc::Owned(b)]))
        .unwrap();

    let mut sc = ScopedContainer::new(&reg, 0);
    let inst = sc.resolve(&reg, pair).unwrap();
    // Constructions: x once, a, b, and the aggregate's own instance.
    assert_eq!(sc.next_id(), 4);

    match inst.data {
        Value::Aggregate(members) => {
            let mut ids = Vec::new();
            for m in members {
                let inner = match m {
                    Value::Owned(o) => o.value(),
                    _ => panic!("expected owned members"),
                };
                match inner.data {
                    Value::Shared(h) => ids.push(h.id),
                    _ => panic!("expected a shared handle inside"),
                }
            }
            assert_eq!(ids.len(), 2);
            // Whichever member came first constructed X; the other observed
            // the memoized instance.
            assert_eq!(ids[0], ids[1]);
        }
        _ => panic!("expected an aggregate"),
    }
}

#[test]
fn mutations_are_observed_through_every_handle() {
    let mut reg = Registry::new();
    let x = reg.register(Desc::Empty).unwrap();
    let y = reg.register(Desc::MutShared(x)).unwrap();

    let mut sc = ScopedContainer::new(&reg, 0);
    let first = sc.resolve(&reg, y).unwrap();
    let second = sc.resolve(&reg, y).unwrap();
    let h1 = match first.data {
        Value::MutShared(h) => h,
        _ => panic!("expected a mutable-shared handle"),
    };
    let h2 = match second.data {
        Value::MutShared(h) => h,
        _ => panic!("expected a mutable-shared handle"),
    };
    assert_eq!(h1.id, h2.id);

    // Initially the memoized X was built from nothing.
    assert!(matches!(sc.scope().read_mut(&h1), Ok(Value::Unit)));

    // Mutate through the first handle; observe through the second.
    let fresh = sc.resolve(&reg, x).unwrap();
    sc.write(&h1, fresh.data).unwrap();
    assert!(matches!(sc.scope().read_mut(&h2), Ok(Value::Unit)));
    let marker = Value::Aggregate(Vec::new());
    sc.write(&h2, marker).unwrap();
    match sc.scope().read_mut(&h1) {
        Ok(Value::Aggregate(vs)) => assert!(vs.is_empty()),
        _ => panic!("the write through h2 should be visible through h1"),
    }
}

#[test]
fn wrapper_flavors_share_one_entry_per_key() {
    let mut reg = Registry::new();
    let x = reg.register(Desc::Empty).unwrap();
    let s = reg.register(Desc::Shared(x)).unwrap();
    let m = reg.register(Desc::MutShared(x)).unwrap();

    let mut sc = ScopedContainer::new(&reg, 0);
    let shared = sc.resolve(&reg, s).unwrap();
    let mutable = sc.resolve(&reg, m).unwrap();
    let h = match shared.data {
        Value::Shared(h) => h,
        _ => panic!("expected a shared handle"),
    };
    let hm = match mutable.data {
        Value::MutShared(h) => h,
        _ => panic!("expected a mutable-shared handle"),
    };
    // One entry per type key: both wrappers observe the same instance, and
    // a mutation through the mutable handle is visible to the shared one.
    assert_eq!(h.id, hm.id);
    sc.write(&hm, Value::Aggregate(Vec::new())).unwrap();
    assert!(matches!(
        sc.scope().read(&h),
        Ok(Value::Aggregate(vs)) if vs.is_empty()
    ));
}

#[test]
fn write_rejects_a_foreign_handle() {
    let mut reg = Registry::new();
    let x = reg.register(Desc::Empty).unwrap();
    let mut sc = ScopedContainer::new(&reg, 0);

    // No entry was ever memoized under x, so a made-up handle is rejected.
    let stray = ioc::MutHandle { key: x, id: 3 };
    assert_eq!(sc.write(&stray, Value::Unit), Err(ResolveError::ScopeEscape));
}

#[test]
fn borrowed_reference_is_tied_to_the_scope() {
    let mut reg = Registry::new();
    let x = reg.register(Desc::Empty).unwrap();
    let y = reg.register(Desc::Borrowed(x)).unwrap();

    let mut sc = ScopedContainer::new(&reg, 0);
    let inst = sc.resolve(&reg, y).unwrap();
    let b = match inst.data {
        Value::Borrowed(b) => b,
        _ => panic!("expected a borrowed reference"),
    };
    assert_eq!(b.key, x);
    assert!(matches!(b.value(sc.scope()), Ok(Value::Unit)));

    // Borrowed references do not keep the entry alive: no counted handle is
    // outstanding, so ending the scope destroys the entry, and using the
    // reference afterwards is a scope escape.
    sc.end();
    assert_eq!(b.value(sc.scope()), Err(ResolveError::ScopeEscape));
}

#[test]
fn resolution_after_end_is_a_scope_escape() {
    let mut reg = Registry::new();
    let x = reg.register(Desc::Empty).unwrap();
    let mut sc = ScopedContainer::new(&reg, 0);
    sc.end();
    assert_eq!(sc.resolve(&reg, x), Err(ResolveError::ScopeEscape));
    assert_eq!(sc.get_or_add(&reg, x), Err(ResolveError::ScopeEscape));
}

#[test]
fn shared_and_owned_wrappers_mix_in_one_description() {
    let mut reg = Registry::new();
    let x = reg.register(Desc::Empty).unwrap();
    let y = reg
        .register(Desc::Aggregate(vec![
            Desc::Owned(x),
            Desc::Shared(x),
            Desc::Empty,
        ]))
        .unwrap();

    let mut sc = ScopedContainer::new(&reg, 0);
    let inst = sc.resolve(&reg, y).unwrap();
    match inst.data {
        Value::Aggregate(members) => {
            assert_eq!(members.len(), 3);
            let mut it = members.into_iter();
            let owned = it.next().unwrap();
            let shared = it.next().unwrap();
            let unit = it.next().unwrap();
            let owned_x = match owned {
                Value::Owned(o) => o.value(),
                _ => panic!("expected an owned instance"),
            };
            let h = match shared {
                Value::Shared(h) => h,
                _ => panic!("expected a shared handle"),
            };
            assert!(matches!(unit, Value::Unit));
            // The owned instance is fresh: it is not the memoized one.
            assert_ne!(owned_x.id, h.id);
        }
        _ => panic!("expected an aggregate"),
    }
}
