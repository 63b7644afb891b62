//! Scope teardown: deterministic destruction, deferral to the last
//! outstanding handle, and the closure-shaped scoping operation.

use ioc::BasicContainer;
use ioc::Scope;
use ioc::Desc;
use ioc::Registry;
use ioc::ScopedContainer;
use ioc::Value;

#[test]
fn end_destroys_unreferenced_entries_in_descending_key_order() {
    let mut reg = Registry::new();
    let x = reg.register(Desc::Empty).unwrap();
    let y = reg.register(Desc::Shared(x)).unwrap();

    let mut sc = ScopedContainer::new(&reg, 0);
    let inst = sc.resolve(&reg, y).unwrap();
    let h = match inst.data {
        Value::Shared(h) => h,
        _ => panic!("expected a shared handle"),
    };
    // Memoize y itself as well, then release everything before ending.
    let hy = sc.get_or_add(&reg, y).unwrap();
    sc.release(Value::Shared(h));
    sc.release(Value::Shared(hy));

    assert!(sc.scope().destroyed().is_empty());
    sc.end();
    // Both entries had no outstanding handle: destroyed at end, the entry
    // for y before the entry for x it was built from.
    assert_eq!(sc.scope().destroyed().clone(), vec![y.k, x.k]);
}

#[test]
fn destruction_waits_for_the_last_handle() {
    let mut reg = Registry::new();
    let x = reg.register(Desc::Empty).unwrap();

    let mut sc = ScopedContainer::new(&reg, 0);
    let h1 = sc.get_or_add(&reg, x).unwrap();
    let h2 = sc.get_or_add(&reg, x).unwrap();
    assert_eq!(sc.scope().handle_count(x), 2);

    sc.end();
    // Two handles outstanding: the entry is deferred, not destroyed, and
    // stays readable through the handles.
    assert!(sc.scope().destroyed().is_empty());
    assert!(sc.scope().contains(x));
    assert!(matches!(sc.scope().read(&h1), Ok(Value::Unit)));

    sc.release(Value::Shared(h1));
    assert!(sc.scope().destroyed().is_empty());

    // The release of the last handle destroys the entry, exactly once.
    sc.release(Value::Shared(h2));
    assert_eq!(sc.scope().destroyed().clone(), vec![x.k]);
    assert!(!sc.scope().contains(x));
}

#[test]
fn releasing_while_alive_never_destroys() {
    let mut reg = Registry::new();
    let x = reg.register(Desc::Empty).unwrap();

    let mut sc = ScopedContainer::new(&reg, 0);
    let h = sc.get_or_add(&reg, x).unwrap();
    sc.release(Value::Shared(h));
    assert_eq!(sc.scope().handle_count(x), 0);
    // The scope is alive: the entry stays memoized for future demands.
    assert!(sc.scope().contains(x));
    assert!(sc.scope().destroyed().is_empty());

    let h2 = sc.get_or_add(&reg, x).unwrap();
    sc.end();
    assert!(sc.scope().destroyed().is_empty());
    sc.release(Value::Shared(h2));
    assert_eq!(sc.scope().destroyed().clone(), vec![x.k]);
}

#[test]
fn releasing_a_value_releases_every_handle_inside() {
    let mut reg = Registry::new();
    let x = reg.register(Desc::Empty).unwrap();
    let y = reg.register(Desc::Empty).unwrap();
    let pair = reg
        .register(Desc::Aggregate(vec![Desc::Shared(x), Desc::Shared(y)]))
        .unwrap();

    let mut sc = ScopedContainer::new(&reg, 0);
    let inst = sc.resolve(&reg, pair).unwrap();
    assert_eq!(sc.scope().handle_count(x), 1);
    assert_eq!(sc.scope().handle_count(y), 1);

    sc.end();
    assert!(sc.scope().destroyed().is_empty());
    // Releasing the whole resolved value gives back both handles at once.
    sc.release(inst.data);
    assert_eq!(sc.scope().destroyed().clone(), vec![y.k, x.k]);
}

#[test]
fn ending_twice_changes_nothing() {
    let mut reg = Registry::new();
    let x = reg.register(Desc::Empty).unwrap();
    let mut sc = ScopedContainer::new(&reg, 0);
    let h = sc.get_or_add(&reg, x).unwrap();
    sc.release(Value::Shared(h));
    sc.end();
    assert_eq!(sc.scope().destroyed().clone(), vec![x.k]);
    sc.end();
    // Destruction ran exactly once.
    assert_eq!(sc.scope().destroyed().clone(), vec![x.k]);
}

#[test]
fn scope_runs_the_callback_and_advances_identities() {
    let mut reg = Registry::new();
    let x = reg.register(Desc::Empty).unwrap();
    let y = reg.register(Desc::Shared(x)).unwrap();

    let mut c = BasicContainer::new();
    let outer = c.resolve(&reg, x).unwrap();
    assert_eq!(outer.id, 0);

    let seen = c.scope(&reg, |mut sc: ScopedContainer| {
        let inst = sc.resolve(&reg, y).unwrap();
        let id = match &inst.data {
            Value::Shared(h) => h.id,
            _ => panic!("expected a shared handle"),
        };
        sc.release(inst.data);
        (sc, id)
    });
    // The scope minted x (id 1) and then y's instance (id 2).
    assert_eq!(seen, 1);

    // Identities minted inside the scope are consumed from the container:
    // nothing after the scope can collide with anything made inside it.
    let after = c.resolve(&reg, x).unwrap();
    assert_eq!(after.id, 3);
}

#[test]
fn memoized_entries_survive_for_the_whole_scope() {
    let mut reg = Registry::new();
    let x = reg.register(Desc::Empty).unwrap();
    let y = reg.register(Desc::Shared(x)).unwrap();

    let mut sc = ScopedContainer::new(&reg, 0);
    let first = sc.resolve(&reg, y).unwrap();
    // Drop every handle we hold.
    sc.release(first.data);
    assert_eq!(sc.scope().handle_count(x), 0);

    // A later resolution still observes the same memoized instance.
    let second = sc.resolve(&reg, y).unwrap();
    let h = match second.data {
        Value::Shared(h) => h,
        _ => panic!("expected a shared handle"),
    };
    assert_eq!(h.id, 0);
}
