use std::cell::Cell;
use std::rc::Rc;

use quill_delta::SubscriptionRegistry;

type Cb = Box<dyn Fn(&str)>;

#[test]
fn register_returns_distinct_handles() {
    let mut r: SubscriptionRegistry<Cb> = SubscriptionRegistry::new();
    let a = r.register("text-change".to_string(), Box::new(|_| {}));
    let b = r.register("text-change".to_string(), Box::new(|_| {}));
    let c = r.register_once("selection-change".to_string(), Box::new(|_| {}));
    assert!(a != b && b != c && a != c);
    assert_eq!(r.len(), 3);
    assert!(r.contains(a) && r.contains(b) && r.contains(c));
}

#[test]
fn unregister_all_in_arbitrary_order_empties_the_registry() {
    let mut r: SubscriptionRegistry<Cb> = SubscriptionRegistry::new();
    let mut handles = Vec::new();
    for i in 0..8 {
        let name = if i % 2 == 0 { "text-change" } else { "selection-change" };
        handles.push(r.register(name.to_string(), Box::new(|_| {})));
    }
    // interleaved, shuffled removal order
    for &k in &[5usize, 0, 7, 2, 6, 1, 4, 3] {
        r.unregister(handles[k]);
    }
    assert_eq!(r.len(), 0);
    for &h in &handles {
        assert!(!r.contains(h));
        assert!(r.get(h).is_none());
    }
}

#[test]
fn unregister_is_idempotent_and_safe_on_unknown_handles() {
    let mut r: SubscriptionRegistry<Cb> = SubscriptionRegistry::new();
    let a = r.register("text-change".to_string(), Box::new(|_| {}));
    r.unregister(a);
    r.unregister(a);
    r.unregister(123456);
    assert_eq!(r.len(), 0);
}

#[test]
fn no_lookup_succeeds_after_unregister_returns() {
    let mut r: SubscriptionRegistry<Cb> = SubscriptionRegistry::new();
    let a = r.register("text-change".to_string(), Box::new(|_| {}));
    let b = r.register("text-change".to_string(), Box::new(|_| {}));
    r.unregister(a);
    assert!(r.get(a).is_none());
    assert!(r.get(b).is_some());
}

#[test]
fn callbacks_are_invocable_through_get() {
    let hits = Rc::new(Cell::new(0));
    let hits2 = hits.clone();
    let mut r: SubscriptionRegistry<Box<dyn Fn()>> = SubscriptionRegistry::new();
    let h = r.register("text-change".to_string(), Box::new(move || {
        hits2.set(hits2.get() + 1);
    }));
    if let Some(cb) = r.get(h) {
        cb();
        cb();
    }
    assert_eq!(hits.get(), 2);
}
