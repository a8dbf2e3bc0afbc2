//! Row bookkeeping after swap-removal: batches of add/remove migrations and
//! of destroys keep every live entity's values with its handle; dropped
//! values are dropped once, in registration order on destroy.

use std::cell::RefCell;
use std::rc::Rc;
use std::sync::atomic::{AtomicUsize, Ordering};
use std::sync::Arc;

use xengine::entity::Entity;
use xengine::world::World;

#[derive(Clone, Copy, Debug, PartialEq)]
struct Transform(f32);

#[derive(Clone, Copy, Debug, PartialEq)]
struct Marker;

fn toggle_n(w: &mut World, entities: &[Entity]) {
    for &e in entities {
        if w.contains::<Marker>(e).unwrap() {
            w.remove::<Marker>(e).unwrap();
        } else {
            w.add(e, Marker).unwrap();
        }
    }
}

#[test]
fn batch_toggle_invariants() {
    let mut w = World::new();
    let mut es = Vec::new();
    for i in 0..100u32 {
        es.push(w.create1(Transform(i as f32)).unwrap());
    }
    for tick in 0..35 {
        toggle_n(&mut w, &es);
        for &e in &es {
            let t = w.get::<Transform>(e).unwrap().unwrap();
            assert_eq!(t.0, e.index() as f32, "tick {tick}: corrupt entity");
        }
    }
}

#[test]
fn batch_toggle_count() {
    let mut w = World::new();
    let mut es = Vec::new();
    for i in 0..100u32 {
        es.push(w.create1(Transform(i as f32)).unwrap());
    }
    toggle_n(&mut w, &es);
    assert_eq!(w.entity_count(), 100);
    let with = |w: &World| {
        let mut n = 0;
        w.iterate::<Marker, _>(|_, _| n += 1);
        n
    };
    assert_eq!(with(&w), 100);
    toggle_n(&mut w, &es);
    assert_eq!(with(&w), 0);
    assert_eq!(w.entity_count(), 100);
}

#[test]
fn batch_destroy_keeps_remaining_entities_consistent() {
    let mut w = World::new();
    let mut es = Vec::new();
    for i in 0..100u32 {
        es.push(w.create1(Transform(i as f32)).unwrap());
    }
    for &e in es.iter().take(50) {
        w.destroy(e).unwrap();
    }
    assert_eq!(w.entity_count(), 50);
    for &e in es.iter().skip(50).take(25) {
        w.destroy(e).unwrap();
    }
    assert_eq!(w.entity_count(), 25);
    for &e in es.iter().skip(75) {
        let t = w
            .get::<Transform>(e)
            .unwrap()
            .expect("entity must be alive");
        assert_eq!(t.0, e.index() as f32, "corrupt entity after destroy");
    }
    for &e in es.iter().take(75) {
        assert!(!w.contains_entity(e));
        assert!(w.get::<Transform>(e).is_err());
    }
}

#[test]
fn destroy_then_toggle_mixed_invariants() {
    let mut w = World::new();
    let mut es = Vec::new();
    for i in 0..100u32 {
        es.push(w.create1(Transform(i as f32)).unwrap());
    }
    for &e in es.iter().step_by(2) {
        w.destroy(e).unwrap();
    }
    let survivors: Vec<Entity> = es.iter().skip(1).step_by(2).copied().collect();
    for tick in 0..35 {
        toggle_n(&mut w, &survivors);
        for &e in &survivors {
            let t = w.get::<Transform>(e).unwrap().unwrap();
            assert_eq!(t.0, e.index() as f32, "corrupt at tick {tick}");
        }
    }
    assert_eq!(w.entity_count(), 50);
}

struct A(Rc<RefCell<Vec<&'static str>>>);
struct B(Rc<RefCell<Vec<&'static str>>>);
struct C(Rc<RefCell<Vec<&'static str>>>);

impl Drop for A {
    fn drop(&mut self) {
        self.0.borrow_mut().push("A");
    }
}

impl Drop for B {
    fn drop(&mut self) {
        self.0.borrow_mut().push("B");
    }
}

impl Drop for C {
    fn drop(&mut self) {
        self.0.borrow_mut().push("C");
    }
}

#[test]
fn drop_order_follows_registration_order() {
    let log = Rc::new(RefCell::new(Vec::new()));
    let mut w = World::new();
    w.register::<A>(false).unwrap();
    w.register::<B>(false).unwrap();
    w.register::<C>(false).unwrap();
    let e = w
        .create3(A(log.clone()), B(log.clone()), C(log.clone()))
        .unwrap();
    w.destroy(e).unwrap();
    assert_eq!(*log.borrow(), vec!["A", "B", "C"]);
}

struct Counted(Arc<AtomicUsize>);

impl Drop for Counted {
    fn drop(&mut self) {
        self.0.fetch_add(1, Ordering::SeqCst);
    }
}

#[test]
fn drop_runs_once_per_component() {
    let c = Arc::new(AtomicUsize::new(0));
    let mut w = World::new();
    let e = w.create1(Counted(c.clone())).unwrap();
    w.destroy(e).unwrap();
    assert_eq!(c.load(Ordering::SeqCst), 1);
    let _e2 = w.create1(Counted(c.clone())).unwrap();
    let _e3 = w.create1(Counted(c.clone())).unwrap();
    w.clear();
    assert_eq!(c.load(Ordering::SeqCst), 3);
    let e4 = w.create1(Counted(c.clone())).unwrap();
    assert!(w.contains::<Counted>(e4).unwrap());
}
