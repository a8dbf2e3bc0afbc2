use std::cell::RefCell;
use std::rc::Rc;

use xengine::schedule::{Schedule, ScheduleError};
use xengine::system::{AccessKind, Stage, System};
use xengine::world::World;

fn sys(name: &'static str, stage: Stage, access: &[(&'static str, AccessKind)]) -> System {
    System::with_spec(name, stage, access, None, None, |_| {})
}

#[test]
fn conflict_without_order_is_rejected() {
    let a = sys("reader", Stage::Update, &[("T", AccessKind::Read)]);
    let b = sys("writer", Stage::Update, &[("T", AccessKind::Write)]);
    let err = match Schedule::build(vec![a, b]) {
        Err(e) => e,
        Ok(_) => panic!("expected unordered conflict"),
    };
    assert!(matches!(
        err,
        ScheduleError::UnorderedConflict {
            a: "reader",
            b: "writer",
            ..
        }
    ));
}

#[test]
fn explicit_order_resolves_conflict() {
    let a = System::with_spec(
        "reader",
        Stage::Update,
        &[("T", AccessKind::Read)],
        Some("writer"),
        None,
        |_| {},
    );
    let b = System::with_spec(
        "writer",
        Stage::Update,
        &[("T", AccessKind::Write)],
        None,
        Some("reader"),
        |_| {},
    );
    let schedule = Schedule::build(vec![a, b]).unwrap();
    assert_eq!(schedule.system_count(), 2);
}

#[test]
fn unordered_non_conflicting_keeps_registration_order() {
    let log = Rc::new(RefCell::new(Vec::new()));
    let mk = |name: &'static str, key: &'static str| {
        let l = log.clone();
        System::with_spec(
            name,
            Stage::Update,
            &[(key, AccessKind::Write)],
            None,
            None,
            move |_| {
                l.borrow_mut().push(name);
            },
        )
    };
    let systems = vec![mk("x", "A"), mk("y", "B"), mk("z", "C")];
    let schedule = Schedule::build(systems).unwrap();
    let mut schedule = schedule;
    schedule.run_stage(&mut World::new(), Stage::Update);
    assert_eq!(*log.borrow(), vec!["x", "y", "z"]);
}

#[test]
fn run_stage_invokes_in_topological_order() {
    let log = Rc::new(RefCell::new(Vec::new()));
    let mk = |name: &'static str,
              key: &'static str,
              before: Option<&'static str>,
              after: Option<&'static str>| {
        let l = log.clone();
        System::with_spec(
            name,
            Stage::Update,
            &[(key, AccessKind::Write)],
            before,
            after,
            move |_| {
                l.borrow_mut().push(name);
            },
        )
    };
    // one runs before two (explicit), both write T.
    let systems = vec![
        mk("one", "T", Some("two"), None),
        mk("two", "T", None, Some("one")),
    ];
    let mut schedule = Schedule::build(systems).unwrap();
    schedule.run_stage(&mut World::new(), Stage::Update);
    assert_eq!(*log.borrow(), vec!["one", "two"]);
    schedule.run_stage(&mut World::new(), Stage::Update);
    assert_eq!(*log.borrow(), vec!["one", "two", "one", "two"]);
}

#[test]
fn system_metadata_is_exposed() {
    let s = System::with_spec(
        "sys",
        Stage::Update,
        &[("Health", AccessKind::Write)],
        Some("other"),
        Some("base"),
        |_| {},
    );
    assert_eq!(s.name(), "sys");
    assert_eq!(s.stage(), Stage::Update);
    assert_eq!(s.access(), &[("Health", AccessKind::Write)]);
    assert_eq!(s.before(), Some("other"));
    assert_eq!(s.after(), Some("base"));
}

#[test]
fn explicit_cycle_is_rejected() {
    let a = System::with_spec("a", Stage::Update, &[], Some("b"), None, |_| {});
    let b = System::with_spec("b", Stage::Update, &[], Some("c"), None, |_| {});
    let c = System::with_spec("c", Stage::Update, &[], Some("a"), None, |_| {});
    let err = match Schedule::build(vec![a, b, c]) {
        Err(e) => e,
        Ok(_) => panic!("expected a cycle"),
    };
    assert_eq!(err, ScheduleError::Cycle { stage: Stage::Update });
    assert_eq!(err.message(), "cycle detected in explicit ordering of Update");
}

#[test]
fn contradictory_pair_relation_leaves_the_pair_unordered() {
    // a before b and b before a cancel out: no edge, registration order.
    let a = System::with_spec("a", Stage::Update, &[], Some("b"), None, |_| {});
    let b = System::with_spec("b", Stage::Update, &[], Some("a"), None, |_| {});
    assert_eq!(Schedule::build(vec![a, b]).unwrap().system_count(), 2);
}

#[test]
fn reads_do_not_conflict_and_stages_are_independent() {
    let a = sys("r1", Stage::Update, &[("T", AccessKind::Read)]);
    let b = sys("r2", Stage::Update, &[("T", AccessKind::Read)]);
    // Same key written in another stage: no conflict across stages.
    let c = sys("w", Stage::PostUpdate, &[("T", AccessKind::Write)]);
    let schedule = Schedule::build(vec![a, b, c]).unwrap();
    assert_eq!(schedule.system_count(), 3);
}

#[test]
fn conflict_reports_the_key_and_stage() {
    let a = sys("w1", Stage::FixedUpdate, &[("K", AccessKind::Write)]);
    let b = sys("w2", Stage::FixedUpdate, &[("K", AccessKind::Write)]);
    let err = Schedule::build(vec![a, b]).err().unwrap();
    assert_eq!(
        err,
        ScheduleError::UnorderedConflict {
            stage: Stage::FixedUpdate,
            a: "w1",
            b: "w2",
            key: "K"
        }
    );
    assert_eq!(
        err.message(),
        "conflict on 'K' between systems 'w1' and 'w2' in FixedUpdate: add an explicit before/after relation"
    );
}

#[test]
fn order_respects_after_even_against_registration() {
    let log = Rc::new(RefCell::new(Vec::new()));
    let l1 = log.clone();
    let l2 = log.clone();
    let first = System::with_spec("late", Stage::Update, &[], None, Some("early"), move |_| {
        l1.borrow_mut().push("late");
    });
    let second = System::with_spec("early", Stage::Update, &[], None, None, move |_| {
        l2.borrow_mut().push("early");
    });
    let mut schedule = Schedule::build(vec![first, second]).unwrap();
    schedule.run_stage(&mut World::new(), Stage::Update);
    schedule.run_stage(&mut World::new(), Stage::PostUpdate);
    assert_eq!(*log.borrow(), vec!["early", "late"]);
}

#[test]
fn commands_are_flushed_between_systems() {
    struct Marker(u8);
    let seen = Rc::new(RefCell::new(false));
    let s2 = seen.clone();
    let producer = System::with_spec("producer", Stage::Update, &[], Some("consumer"), None, |w: &mut World| {
        let mut cmds = w.commands();
        cmds.insert_resource(Marker(1));
    });
    let consumer = System::with_spec("consumer", Stage::Update, &[], None, None, move |w: &mut World| {
        *s2.borrow_mut() = w.get_resource::<Marker>().unwrap().map(|m| m.0) == Some(1);
    });
    let mut schedule = Schedule::build(vec![producer, consumer]).unwrap();
    schedule.run_stage(&mut World::new(), Stage::Update);
    assert!(*seen.borrow());
}
