use std::any::TypeId;
use xengine::registry::ComponentDescriptor;
use xengine::component::{ComponentHooks, HookEvent, HookId, HookKind};
use xengine::error::WorldError;
use xengine::world::World;

#[derive(Debug, PartialEq)]
struct Position(f32, f32);
#[derive(Debug, PartialEq)]
struct Velocity(f32, f32);
#[derive(Debug, PartialEq)]
struct Health(i32);
#[derive(Debug, PartialEq)]
struct Script(i32);

#[test]
fn create_contains_get() {
    let mut w = World::new();
    let e = w.create2(Position(1.0, 2.0), Velocity(3.0, 4.0)).unwrap();
    assert!(w.contains_entity(e));
    assert!(w.contains::<Position>(e).unwrap());
    assert!(!w.contains::<Health>(e).unwrap());
    assert_eq!(w.get::<Position>(e).unwrap(), Some(&Position(1.0, 2.0)));
    assert_eq!(w.entity_count(), 1);
}

#[test]
fn stale_handle_access_errors_and_destroy_idempotent() {
    let mut w = World::new();
    let e = w.create1(Position(0.0, 0.0)).unwrap();
    w.destroy(e).unwrap();
    assert!(!w.contains_entity(e));
    assert!(matches!(w.get::<Position>(e), Err(WorldError::StaleEntity)));
    // Idempotent destroy.
    w.destroy(e).unwrap();
    // Reuse bumps generation: old handle stays stale.
    let e2 = w.create_empty();
    assert_ne!(e, e2);
    assert!(matches!(w.get::<Position>(e), Err(WorldError::StaleEntity)));
}

#[test]
fn add_duplicate_errors_and_state_unchanged() {
    let mut w = World::new();
    let e = w.create1(Position(1.0, 0.0)).unwrap();
    let err = w.add(e, Position(9.0, 9.0)).unwrap_err();
    assert!(matches!(err, WorldError::InsertAlreadyExists(_)));
    assert_eq!(w.get::<Position>(e).unwrap(), Some(&Position(1.0, 0.0)));
}

#[test]
fn remove_missing_is_noop() {
    let mut w = World::new();
    let e = w.create1(Position(1.0, 0.0)).unwrap();
    w.remove::<Health>(e).unwrap();
    w.remove::<Velocity>(e).unwrap();
    assert!(w.contains::<Position>(e).unwrap());
}

#[test]
fn remove_present_migrates_archetype() {
    let mut w = World::new();
    let e = w.create2(Position(1.0, 2.0), Velocity(3.0, 4.0)).unwrap();
    w.remove::<Velocity>(e).unwrap();
    assert!(w.contains::<Position>(e).unwrap());
    assert!(!w.contains::<Velocity>(e).unwrap());
    assert_eq!(w.get::<Position>(e).unwrap(), Some(&Position(1.0, 2.0)));
    // Re-add works after removal.
    w.add(e, Velocity(5.0, 6.0)).unwrap();
    assert_eq!(w.get::<Velocity>(e).unwrap(), Some(&Velocity(5.0, 6.0)));
}

#[test]
fn iterate_single_and_query2_intersection() {
    let mut w = World::new();
    let a = w.create2(Position(0.0, 0.0), Velocity(1.0, 1.0)).unwrap();
    let b = w.create1(Position(9.0, 9.0)).unwrap();
    let c = w.create2(Position(3.0, 3.0), Velocity(2.0, 2.0)).unwrap();
    let mut seen = Vec::new();
    w.iterate::<Position, _>(|e, p| seen.push((e, p.0)));
    assert_eq!(seen.len(), 3);
    let mut join = Vec::new();
    w.query2::<Position, Velocity, _>(|e, p, v| join.push((e, p.0, v.0)))
        .unwrap();
    assert_eq!(join.len(), 2);
    assert!(join.iter().any(|(e, _, _)| *e == a));
    assert!(join.iter().any(|(e, _, _)| *e == c));
    // remove Velocity from a -> a disappears from join
    w.remove::<Velocity>(a).unwrap();
    let mut join2 = Vec::new();
    w.query2::<Position, Velocity, _>(|e, _, _| join2.push(e))
        .unwrap();
    assert_eq!(join2.len(), 1);
    assert_eq!(join2[0], c);
    let _ = b;
}

#[test]
fn query3_and_archetype_migration() {
    let mut w = World::new();
    let e = w
        .create3(Position(1.0, 1.0), Velocity(1.0, 1.0), Health(10))
        .unwrap();
    let mut count = 0;
    w.query3::<Position, Velocity, Health, _>(|_, _, _, _| count += 1)
        .unwrap();
    assert_eq!(count, 1);
    w.remove::<Health>(e).unwrap();
    let mut count2 = 0;
    w.query3::<Position, Velocity, Health, _>(|_, _, _, _| count2 += 1)
        .unwrap();
    assert_eq!(count2, 0);
    // add it back via bundle2
    w.add_bundle2(e, Health(5), Script(0)).unwrap();
    let mut count3 = 0;
    w.query3::<Position, Velocity, Health, _>(|_, _, _, _| count3 += 1)
        .unwrap();
    assert_eq!(count3, 1);
}

#[test]
fn resources_lifecycle() {
    let mut w = World::new();
    assert!(matches!(w.get_resource::<Health>(), Ok(None)));
    w.insert_resource(Health(77));
    assert_eq!(w.get_resource::<Health>().unwrap().unwrap().0, 77);
    {
        let r = w.get_resource_mut::<Health>().unwrap().unwrap();
        r.0 += 1;
    }
    assert_eq!(w.get_resource::<Health>().unwrap().unwrap().0, 78);
    w.remove_resource::<Health>();
    assert!(w.get_resource::<Health>().unwrap().is_none());
}

#[test]
fn commands_flush_in_order_with_sync_semantics() {
    let mut w = World::new();
    let (first, second) = {
        let mut cmds = w.commands();
        let first = cmds.create1(Position(1.0, 1.0));
        let second = cmds.create2(Position(2.0, 2.0), Velocity(9.0, 9.0));
        cmds.add(first, Velocity(3.0, 3.0));
        cmds.destroy(second);
        (first, second)
    };
    // Nothing applied yet.
    assert_eq!(w.entity_count(), 0);
    w.flush_commands().unwrap();
    assert_eq!(w.entity_count(), 1);
    assert!(w.contains::<Position>(first).unwrap());
    assert!(w.contains::<Velocity>(first).unwrap());
    assert!(!w.contains_entity(second));
}

#[test]
fn commands_propagate_errors_on_flush() {
    let mut w = World::new();
    let stale = {
        let e = w.create1(Position(1.0, 1.0)).unwrap();
        w.destroy(e).unwrap();
        e
    };
    {
        let mut cmds = w.commands();
        cmds.remove::<Position>(stale);
    }
    let err = w.flush_commands().unwrap_err();
    assert!(matches!(err, WorldError::StaleEntity));
}

#[test]
fn query_same_type_is_rejected_deterministically() {
    let mut w = World::new();
    w.create1(Position(0.0, 0.0)).unwrap();
    let err = w.query2::<Position, Position, _>(|_, _, _| {}).unwrap_err();
    assert!(matches!(err, WorldError::BorrowConflict(_)));
    let err = w
        .query3::<Position, Velocity, Position, _>(|_, _, _, _| {})
        .unwrap_err();
    assert!(matches!(err, WorldError::BorrowConflict(_)));
}

#[test]
fn scriptable_registration_path() {
    let mut w = World::new();
    w.register::<Script>(true).unwrap();
    let e = w.create1(Script(5)).unwrap();
    // Same lifecycle semantics as native components.
    assert_eq!(w.get::<Script>(e).unwrap(), Some(&Script(5)));
    w.destroy(e).unwrap();
}

// ── component hook lifecycle ────────────────────────────────────────────

#[derive(Debug, PartialEq)]
struct Observed(u32);
#[derive(Debug, PartialEq)]
struct Other(u32);

const ADD_HOOK: HookId = HookId(11);
const REMOVE_HOOK: HookId = HookId(12);
const CONTEXT: u64 = 0xC0FFEE;

fn make_hooks() -> ComponentHooks {
    ComponentHooks {
        on_add: Some(ADD_HOOK),
        on_remove: Some(REMOVE_HOOK),
    }
}

/// Counts of (add, remove) firings among the drained events.
fn tally(events: &[HookEvent]) -> (usize, usize) {
    let adds = events.iter().filter(|e| e.kind == HookKind::Add).count();
    let removes = events.iter().filter(|e| e.kind == HookKind::Remove).count();
    (adds, removes)
}

#[test]
fn add_remove_destroy_fire_once() {
    let mut w = World::new();
    w.register_component_meta::<Observed>(make_hooks()).unwrap();
    w.bind_hook_context(CONTEXT);
    let e = w.create1(Observed(1)).unwrap();
    let evs = w.take_hook_events();
    assert_eq!(tally(&evs), (1, 0), "on_add fires once");
    assert_eq!(evs[0].hook, ADD_HOOK);
    assert_eq!(evs[0].entity, e);
    assert_eq!(evs[0].context, CONTEXT);
    w.remove::<Observed>(e).unwrap();
    let evs = w.take_hook_events();
    assert_eq!(tally(&evs), (0, 1), "on_remove fires once");
    assert_eq!(evs[0].hook, REMOVE_HOOK);
    w.add(e, Observed(2)).unwrap();
    assert_eq!(tally(&w.take_hook_events()), (1, 0), "re-add fires on_add");
    w.destroy(e).unwrap();
    assert_eq!(
        tally(&w.take_hook_events()),
        (0, 1),
        "destroy fires on_remove once"
    );
}

#[test]
fn migration_does_not_fire_for_moved_components() {
    let mut w = World::new();
    w.register_component_meta::<Observed>(make_hooks()).unwrap();
    w.bind_hook_context(CONTEXT);
    let e = w.create1(Observed(1)).unwrap();
    assert_eq!(tally(&w.take_hook_events()), (1, 0));
    // Adding a second (hook-less) component migrates Observed.
    w.add(e, Other(9)).unwrap();
    assert_eq!(tally(&w.take_hook_events()), (0, 0));
    // Removing Other migrates Observed again.
    w.remove::<Other>(e).unwrap();
    assert_eq!(tally(&w.take_hook_events()), (0, 0));
    // Removing the tracked component itself fires on_remove exactly once.
    w.remove::<Observed>(e).unwrap();
    assert_eq!(tally(&w.take_hook_events()), (0, 1));
}

#[test]
fn clear_fires_on_remove_for_every_live_value() {
    let mut w = World::new();
    w.register_component_meta::<Observed>(make_hooks()).unwrap();
    w.bind_hook_context(CONTEXT);
    let _ = w.create1(Observed(1)).unwrap();
    let _ = w.create1(Observed(2)).unwrap();
    let _ = w.create1(Observed(3)).unwrap();
    assert_eq!(tally(&w.take_hook_events()), (3, 0));
    w.clear();
    assert_eq!(
        tally(&w.take_hook_events()),
        (0, 3),
        "clear fires on_remove per value"
    );
    assert_eq!(w.entity_count(), 0);
}

#[test]
fn commands_path_fires_identically() {
    let mut w = World::new();
    w.register_component_meta::<Observed>(make_hooks()).unwrap();
    w.bind_hook_context(CONTEXT);
    let e = {
        let mut cmds = w.commands();
        cmds.create1(Observed(1))
    };
    assert_eq!(tally(&w.take_hook_events()), (0, 0), "not yet flushed");
    w.flush_commands().unwrap();
    assert_eq!(tally(&w.take_hook_events()), (1, 0));
    {
        let mut cmds = w.commands();
        cmds.destroy(e);
    }
    assert_eq!(tally(&w.take_hook_events()), (0, 0));
    w.flush_commands().unwrap();
    assert_eq!(tally(&w.take_hook_events()), (0, 1));
}

#[test]
fn unbound_context_skips_hooks() {
    let mut w = World::new();
    w.register_component_meta::<Observed>(make_hooks()).unwrap();
    // No bind_hook_context -> hooks must be skipped.
    let e = w.create1(Observed(1)).unwrap();
    w.destroy(e).unwrap();
    assert_eq!(tally(&w.take_hook_events()), (0, 0));
}

#[test]
fn duplicate_registration_preserves_first_hooks() {
    let mut w = World::new();
    w.register_component_meta::<Observed>(make_hooks()).unwrap();
    let err = w.register::<Observed>(false).unwrap_err();
    assert!(matches!(err, WorldError::DuplicateRegistration(_)));
    w.bind_hook_context(CONTEXT);
    let _e = w.create1(Observed(1)).unwrap();
    assert_eq!(
        tally(&w.take_hook_events()),
        (1, 0),
        "first registration's hooks must survive"
    );
}

#[test]
fn hookless_type_zero_impact() {
    let mut w = World::new();
    w.bind_hook_context(CONTEXT);
    let e = w.create1(Other(5)).unwrap();
    assert_eq!(tally(&w.take_hook_events()), (0, 0));
    w.destroy(e).unwrap();
    assert_eq!(tally(&w.take_hook_events()), (0, 0));
}

// ── further behaviour of the world ──────────────────────────────────────

#[test]
fn add_to_stale_entity_is_rejected() {
    let mut w = World::new();
    let e = w.create1(Position(1.0, 1.0)).unwrap();
    w.destroy(e).unwrap();
    assert!(matches!(w.add(e, Health(1)), Err(WorldError::StaleEntity)));
    assert!(matches!(w.remove::<Position>(e), Err(WorldError::StaleEntity)));
    assert!(matches!(w.contains::<Position>(e), Err(WorldError::StaleEntity)));
}

#[test]
fn duplicate_world_registration_is_rejected() {
    let mut w = World::new();
    w.register::<Health>(false).unwrap();
    assert!(w.is_registered::<Health>());
    assert!(!w.is_registered::<Script>());
    let err = w.register::<Health>(true).unwrap_err();
    assert!(matches!(err, WorldError::DuplicateRegistration(_)));
}

#[test]
fn destroy_drops_only_that_entity() {
    let mut w = World::new();
    let a = w.create1(Health(1)).unwrap();
    let b = w.create2(Health(2), Script(2)).unwrap();
    w.destroy(a).unwrap();
    assert_eq!(w.entity_count(), 1);
    assert_eq!(w.get::<Health>(b).unwrap(), Some(&Health(2)));
    assert_eq!(w.entities(), vec![b]);
}

#[test]
fn write_then_read_back_through_get_mut() {
    let mut w = World::new();
    let e = w.create1(Health(3)).unwrap();
    *w.get_mut::<Health>(e).unwrap().unwrap() = Health(40);
    assert_eq!(w.get::<Health>(e).unwrap(), Some(&Health(40)));
    assert!(w.get_mut::<Script>(e).unwrap().is_none());
}

#[test]
fn iterate_mut_updates_every_value() {
    let mut w = World::new();
    let a = w.create1(Health(1)).unwrap();
    let b = w.create2(Health(2), Script(0)).unwrap();
    w.iterate_mut::<Health, _>(|_, h| h.0 *= 10);
    assert_eq!(w.get::<Health>(a).unwrap(), Some(&Health(10)));
    assert_eq!(w.get::<Health>(b).unwrap(), Some(&Health(20)));
}

#[test]
fn flush_reports_first_error_and_runs_the_rest() {
    let mut w = World::new();
    let live = w.create1(Position(0.0, 0.0)).unwrap();
    let stale = w.create1(Position(1.0, 1.0)).unwrap();
    w.destroy(stale).unwrap();
    {
        let mut cmds = w.commands();
        cmds.add(live, Position(5.0, 5.0)); // InsertAlreadyExists
        cmds.remove::<Position>(stale); // StaleEntity
        cmds.add(live, Health(8)); // succeeds
    }
    let err = w.flush_commands().unwrap_err();
    assert!(matches!(err, WorldError::InsertAlreadyExists(_)));
    assert_eq!(w.get::<Health>(live).unwrap(), Some(&Health(8)));
    // The queue is empty after a flush.
    w.flush_commands().unwrap();
}

#[test]
fn command_resource_and_custom_closure() {
    let mut w = World::new();
    {
        let mut cmds = w.commands();
        cmds.insert_resource(Health(5));
        cmds.push(|world: &mut World| {
            world.insert_resource(Script(9));
        });
    }
    assert!(w.get_resource::<Health>().unwrap().is_none());
    w.flush_commands().unwrap();
    assert_eq!(w.get_resource::<Health>().unwrap().unwrap().0, 5);
    assert_eq!(w.get_resource::<Script>().unwrap().unwrap().0, 9);
}

#[test]
fn error_messages_are_descriptive() {
    assert_eq!(
        WorldError::StaleEntity.message(),
        "stale entity handle (generation mismatch)"
    );
    assert_eq!(WorldError::BorrowConflict("x").message(), "borrow conflict on 'x'");
    assert_eq!(
        WorldError::InsertAlreadyExists("Health").message(),
        "component 'Health' already exists on the entity"
    );
    assert_eq!(
        WorldError::ResourceNotFound("Time").message(),
        "resource 'Time' is not present"
    );
}

#[test]
fn create2_records_adds_in_turn_and_stops_at_a_repeat() {
    let mut w = World::new();
    w.register_component_meta::<Observed>(make_hooks()).unwrap();
    let other_hooks = ComponentHooks {
        on_add: Some(HookId(21)),
        on_remove: None,
    };
    w.register_component_meta::<Other>(other_hooks).unwrap();
    w.bind_hook_context(CONTEXT);
    let e = w.create2(Observed(1), Other(2)).unwrap();
    let evs = w.take_hook_events();
    assert_eq!(evs.len(), 2);
    assert_eq!(evs[0].hook, ADD_HOOK);
    assert_eq!(evs[1].hook, HookId(21));
    assert!(evs.iter().all(|x| x.entity == e && x.kind == HookKind::Add));
    assert!(w.create2(Observed(3), Observed(4)).is_err());
    let evs = w.take_hook_events();
    assert_eq!(evs.len(), 1, "only the add before the repeat is made");
    assert_eq!(evs[0].hook, ADD_HOOK);
    assert_eq!(w.entity_count(), 2);
}

#[test]
fn remove_on_a_stale_handle_is_an_error_even_for_an_unregistered_type() {
    let mut w = World::new();
    let e = w.create1(Observed(1)).unwrap();
    w.destroy(e).unwrap();
    assert_eq!(w.remove::<Other>(e), Err(WorldError::StaleEntity));
    assert_eq!(w.remove::<Observed>(e), Err(WorldError::StaleEntity));
    assert_eq!(w.entity_count(), 0);
}

#[test]
fn a_fresh_world_has_room_for_entities() {
    let w = World::new();
    assert!(w.can_create());
}

fn edge(to: Option<xengine::entity::Entity>) -> xengine::storage::ComponentValue {
    xengine::storage::ComponentValue::Parent(xengine::go::hierarchy::Parent { parent: to })
}

fn edge_target(v: &xengine::storage::ComponentValue) -> Option<xengine::entity::Entity> {
    match v {
        xengine::storage::ComponentValue::Parent(p) => p.parent,
        _ => panic!("not an edge value"),
    }
}

#[test]
fn query3_ids_hands_each_holder_its_own_values_once() {
    let (ta, tb, tc) = (TypeId::of::<Position>(), TypeId::of::<Velocity>(), TypeId::of::<Health>());
    let d = ComponentDescriptor::of::<xengine::go::hierarchy::Parent>(false);
    let mut w = World::new();
    let a = w.create1(Script(0)).unwrap();
    let b = w.create1(Script(1)).unwrap();
    let c = w.create1(Script(2)).unwrap();
    for (e, k) in [(a, 0usize), (b, 1), (c, 2)] {
        let marks = [a, b, c];
        w.add_value(e, ta, d, edge(Some(marks[k]))).unwrap();
        w.add_value(e, tc, d, edge(Some(marks[(k + 2) % 3]))).unwrap();
        if e != b {
            w.add_value(e, tb, d, edge(Some(marks[(k + 1) % 3]))).unwrap();
        }
    }
    let mut seen = Vec::new();
    let r = w.query3_ids(tc, ta, tb, |e, x, y, z| {
        seen.push((e, edge_target(&x), edge_target(&y), edge_target(&z)));
        (edge(None), y, z)
    });
    assert_eq!(r, Ok(()));
    seen.sort_by_key(|s| s.0.index());
    assert_eq!(seen, vec![(a, Some(c), Some(a), Some(b)), (c, Some(b), Some(c), Some(a))]);
    assert_eq!(edge_target(w.get_value(a, &tc).unwrap().unwrap()), None);
    assert_eq!(edge_target(w.get_value(a, &ta).unwrap().unwrap()), Some(a));
    assert_eq!(edge_target(w.get_value(b, &tc).unwrap().unwrap()), Some(a));
}

#[test]
fn query3_ids_repeated_identity_is_a_borrow_conflict() {
    let mut w = World::new();
    let e = w.create1(Position(0.0, 0.0)).unwrap();
    let mut calls = 0;
    let tp = TypeId::of::<Position>();
    let r = w.query3_ids(tp, TypeId::of::<Velocity>(), tp, |_, x, y, z| {
        calls += 1;
        (x, y, z)
    });
    assert!(matches!(r, Err(WorldError::BorrowConflict(_))));
    assert_eq!(calls, 0);
    assert_eq!(w.get::<Position>(e).unwrap(), Some(&Position(0.0, 0.0)));
}

#[test]
fn query2_ids_joins_holders_of_both() {
    let (ta, tb) = (TypeId::of::<Position>(), TypeId::of::<Velocity>());
    let d = ComponentDescriptor::of::<xengine::go::hierarchy::Parent>(false);
    let mut w = World::new();
    let a = w.create1(Script(0)).unwrap();
    let b = w.create1(Script(1)).unwrap();
    w.add_value(a, ta, d, edge(Some(b))).unwrap();
    w.add_value(a, tb, d, edge(None)).unwrap();
    w.add_value(b, ta, d, edge(Some(a))).unwrap();
    let mut seen = Vec::new();
    let r = w.query2_ids(ta, tb, |e, x, y| {
        seen.push((e, edge_target(&x), edge_target(&y)));
        (y, x)
    });
    assert_eq!(r, Ok(()));
    assert_eq!(seen, vec![(a, Some(b), None)]);
    assert_eq!(edge_target(w.get_value(a, &ta).unwrap().unwrap()), None);
    assert_eq!(edge_target(w.get_value(a, &tb).unwrap().unwrap()), Some(b));
    assert_eq!(edge_target(w.get_value(b, &ta).unwrap().unwrap()), Some(a));
    assert!(matches!(w.query2_ids(ta, ta, |_, x, y| (x, y)), Err(WorldError::BorrowConflict(_))));
}

#[test]
fn iterate_ids_visits_every_holder_once() {
    let mut w = World::new();
    let a = w.create2(Position(0.0, 0.0), Velocity(1.0, 1.0)).unwrap();
    let b = w.create1(Position(9.0, 9.0)).unwrap();
    let c = w.create1(Velocity(2.0, 2.0)).unwrap();
    let mut seen = Vec::new();
    w.iterate_ids(TypeId::of::<Position>(), |e, _| seen.push(e));
    seen.sort_by_key(|e| e.index());
    assert_eq!(seen, vec![a, b]);
    assert!(!seen.contains(&c));
}

#[test]
fn remove_undoes_add_and_read_gives_back_the_value() {
    let tp = TypeId::of::<Position>();
    let d = ComponentDescriptor::of::<xengine::go::hierarchy::Parent>(false);
    let mut w = World::new();
    let a = w.create1(Script(7)).unwrap();
    let b = w.create1(Script(8)).unwrap();
    w.add_value(a, tp, d, edge(Some(b))).unwrap();
    assert_eq!(edge_target(w.get_value(a, &tp).unwrap().unwrap()), Some(b));
    assert_eq!(w.get::<Script>(a).unwrap(), Some(&Script(7)));
    w.remove_id(a, tp).unwrap();
    assert!(w.get_value(a, &tp).unwrap().is_none());
    assert_eq!(w.get::<Script>(a).unwrap(), Some(&Script(7)));
}

#[test]
fn resource_edit_leaves_other_resources() {
    let mut w = World::new();
    w.insert_resource(Health(1));
    w.insert_resource(Script(2));
    w.get_resource_mut::<Health>().unwrap().unwrap().0 += 10;
    assert_eq!(w.get_resource::<Health>().unwrap(), Some(&Health(11)));
    assert_eq!(w.get_resource::<Script>().unwrap(), Some(&Script(2)));
}
