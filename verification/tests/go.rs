use xengine::component::{ComponentHooks, HookId, HookKind};
use xengine::go::component::{component_hooks, Component};
use xengine::go::go_handle::{decimal, GoHandleError};
use xengine::go::global_transform::{ancestor_chain, mark_dirty_subtrees, TransformDirty};
use xengine::go::hierarchy::{maintain, parent_of, would_cycle, Children, HierarchyError, Parent};
use xengine::go::scene::{Scene, SceneIds};
use xengine::go::scene_ref::SceneRef;
use xengine::world::World;

/// A stand-in local transform for game objects.
#[derive(Clone, Copy, Debug, Default, PartialEq)]
struct Transform {
    position: (f32, f32, f32),
}

#[derive(Clone, Copy, Debug)]
struct DirtyMarker;

#[derive(Debug, PartialEq)]
struct Health(i32);
impl Component for Health {}

fn scene() -> Scene {
    Scene::new(1)
}

#[test]
fn component_hooks_are_copy_and_nullable() {
    let none = ComponentHooks {
        on_add: None,
        on_remove: None,
    };
    assert!(none.on_add.is_none());
    assert!(none.on_remove.is_none());
    let some = ComponentHooks {
        on_add: Some(HookId(3)),
        on_remove: None,
    };
    // Copy is preserved.
    let copy = some;
    assert!(copy.on_add.is_some() && copy.on_remove.is_none());
    assert_eq!(some.on_add, Some(HookId(3)));
}

#[test]
fn cycle_detection_on_chain() {
    let mut w = World::new();
    let a = w.create_empty();
    let b = w.create_empty();
    let c = w.create_empty();
    // Build a -> b -> c; attaching a under c would cycle.
    let _ = w.add(a, Parent { parent: None });
    let _ = w.add(b, Parent { parent: Some(a) });
    let _ = w.add(c, Parent { parent: Some(b) });
    // `would_cycle(ancestor, node)` = is `ancestor` on `node`'s chain?
    assert!(would_cycle(&w, a, c), "a is an ancestor of c");
    assert!(would_cycle(&w, a, b), "a is an ancestor of b");
    assert!(!would_cycle(&w, c, a), "c is not an ancestor of a");
    assert!(!would_cycle(&w, b, a), "b is not an ancestor of a");
}

#[test]
fn cycle_self_is_detected() {
    let mut w = World::new();
    let a = w.create_empty();
    let _ = w.add(a, Parent { parent: None });
    assert!(would_cycle(&w, a, a));
}

#[test]
fn scene_allocates_unique_id_and_binds_context() {
    let mut ids = SceneIds::new();
    let mut a = Scene::new(ids.allocate());
    let b = Scene::new(ids.allocate());
    assert_ne!(a.scene_id(), b.scene_id(), "scene ids are unique");
    assert!(a.scene_id() < b.scene_id());
    // A new scene binds no hook context; once its id is bound, component
    // lifecycle points are recorded against it.
    a.register_component::<Health>().unwrap();
    a.world_mut().create1(Health(0)).unwrap();
    assert!(a.world_mut().take_hook_events().is_empty());
    let id = a.scene_id() as u64;
    a.world_mut().bind_hook_context(id);
    let e = a.world_mut().create1(Health(1)).unwrap();
    let evs = a.world_mut().take_hook_events();
    assert_eq!(evs.len(), 1);
    assert_eq!(evs[0].kind, HookKind::Add);
    assert_eq!(evs[0].entity, e);
    assert_eq!(evs[0].context, a.scene_id() as u64);
    assert_eq!(Some(evs[0].hook), component_hooks().on_add);
}

#[test]
fn defaults_are_zeroed() {
    let r = SceneRef {
        scene_id: 7,
        serial: 42,
        generation: 3,
    };
    assert_eq!(r.scene_id, 7);
    assert_eq!(r.serial, 42);
    assert_eq!(r.generation, 3);
}

#[test]
fn create_go_generates_the_trio() {
    let mut scene = scene();
    let e = scene.create_go(Transform::default()).unwrap();
    let w = scene.world();
    assert!(w.contains::<Transform>(e).unwrap());
    assert!(w.contains::<SceneRef>(e).unwrap());
    assert!(w.contains::<Parent>(e).unwrap());
    assert_eq!(w.get::<Parent>(e).unwrap().unwrap().parent, None);
}

#[test]
fn scene_ref_auto_fill() {
    let mut scene = scene();
    let e1 = scene.create_go(Transform::default()).unwrap();
    let e2 = scene.create_go(Transform::default()).unwrap();
    let r1 = *scene.world().get::<SceneRef>(e1).unwrap().unwrap();
    let r2 = *scene.world().get::<SceneRef>(e2).unwrap().unwrap();
    assert_eq!(r1.scene_id, scene.scene_id());
    assert_eq!(r1.serial, 1);
    assert_eq!(r2.serial, 2, "serial is monotonic");
    assert_eq!(r1.generation, e1.generation());
    assert_eq!(r2.generation, e2.generation());
}

fn children_of(scene: &Scene, e: xengine::entity::Entity) -> Vec<xengine::entity::Entity> {
    match scene.world().get::<Children>(e).unwrap() {
        Some(c) => c.children.clone(),
        None => Vec::new(),
    }
}

#[test]
fn set_parent_bidirectional_and_reparent() {
    let mut scene = scene();
    let e1 = scene.create_go(Transform::default()).unwrap();
    let e2 = scene.create_go(Transform::default()).unwrap();
    let e3 = scene.create_go(Transform::default()).unwrap();
    scene.set_parent(e2, Some(e1)).unwrap();
    assert_eq!(
        scene.world().get::<Parent>(e2).unwrap().unwrap().parent,
        Some(e1)
    );
    assert!(children_of(&scene, e1).contains(&e2));
    scene.set_parent(e2, Some(e3)).unwrap();
    assert_eq!(
        scene.world().get::<Parent>(e2).unwrap().unwrap().parent,
        Some(e3)
    );
    assert!(!children_of(&scene, e1).contains(&e2));
    assert!(children_of(&scene, e3).contains(&e2));
}

#[test]
fn set_parent_cycle_is_rejected() {
    let mut scene = scene();
    let a = scene.create_go(Transform::default()).unwrap();
    let b = scene.create_go(Transform::default()).unwrap();
    scene.set_parent(b, Some(a)).unwrap();
    let err = scene.set_parent(a, Some(b)).unwrap_err();
    assert!(matches!(err, HierarchyError::Cycle));
    // State unchanged: a stays root, b stays under a.
    assert_eq!(
        scene.world().get::<Parent>(a).unwrap().unwrap().parent,
        None
    );
    assert_eq!(
        scene.world().get::<Parent>(b).unwrap().unwrap().parent,
        Some(a)
    );
}

#[test]
fn set_parent_rejects_self_and_stale() {
    let mut scene = scene();
    let a = scene.create_go(Transform::default()).unwrap();
    let b = scene.create_go(Transform::default()).unwrap();
    assert_eq!(scene.set_parent(a, Some(a)), Err(HierarchyError::Cycle));
    scene.destroy(b).unwrap();
    assert_eq!(scene.set_parent(a, Some(b)), Err(HierarchyError::StaleEntity));
    assert_eq!(scene.set_parent(b, None), Err(HierarchyError::StaleEntity));
}

#[test]
fn destroy_cascades_depth_first() {
    let mut scene = scene();
    let root = scene.create_go(Transform::default()).unwrap();
    let mid = scene.create_go(Transform::default()).unwrap();
    let leaf = scene.create_go(Transform::default()).unwrap();
    scene.set_parent(mid, Some(root)).unwrap();
    scene.set_parent(leaf, Some(mid)).unwrap();
    scene.destroy(root).unwrap();
    assert!(!scene.world().contains_entity(root));
    assert!(!scene.world().contains_entity(mid));
    assert!(!scene.world().contains_entity(leaf));
    assert_eq!(scene.world().entity_count(), 0);
}

#[test]
fn destroy_subtree_leaves_siblings_and_unlinks_parent() {
    let mut scene = scene();
    let root = scene.create_go(Transform::default()).unwrap();
    let left = scene.create_go(Transform::default()).unwrap();
    let right = scene.create_go(Transform::default()).unwrap();
    let leaf = scene.create_go(Transform::default()).unwrap();
    scene.set_parent(left, Some(root)).unwrap();
    scene.set_parent(right, Some(root)).unwrap();
    scene.set_parent(leaf, Some(left)).unwrap();
    scene.destroy(left).unwrap();
    assert!(scene.world().contains_entity(root));
    assert!(scene.world().contains_entity(right));
    assert!(!scene.world().contains_entity(leaf));
    assert_eq!(children_of(&scene, root), vec![right]);
    // Destroying a stale handle is a no-op.
    scene.destroy(left).unwrap();
    assert_eq!(scene.world().entity_count(), 2);
}

#[test]
fn detach_keeps_subtree_and_roots_it() {
    let mut scene = scene();
    let root = scene.create_go(Transform::default()).unwrap();
    let mid = scene.create_go(Transform::default()).unwrap();
    let leaf = scene.create_go(Transform::default()).unwrap();
    scene.set_parent(mid, Some(root)).unwrap();
    scene.set_parent(leaf, Some(mid)).unwrap();
    scene.detach(mid).unwrap();
    assert!(scene.world().contains_entity(mid));
    assert!(scene.world().contains_entity(leaf));
    assert_eq!(
        scene.world().get::<Parent>(mid).unwrap().unwrap().parent,
        None
    );
    assert!(!children_of(&scene, root).contains(&mid));
    assert_eq!(parent_of(scene.world(), leaf), Some(mid));
}

#[test]
fn world_destroy_single_entity_is_not_cascade() {
    let mut scene = scene();
    let root = scene.create_go(Transform::default()).unwrap();
    let mid = scene.create_go(Transform::default()).unwrap();
    scene.set_parent(mid, Some(root)).unwrap();
    scene.world_mut().destroy(mid).unwrap(); // ECS-level: single entity only
    assert!(!scene.world().contains_entity(mid));
    assert!(scene.world().contains_entity(root));
}

#[test]
fn mark_transform_dirty_adds_the_marker() {
    let mut scene = scene();
    let e = scene.create_go(Transform::default()).unwrap();
    assert!(!scene.world().contains::<TransformDirty>(e).unwrap());
    scene.mark_transform_dirty(e).unwrap();
    assert!(scene.world().contains::<TransformDirty>(e).unwrap());
    // Marking twice keeps a single marker.
    scene.mark_transform_dirty(e).unwrap();
    assert!(scene.world().contains::<TransformDirty>(e).unwrap());
}

#[test]
fn go_handle_and_view_roundtrip() {
    let mut scene = scene();
    let e = scene
        .create_go(Transform {
            position: (4.0, 5.0, 6.0),
        })
        .unwrap();
    let handle = scene.go_handle(e);
    assert_eq!(handle.entity(), e);
    {
        let mut view = scene.go_view::<Transform>(handle).unwrap();
        assert_eq!(view.scene_ref().unwrap().serial, 1);
        assert_eq!(view.entity(), e);
        assert_eq!(view.parent().unwrap().parent, None);
        assert!(view.children().is_none());
        view.component_mut::<Transform>().unwrap().position = (7.0, 8.0, 9.0);
    }
    assert_eq!(
        scene.world().get::<Transform>(e).unwrap().unwrap().position,
        (7.0, 8.0, 9.0)
    );
}

#[test]
fn go_view_after_migration_re_resolves() {
    let mut scene = scene();
    let e = scene.create_go(Transform::default()).unwrap();
    let handle = scene.go_handle(e);
    // Migration: add a marker component -> the entity moves archetypes.
    scene.world_mut().add(e, DirtyMarker).unwrap();
    let mut view = scene.go_view::<Transform>(handle).unwrap();
    view.component_mut::<Transform>().unwrap().position = (0.0, 0.0, 1.0);
    assert_eq!(
        scene.world().get::<Transform>(e).unwrap().unwrap().position,
        (0.0, 0.0, 1.0)
    );
}

#[test]
fn go_view_after_destroy_is_stale() {
    let mut scene = scene();
    let e = scene.create_go(Transform::default()).unwrap();
    let handle = scene.go_handle(e);
    scene.destroy(e).unwrap();
    assert!(matches!(
        scene.go_view::<Transform>(handle),
        Err(GoHandleError::GoHandleStale)
    ));
}

#[test]
fn go_view_without_trio_reports_missing_component() {
    let mut scene = scene();
    let e = scene.world_mut().create1(Health(1)).unwrap();
    let handle = scene.go_handle(e);
    assert!(matches!(
        scene.go_view::<Transform>(handle),
        Err(GoHandleError::MissingComponent)
    ));
}

#[test]
fn maintain_repairs_one_sided_edges() {
    let mut w = World::new();
    let p = w.create_empty();
    let c = w.create_empty();
    let gone = w.create_empty();
    // c names p as parent, but p has no Children yet.
    w.add(c, Parent { parent: Some(p) }).unwrap();
    // p lists a destroyed entity as a child.
    w.add(p, Children { children: vec![gone] }).unwrap();
    w.destroy(gone).unwrap();
    maintain(&mut w);
    assert_eq!(
        w.get::<Children>(p).unwrap().unwrap().children,
        vec![c]
    );
    assert_eq!(w.get::<Parent>(c).unwrap().unwrap().parent, Some(p));
}

#[test]
fn maintain_clears_a_dangling_parent() {
    let mut w = World::new();
    let p = w.create_empty();
    let c = w.create_empty();
    w.add(c, Parent { parent: Some(p) }).unwrap();
    w.destroy(p).unwrap();
    maintain(&mut w);
    assert_eq!(w.get::<Parent>(c).unwrap().unwrap().parent, None);
    assert_eq!(parent_of(&w, c), None);
}

fn chain3(scene: &mut Scene) -> [xengine::entity::Entity; 3] {
    let root = scene.create_go(Transform::default()).unwrap();
    let mid = scene.create_go(Transform::default()).unwrap();
    let leaf = scene.create_go(Transform::default()).unwrap();
    scene.set_parent(mid, Some(root)).unwrap();
    scene.set_parent(leaf, Some(mid)).unwrap();
    [root, mid, leaf]
}

#[test]
fn ancestor_chain_walks_to_the_root() {
    let mut scene = scene();
    let [root, mid, leaf] = chain3(&mut scene);
    assert_eq!(ancestor_chain(scene.world(), leaf), vec![leaf, mid, root]);
    assert_eq!(ancestor_chain(scene.world(), root), vec![root]);
}

#[test]
fn ancestor_chain_cuts_a_malformed_cycle() {
    let mut w = World::new();
    let a = w.create_empty();
    let b = w.create_empty();
    w.add(a, Parent { parent: Some(b) }).unwrap();
    w.add(b, Parent { parent: Some(a) }).unwrap();
    assert_eq!(ancestor_chain(&w, a), vec![a, b]);
}

#[test]
fn dirty_root_marks_the_whole_subtree() {
    let mut scene = scene();
    let [root, mid, leaf] = chain3(&mut scene);
    let other = scene.create_go(Transform::default()).unwrap();
    scene.mark_transform_dirty(root).unwrap();
    mark_dirty_subtrees(scene.world_mut());
    for e in [root, mid, leaf] {
        assert!(scene.world().contains::<TransformDirty>(e).unwrap());
    }
    assert!(!scene.world().contains::<TransformDirty>(other).unwrap());
}

#[test]
fn dirty_leaf_does_not_touch_ancestors() {
    let mut scene = scene();
    let [root, mid, leaf] = chain3(&mut scene);
    scene.mark_transform_dirty(leaf).unwrap();
    mark_dirty_subtrees(scene.world_mut());
    assert!(scene.world().contains::<TransformDirty>(leaf).unwrap());
    assert!(!scene.world().contains::<TransformDirty>(mid).unwrap());
    assert!(!scene.world().contains::<TransformDirty>(root).unwrap());
}

#[test]
fn handle_display_and_entity() {
    let mut scene = scene();
    let e = scene.create_go(Transform::default()).unwrap();
    let handle = scene.go_handle(e);
    assert_eq!(handle.entity(), e);
    let text = handle.text();
    assert!(text.starts_with("GoHandle("));
    assert!(text.starts_with(&format!("GoHandle({}@Some((", e.index())));
    assert!(text.ends_with(&format!(", 0, {})))", e.generation())));
}

#[test]
fn stale_handle_text_has_no_location() {
    let mut scene = scene();
    let e = scene.create_go(Transform::default()).unwrap();
    scene.destroy(e).unwrap();
    assert_eq!(scene.go_handle(e).text(), format!("GoHandle({}@None)", e.index()));
}

#[test]
fn decimal_notation() {
    assert_eq!(decimal(0), "0");
    assert_eq!(decimal(7), "7");
    assert_eq!(decimal(10), "10");
    assert_eq!(decimal(4_096), "4096");
    assert_eq!(decimal(u64::MAX), u64::MAX.to_string());
}

#[test]
fn hierarchy_and_handle_error_messages() {
    assert_eq!(HierarchyError::Cycle.message(), "hierarchy cycle rejected");
    assert_eq!(HierarchyError::StaleEntity.message(), "stale entity handle");
    assert_eq!(
        GoHandleError::GoHandleStale.message(),
        "go handle is stale (entity destroyed)"
    );
}

/// Both sides of every edge agree.
fn is_consistent(w: &World) -> bool {
    for e in w.entities() {
        if let Some(p) = parent_of(w, e) {
            match w.get::<Children>(p) {
                Ok(Some(c)) if c.children.contains(&e) => {}
                _ => return false,
            }
        }
        if let Ok(Some(c)) = w.get::<Children>(e) {
            for &k in &c.children {
                if !w.contains_entity(k) || parent_of(w, k) != Some(e) {
                    return false;
                }
            }
        }
    }
    true
}

#[test]
fn scene_edits_keep_the_hierarchy_consistent() {
    let mut scene = scene();
    let [root, mid, leaf] = chain3(&mut scene);
    let side = scene.create_go(Transform::default()).unwrap();
    assert!(is_consistent(scene.world()));
    scene.set_parent(leaf, Some(side)).unwrap();
    assert!(is_consistent(scene.world()));
    assert_eq!(scene.set_parent(root, Some(mid)), Err(HierarchyError::Cycle));
    assert!(is_consistent(scene.world()));
    scene.detach(side).unwrap();
    assert!(is_consistent(scene.world()));
    scene.set_parent(side, Some(mid)).unwrap();
    scene.destroy(mid).unwrap();
    assert!(is_consistent(scene.world()));
    assert!(!scene.world().contains_entity(side));
    assert!(!scene.world().contains_entity(leaf));
    assert_eq!(scene.world().entities(), vec![root]);
}

#[test]
fn scene_destroy_records_removals_leaves_first() {
    let mut scene = scene();
    scene.register_component::<Health>().unwrap();
    let root = scene.create_go(Transform::default()).unwrap();
    let child = scene.create_go(Transform::default()).unwrap();
    scene.set_parent(child, Some(root)).unwrap();
    scene.world_mut().add(root, Health(1)).unwrap();
    scene.world_mut().add(child, Health(2)).unwrap();
    let id = scene.scene_id() as u64;
    scene.world_mut().bind_hook_context(id);
    scene.destroy(root).unwrap();
    let evs = scene.world_mut().take_hook_events();
    assert_eq!(evs.len(), 2);
    assert!(evs.iter().all(|e| e.kind == HookKind::Remove));
    assert_eq!(evs[0].entity, child, "the leaf goes first");
    assert_eq!(evs[1].entity, root);
    assert_eq!(Some(evs[0].hook), component_hooks().on_remove);
}
