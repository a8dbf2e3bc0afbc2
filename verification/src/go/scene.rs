//! `Scene`: the GO-layer runtime container for game objects.
//!
//! A `Scene` owns an ECS [`World`] and carries its scene id and a
//! scene-local monotonic `serial` sequence. Every GO-side lifecycle /
//! hierarchy / wrapper access goes through it.
use vstd::prelude::*;
use std::any::TypeId;

use crate::component::HookEvent;
use crate::entity::Entity;
use crate::erased::{type_id_of, ErasedBox};
use crate::error::WorldError;
use crate::registry::ComponentDescriptor;
use crate::storage::ComponentValue;
use crate::world::{World, WorldResult};

use super::component::{component_hooks, Component};
use super::global_transform::TransformDirty;
use super::go_handle::{GoHandle, GoHandleError, GoLoc, GoView};
use super::hierarchy::{
    acyclic, children_link, consistent, edges_only, lemma_chain_agree, lemma_edge_step, lemma_edges_only_refl, lemma_chain_survives, lemma_chain_ends, lemma_chain_hit, lemma_chain_same,
    lemma_chain_shift, nth_ancestor, on_chain, parent_link, would_cycle, Children, HierarchyError, Parent,
};
use super::scene_ref::SceneRef;

verus! {

/// A game object is an [`Entity`]: no wrapper struct, an entity *is* a GO.
pub type GameObject = Entity;

/// `s` without any occurrence of `c`.
pub open spec fn without(s: Seq<Entity>, c: Entity) -> Seq<Entity>
    decreases s.len(),
{
    if s.len() == 0 {
        s
    } else if s.last() == c {
        without(s.drop_last(), c)
    } else {
        without(s.drop_last(), c).push(s.last())
    }
}

/// `s` with `c` appended unless already present.
pub open spec fn with_child(s: Seq<Entity>, c: Entity) -> Seq<Entity> {
    if s.contains(c) { s } else { s.push(c) }
}

/// What `without` keeps: everything but `c`.
pub proof fn lemma_without_contains(s: Seq<Entity>, c: Entity, y: Entity)
    ensures
        without(s, c).contains(y) <==> s.contains(y) && y != c,
    decreases s.len(),
{
    if s.len() > 0 {
        let d = s.drop_last();
        let l = s.last();
        lemma_without_contains(d, c, y);
        // `s` holds `y` exactly when `d` does or `y` is the last entry.
        assert(s.contains(y) <==> d.contains(y) || y == l) by {
            if s.contains(y) && y != l {
                let i = choose|i: int| 0 <= i < s.len() && s[i] == y;
                assert(i < d.len());
                assert(d[i] == y);
            }
            if d.contains(y) {
                let i = choose|i: int| 0 <= i < d.len() && d[i] == y;
                assert(s[i] == y);
            }
            if y == l {
                assert(s[s.len() - 1] == y);
            }
        }
        if l != c {
            let w = without(d, c);
            assert(w.push(l).contains(y) <==> w.contains(y) || y == l) by {
                if w.push(l).contains(y) && y != l {
                    let i = choose|i: int| 0 <= i < w.len() + 1 && w.push(l)[i] == y;
                    assert(w[i] == y);
                }
                if w.contains(y) {
                    let i = choose|i: int| 0 <= i < w.len() && w[i] == y;
                    assert(w.push(l)[i] == y);
                }
                if y == l {
                    assert(w.push(l)[w.len() as int] == y);
                }
            }
        }
    }
}

/// What `with_child` holds: the old entries and `c`.
pub proof fn lemma_with_child_contains(s: Seq<Entity>, c: Entity, y: Entity)
    ensures
        with_child(s, c).contains(y) <==> s.contains(y) || y == c,
{
    if !s.contains(c) {
        assert(s.push(c)[s.len() as int] == c);
        if s.push(c).contains(y) && y != c {
            let i = choose|i: int| 0 <= i < s.len() + 1 && s.push(c)[i] == y;
            assert(s[i] == y);
        }
        if s.contains(y) {
            let i = choose|i: int| 0 <= i < s.len() && s[i] == y;
            assert(s.push(c)[i] == y);
        }
    }
}

/// Whether `v` holds `x`.
pub fn holds_entity(v: &Vec<Entity>, x: Entity) -> (b: bool)
    ensures
        b == v@.contains(x),
{
    let mut i: usize = 0;
    while i < v.len()
        invariant
            0 <= i <= v@.len(),
            forall|j: int| 0 <= j < i ==> v@[j] != x,
        decreases v@.len() - i,
    {
        if v[i] == x {
            return true;
        }
        i = i + 1;
    }
    false
}

/// `v` without any occurrence of `c`, order kept.
pub fn entities_without(v: &Vec<Entity>, c: Entity) -> (r: Vec<Entity>)
    ensures
        r@ == without(v@, c),
{
    let mut out: Vec<Entity> = Vec::new();
    let mut i: usize = 0;
    while i < v.len()
        invariant
            0 <= i <= v@.len(),
            out@ == without(v@.take(i as int), c),
        decreases v@.len() - i,
    {
        proof {
            assert(v@.take(i as int + 1).drop_last() =~= v@.take(i as int));
        }
        if v[i] != c {
            out.push(v[i]);
        }
        i = i + 1;
    }
    assert(v@.take(v@.len() as int) =~= v@);
    out
}

/// Entry `i` of `s` is a child of an earlier entry.
pub open spec fn has_earlier_parent(w: World, s: Seq<Entity>, i: int) -> bool {
    exists|j: int| 0 <= j < i && #[trigger] children_link(w, s[j]).contains(s[i])
}

/// Entry `i` of `s` is one of `roots` or a child of an earlier entry.
pub open spec fn reached(w: World, roots: Set<Entity>, s: Seq<Entity>, i: int) -> bool {
    roots.contains(s[i]) || has_earlier_parent(w, s, i)
}

/// A traversal may still visit `x`: it is a root or a child of a visited entry.
pub open spec fn queued(w: World, roots: Set<Entity>, s: Seq<Entity>, x: Entity) -> bool {
    roots.contains(x) || exists|j: int| 0 <= j < s.len() && #[trigger] children_link(w, s[j]).contains(x)
}

/// `s` lists, once each, exactly the live entities reachable from `roots`
/// through children edges.
pub open spec fn reachable_listing(w: World, roots: Set<Entity>, s: Seq<Entity>) -> bool {
    &&& s.no_duplicates()
    &&& forall|i: int| 0 <= i < s.len() ==> w.view().contains_key(#[trigger] s[i])
    &&& forall|r: Entity| #[trigger] roots.contains(r) && w.view().contains_key(r) ==> s.contains(r)
    &&& forall|x: Entity, c: Entity| s.contains(x) && #[trigger] children_link(w, x).contains(c) && w.view().contains_key(c)
        ==> s.contains(c)
    &&& forall|i: int| 0 <= i < s.len() ==> #[trigger] reached(w, roots, s, i)
}

/// Distinct live entities are no more than the live entities.
pub proof fn lemma_live_bounded(w: World, s: Seq<Entity>)
    requires
        w.wf(),
        s.no_duplicates(),
        forall|i: int| 0 <= i < s.len() ==> w.view().contains_key(#[trigger] s[i]),
    ensures
        s.len() <= w.view().dom().len(),
{
    w.lemma_view_finite();
    s.unique_seq_to_set();
    assert(s.to_set().subset_of(w.view().dom())) by {
        assert forall|x: Entity| s.to_set().contains(x) implies w.view().dom().contains(x) by {
            let j = choose|j: int| 0 <= j < s.len() && s[j] == x;
        }
    }
    vstd::set_lib::lemma_len_subset(s.to_set(), w.view().dom());
}

/// Appending an entity that was queued keeps every entry reached.
proof fn lemma_reached_push(w: World, roots: Set<Entity>, s: Seq<Entity>, e: Entity)
    requires
        forall|i: int| 0 <= i < s.len() ==> #[trigger] reached(w, roots, s, i),
        queued(w, roots, s, e),
    ensures
        forall|i: int| 0 <= i < s.len() + 1 ==> #[trigger] reached(w, roots, s.push(e), i),
{
    let t = s.push(e);
    assert forall|i: int| 0 <= i < t.len() implies #[trigger] reached(w, roots, t, i) by {
        if i == s.len() {
            assert(t[i] == e);
            if !roots.contains(e) {
                let j = choose|j: int| 0 <= j < s.len() && #[trigger] children_link(w, s[j]).contains(e);
                assert(t[j] == s[j]);
                assert(children_link(w, t[j]).contains(t[i]));
                assert(has_earlier_parent(w, t, i));
            }
        } else {
            assert(t[i] == s[i]);
            assert(reached(w, roots, s, i));
            if !roots.contains(s[i]) {
                let j = choose|j: int| 0 <= j < i && #[trigger] children_link(w, s[j]).contains(s[i]);
                assert(t[j] == s[j]);
                assert(children_link(w, t[j]).contains(t[i]));
                assert(has_earlier_parent(w, t, i));
            }
        }
    }
}

/// Entities queued before a visit stay queued after it.
proof fn lemma_queued_grow(w: World, roots: Set<Entity>, s: Seq<Entity>, e: Entity, x: Entity)
    requires
        queued(w, roots, s, x),
    ensures
        queued(w, roots, s.push(e), x),
{
    if !roots.contains(x) {
        let j = choose|j: int| 0 <= j < s.len() && #[trigger] children_link(w, s[j]).contains(x);
        assert(s.push(e)[j] == s[j]);
    }
}

/// Depth-first collection (pre-order, starting from the last root) of the
/// live entities reachable from `roots` through children edges, each
/// exactly once; malformed cycles are tolerated.
pub fn collect_reachable(world: &World, roots: &Vec<Entity>) -> (out: Vec<Entity>)
    requires
        world.wf(),
    ensures
        reachable_listing(*world, roots@.to_set(), out@),
{
    let ghost w = *world;
    let ghost rs = roots@.to_set();
    let n = world.entity_count();
    let ct = world.children_type_id();
    let mut out: Vec<Entity> = Vec::new();
    let mut stack: Vec<Entity> = Vec::new();
    let mut r: usize = 0;
    while r < roots.len()
        invariant
            0 <= r <= roots@.len(),
            stack@ == roots@.take(r as int),
        decreases roots@.len() - r,
    {
        stack.push(roots[r]);
        r = r + 1;
        proof { assert(stack@ =~= roots@.take(r as int)); }
    }
    proof {
        assert(stack@ =~= roots@);
        assert forall|x: Entity| #[trigger] rs.contains(x) <==> roots@.contains(x) by {}
        assert forall|k: int| 0 <= k < stack@.len() implies #[trigger] queued(w, rs, out@, stack@[k]) by {
            assert(roots@.contains(stack@[k]));
        }
    }
    while stack.len() > 0
        invariant
            w == *world,
            world.wf(),
            rs == roots@.to_set(),
            forall|x: Entity| #[trigger] rs.contains(x) <==> roots@.contains(x),
            ct == w.children_type(),
            n == w.view().dom().len(),
            out@.no_duplicates(),
            forall|i: int| 0 <= i < out@.len() ==> w.view().contains_key(#[trigger] out@[i]),
            forall|x: Entity| #[trigger] rs.contains(x) && w.view().contains_key(x) ==> out@.contains(x) || stack@.contains(x),
            forall|x: Entity, c: Entity| out@.contains(x) && #[trigger] children_link(w, x).contains(c) && w.view().contains_key(c)
                ==> out@.contains(c) || stack@.contains(c),
            forall|i: int| 0 <= i < out@.len() ==> #[trigger] reached(w, rs, out@, i),
            forall|k: int| 0 <= k < stack@.len() ==> #[trigger] queued(w, rs, out@, stack@[k]),
        decreases n - out@.len(), stack@.len(),
    {
        proof { lemma_live_bounded(w, out@); }
        let ghost st_full = stack@;
        let e = stack.pop().unwrap();
        proof {
            assert(st_full == stack@.push(e));
            assert forall|k: int| 0 <= k < stack@.len() implies #[trigger] stack@[k] == st_full[k] by {}
            assert(st_full[st_full.len() - 1] == e);
            assert(queued(w, rs, out@, e));
        }
        if world.contains_entity(e) && !holds_entity(&out, e) {
            let ghost out0 = out@;
            out.push(e);
            proof {
                assert(out@ == out0.push(e));
                assert(out@[out0.len() as int] == e);
                assert(out@.no_duplicates()) by {
                    assert forall|a: int, b: int| 0 <= a < out@.len() && 0 <= b < out@.len() && a != b implies out@[a] != out@[b] by {
                        if a == out0.len() as int { assert(out0.contains(out@[b])); }
                        if b == out0.len() as int { assert(out0.contains(out@[a])); }
                    }
                }
                lemma_live_bounded(w, out@);
                lemma_reached_push(w, rs, out0, e);
                assert forall|k: int| 0 <= k < stack@.len() implies #[trigger] queued(w, rs, out@, stack@[k]) by {
                    assert(stack@[k] == st_full[k]);
                    assert(queued(w, rs, out0, st_full[k]));
                    lemma_queued_grow(w, rs, out0, e, stack@[k]);
                }
                assert forall|x: Entity| #[trigger] rs.contains(x) && w.view().contains_key(x) implies out@.contains(x) || stack@.contains(x) by {
                    if out0.contains(x) {
                        let k = choose|k: int| 0 <= k < out0.len() && out0[k] == x;
                        assert(out@[k] == x);
                    } else if x != e {
                        assert(st_full.contains(x));
                        let k = choose|k: int| 0 <= k < st_full.len() && st_full[k] == x;
                        assert(k < stack@.len());
                        assert(stack@[k] == x);
                    } else {
                        assert(out@[out0.len() as int] == e);
                    }
                }
                assert forall|x: Entity, c2: Entity| out@.contains(x) && x != e && #[trigger] children_link(w, x).contains(c2) && w.view().contains_key(c2)
                    implies out@.contains(c2) || stack@.contains(c2) by {
                    assert(out0.contains(x)) by {
                        let k = choose|k: int| 0 <= k < out@.len() && out@[k] == x;
                        assert(out0[k] == x);
                    }
                    if out0.contains(c2) {
                        let k = choose|k: int| 0 <= k < out0.len() && out0[k] == c2;
                        assert(out@[k] == c2);
                    } else if c2 != e {
                        assert(st_full.contains(c2));
                        let k = choose|k: int| 0 <= k < st_full.len() && st_full[k] == c2;
                        assert(k < stack@.len());
                        assert(stack@[k] == c2);
                    } else {
                        assert(out@[out0.len() as int] == e);
                    }
                }
            }
            match world.get_value(e, &ct) {
                Ok(Some(ComponentValue::Children(c))) => {
                    let kids = &c.children;
                    let mut j: usize = 0;
                    while j < kids.len()
                        invariant
                            w == *world,
                            kids@ == children_link(w, e),
                            out@.contains(e),
                            out@.len() > 0 && out@[out@.len() - 1] == e,
                            0 <= j <= kids@.len(),
                            out@.no_duplicates(),
                            forall|x: Entity| #[trigger] rs.contains(x) && w.view().contains_key(x) ==> out@.contains(x) || stack@.contains(x),
                            forall|x: Entity, c2: Entity| out@.contains(x) && x != e && #[trigger] children_link(w, x).contains(c2) && w.view().contains_key(c2)
                                ==> out@.contains(c2) || stack@.contains(c2),
                            forall|q: int| 0 <= q < j && kids@[q] != e ==> #[trigger] stack@.contains(kids@[q]),
                            forall|k: int| 0 <= k < stack@.len() ==> #[trigger] queued(w, rs, out@, stack@[k]),
                        decreases kids@.len() - j,
                    {
                        let child = kids[j];
                        let ghost st0 = stack@;
                        if child != e {
                            stack.push(child);
                            proof {
                                assert(stack@ == st0.push(child));
                                assert forall|k: int| 0 <= k < stack@.len() implies #[trigger] queued(w, rs, out@, stack@[k]) by {
                                    if k == st0.len() {
                                        assert(kids@[j as int] == child);
                                        assert(children_link(w, out@[out@.len() - 1]).contains(stack@[k]));
                                    } else {
                                        assert(stack@[k] == st0[k]);
                                    }
                                }
                                assert forall|x: Entity, c2: Entity| out@.contains(x) && x != e && #[trigger] children_link(w, x).contains(c2) && w.view().contains_key(c2)
                                    implies out@.contains(c2) || stack@.contains(c2) by {
                                    if st0.contains(c2) {
                                        let k = choose|k: int| 0 <= k < st0.len() && st0[k] == c2;
                                        assert(stack@[k] == c2);
                                    }
                                }
                                assert forall|q: int| 0 <= q < j + 1 && kids@[q] != e implies #[trigger] stack@.contains(kids@[q]) by {
                                    if q < j {
                                        assert(st0.contains(kids@[q]));
                                        let k = choose|k: int| 0 <= k < st0.len() && st0[k] == kids@[q];
                                        assert(stack@[k] == kids@[q]);
                                    } else {
                                        assert(stack@[st0.len() as int] == kids@[q]);
                                    }
                                }
                                assert forall|x: Entity| #[trigger] rs.contains(x) && w.view().contains_key(x) implies out@.contains(x) || stack@.contains(x) by {
                                    if st0.contains(x) {
                                        let k = choose|k: int| 0 <= k < st0.len() && st0[k] == x;
                                        assert(stack@[k] == x);
                                    }
                                }
                            }
                        }
                        j = j + 1;
                    }
                    proof {
                        assert forall|x: Entity, c2: Entity| out@.contains(x) && #[trigger] children_link(w, x).contains(c2) && w.view().contains_key(c2)
                            implies out@.contains(c2) || stack@.contains(c2) by {
                            if x == e && c2 != e {
                                let q = choose|q: int| 0 <= q < kids@.len() && kids@[q] == c2;
                                assert(stack@.contains(kids@[q]));
                            }
                        }
                    }
                },
                _ => {
                    proof {
                        assert(children_link(w, e) == Seq::<Entity>::empty());
                    }
                },
            }
        } else {
            proof {
                assert forall|x: Entity| #[trigger] rs.contains(x) && w.view().contains_key(x) implies out@.contains(x) || stack@.contains(x) by {
                    if !out@.contains(x) && x != e {
                        assert(st_full.contains(x));
                        let k = choose|k: int| 0 <= k < st_full.len() && st_full[k] == x;
                        assert(k < stack@.len());
                        assert(stack@[k] == x);
                    }
                }
                assert forall|x: Entity, c2: Entity| out@.contains(x) && #[trigger] children_link(w, x).contains(c2) && w.view().contains_key(c2)
                    implies out@.contains(c2) || stack@.contains(c2) by {
                    if !out@.contains(c2) && c2 != e {
                        assert(st_full.contains(c2));
                        let k = choose|k: int| 0 <= k < st_full.len() && st_full[k] == c2;
                        assert(k < stack@.len());
                        assert(stack@[k] == c2);
                    }
                }
            }
        }
    }
    out
}

/// Hands out scene ids: strictly increasing from 1, never reused.
pub struct SceneIds {
    next: u32,
}

impl SceneIds {
    /// The id handed out next.
    pub closed spec fn next_spec(&self) -> u32 {
        self.next
    }

    /// A fresh id source, starting at 1.
    pub fn new() -> (s: Self)
        ensures
            s.next_spec() == 1,
    {
        SceneIds { next: 1 }
    }

    /// The next id; every later id is larger.
    pub fn allocate(&mut self) -> (id: u32)
        requires
            old(self).next_spec() < u32::MAX,
        ensures
            id == old(self).next_spec(),
            final(self).next_spec() == id + 1,
    {
        let id = self.next;
        self.next = self.next + 1;
        id
    }
}

/// The GO-layer game-object container.
pub struct Scene {
    world: World,
    scene_id: u32,
    serial_counter: u64,
}

impl Scene {
    /// The scene's world.
    pub closed spec fn world_spec(&self) -> World {
        self.world
    }

    /// The scene's id.
    pub closed spec fn id_spec(&self) -> u32 {
        self.scene_id
    }

    /// The last serial handed out.
    pub closed spec fn serial_spec(&self) -> u64 {
        self.serial_counter
    }

    /// Internal consistency.
    pub open spec fn wf(&self) -> bool {
        self.world_spec().wf()
    }

    /// From `s0` to `s1` only the world changed.
    pub open spec fn same_scene(s0: Scene, s1: Scene) -> bool {
        &&& s1.id_spec() == s0.id_spec()
        &&& s1.serial_spec() == s0.serial_spec()
    }

    /// Creates a scene with the given id around an empty world. No hook
    /// context is bound: hook events are recorded only once the owner binds
    /// one on the world.
    pub fn new(scene_id: u32) -> (s: Self)
        ensures
            s.wf(),
            s.id_spec() == scene_id,
            s.serial_spec() == 0,
            s.world_spec().view() == Map::<Entity, Map<TypeId, ComponentValue>>::empty(),
            s.world_spec().context() is None,
            s.world_spec().can_reserve(),
            s.world_spec().issued() == Set::<Entity>::empty(),
    {
        let world = World::new();
        Scene { world, scene_id, serial_counter: 0 }
    }

    /// Whether one more game object can be created: the world has room for
    /// an entity and the serial counter has not run out.
    pub fn can_create_go(&self) -> (b: bool)
        requires
            self.wf(),
        ensures
            b == (self.world_spec().can_reserve() && self.serial_spec() < u64::MAX),
    {
        self.world.can_create() && self.serial_counter < u64::MAX
    }

    /// Shared access to the ECS world.
    pub fn world(&self) -> (w: &World)
        ensures
            *w == self.world_spec(),
    {
        &self.world
    }

    /// Mutable access to the ECS world.
    pub fn world_mut(&mut self) -> (w: &mut World)
        ensures
            *w == old(self).world_spec(),
            final(self).world_spec() == *final(w),
            Scene::same_scene(*old(self), *final(self)),
    {
        &mut self.world
    }

    /// The id of this scene.
    pub fn scene_id(&self) -> (id: u32)
        ensures
            id == self.id_spec(),
    {
        self.scene_id
    }

    /// Registers a GO-layer `Component` type with its lifecycle hooks.
    /// Duplicate registration errors and preserves the first entry.
    pub fn register_component<T: Component>(&mut self) -> (r: WorldResult<()>)
        requires
            old(self).wf(),
        ensures
            final(self).wf(),
            Scene::same_scene(*old(self), *final(self)),
            final(self).world_spec().view() == old(self).world_spec().view(),
            exists|t: TypeId| (r is Err <==> old(self).world_spec().registered().contains(t)),
    {
        self.world.register_component_meta::<T>(component_hooks())
    }

    // ── lifecycle ─────────────────────────────────────────────────────────

    /// Creates a game object with the given local transform. The entity
    /// gains the component trio: the transform, a `SceneRef` (auto-filled
    /// with the next serial) and a root `Parent`.
    pub fn create_go<T: 'static>(&mut self, transform: T) -> (r: WorldResult<Entity>)
        requires
            old(self).wf(),
            old(self).world_spec().can_reserve(),
            old(self).serial_spec() < u64::MAX,
        ensures
            final(self).wf(),
            final(self).id_spec() == old(self).id_spec(),
            final(self).serial_spec() <= old(self).serial_spec() + 1,
            r is Err ==> (r matches Err(WorldError::InsertAlreadyExists(_))),
            r matches Ok(e) ==> {
                &&& !old(self).world_spec().view().contains_key(e)
                &&& final(self).world_spec().view().dom() == old(self).world_spec().view().dom().insert(e)
                &&& final(self).world_spec().view()[e].dom().len() == 3
                &&& final(self).world_spec().view()[e].contains_key(old(self).world_spec().scene_ref_type())
                &&& final(self).world_spec().view()[e].contains_key(old(self).world_spec().parent_type())
                &&& parent_link(final(self).world_spec(), e) is None
                &&& final(self).serial_spec() == old(self).serial_spec() + 1
                &&& forall|x: Entity| x != e ==> #[trigger] final(self).world_spec().view().contains_key(x)
                    ==> final(self).world_spec().view()[x] == old(self).world_spec().view()[x]
            },
    {
        let e = self.world.create_empty();
        let ghost w1 = self.world;
        let r1 = self.world.add(e, transform);
        if r1.is_err() {
            proof {
                let (t1, d1, v1) = choose|t: TypeId, d: ComponentDescriptor, v: ComponentValue| World::add_outcome(w1, self.world, e, t, d, v, r1);
            }
            return Err(r1.unwrap_err());
        }
        let ghost w2 = self.world;
        self.serial_counter = self.serial_counter + 1;
        let scene_ref = SceneRef { scene_id: self.scene_id, serial: self.serial_counter, generation: e.generation() };
        let st = self.world.scene_ref_type_id();
        let sv = ComponentValue::Other(ErasedBox::new(scene_ref));
        let ghost v2 = sv;
        let r2 = self.world.add_value(e, st, ComponentDescriptor::of::<SceneRef>(false), sv);
        if r2.is_err() {
            return Err(r2.unwrap_err());
        }
        let ghost w3 = self.world;
        let pt = self.world.parent_type_id();
        let r3 = self.world.add_value(e, pt, ComponentDescriptor::of::<Parent>(false), ComponentValue::Parent(Parent { parent: None }));
        if r3.is_err() {
            return Err(r3.unwrap_err());
        }
        proof {
            let (t1, d1, v1) = choose|t: TypeId, d: ComponentDescriptor, v: ComponentValue| World::add_outcome(w1, w2, e, t, d, v, r1);
            let t2 = st;
            assert(w1.view()[e] == Map::<TypeId, ComponentValue>::empty());
            let m = Map::<TypeId, ComponentValue>::empty().insert(t1, v1).insert(t2, v2).insert(pt, ComponentValue::Parent(Parent { parent: None }));
            assert(self.world.view()[e] == m);
            assert(t1 != t2 && t2 != pt && t1 != pt);
            assert(m.dom() =~= set![t1, t2, pt]);
            assert(set![t1, t2, pt].len() == 3) by {
                assert(set![t1].len() == 1);
                assert(set![t1].insert(t2).len() == 2);
            }
            assert(self.world.view().dom() =~= old(self).world_spec().view().dom().insert(e));
        }
        Ok(e)
    }

    /// Adds a component to a game object (delegates to the ECS world).
    pub fn add_component<T: 'static>(&mut self, entity: Entity, value: T) -> (r: WorldResult<()>)
        requires
            old(self).wf(),
        ensures
            final(self).wf(),
            Scene::same_scene(*old(self), *final(self)),
            exists|t: TypeId, d: ComponentDescriptor, v: ComponentValue|
                World::add_outcome(old(self).world_spec(), final(self).world_spec(), entity, t, d, v, r),
    {
        let ghost w0 = self.world;
        let r = self.world.add(entity, value);
        proof {
            let (t, d, v) = choose|t: TypeId, d: ComponentDescriptor, v: ComponentValue| World::add_outcome(w0, self.world, entity, t, d, v, r);
            assert(World::add_outcome(old(self).world_spec(), self.world_spec(), entity, t, d, v, r));
        }
        r
    }

    /// Removes a component type from a game object (delegates to the ECS).
    pub fn remove_component<T: 'static>(&mut self, entity: Entity) -> (r: WorldResult<()>)
        requires
            old(self).wf(),
        ensures
            final(self).wf(),
            Scene::same_scene(*old(self), *final(self)),
            exists|t: TypeId| World::remove_outcome(old(self).world_spec(), final(self).world_spec(), entity, t, r),
    {
        let ghost w0 = self.world;
        let r = self.world.remove::<T>(entity);
        proof {
            let t = choose|t: TypeId| World::remove_outcome(w0, self.world, entity, t, r);
            assert(World::remove_outcome(old(self).world_spec(), self.world_spec(), entity, t, r));
        }
        r
    }

    /// A live `e` holds a value of type `t` in `w1` (one it held is kept),
    /// with nothing else changed; a stale one leaves the world as it was.
    pub open spec fn marked(w0: World, w1: World, e: Entity, t: TypeId) -> bool {
        &&& w0.view().contains_key(e) ==> {
            &&& w1.view()[e].contains_key(t)
            &&& w1.view() == w0.view().insert(e, w1.view()[e])
            &&& w1.view()[e].remove(t) == w0.view()[e].remove(t)
            &&& w0.view()[e].contains_key(t) ==> w1.view()[e][t] == w0.view()[e][t]
        }
        &&& !w0.view().contains_key(e) ==> w1.view() == w0.view()
    }

    /// Marks a game object's transform dirty (needed after a direct public
    /// field write that bypasses the set APIs).
    pub fn mark_transform_dirty(&mut self, entity: Entity) -> (r: WorldResult<()>)
        requires
            old(self).wf(),
        ensures
            final(self).wf(),
            r is Ok,
            Scene::same_scene(*old(self), *final(self)),
            final(self).world_spec().view().dom() == old(self).world_spec().view().dom(),
            Scene::marked(old(self).world_spec(), final(self).world_spec(), entity, old(self).world_spec().dirty_type()),
    {
        let t = self.world.dirty_type_id();
        if self.world.contains_entity(entity) {
            match self.world.contains_id(entity, &t) {
                Ok(true) => {
                    assert(self.world.view().insert(entity, self.world.view()[entity]) =~= self.world.view());
                    assert(Scene::marked(old(self).world_spec(), self.world, entity, t));
                },
                _ => {
                    let v = ComponentValue::Other(ErasedBox::new(TransformDirty));
                    let ghost w0 = self.world;
                    let r = self.world.add_value(entity, t, ComponentDescriptor::of::<TransformDirty>(false), v);
                    proof {
                        assert(self.world.view()[entity].contains_key(t));
                        assert(self.world.view().dom() =~= w0.view().dom());
                        assert(self.world.view()[entity].remove(t) =~= w0.view()[entity].remove(t));
                        assert(Scene::marked(old(self).world_spec(), self.world, entity, t));
                    }
                },
            }
        } else {
            assert(Scene::marked(old(self).world_spec(), self.world, entity, t));
        }
        Ok(())
    }
}


impl Scene {
    /// What setting a game object's transform of type `t` does: a live `e`
    /// holding one has it replaced by `nv`, and a live `e` is marked with
    /// `td`; nothing else changes.
    pub open spec fn transform_set(w0: World, w1: World, e: Entity, t: TypeId, td: TypeId, nv: ComponentValue) -> bool {
        &&& w1.view().dom() == w0.view().dom()
        &&& forall|x: Entity| x != e && #[trigger] w0.view().contains_key(x) ==> w1.view()[x] == w0.view()[x]
        &&& w0.view().contains_key(e) ==> {
            &&& w1.view()[e].contains_key(td)
            &&& t != td ==> w1.view()[e].remove(td) == (if w0.view()[e].contains_key(t) {
                w0.view()[e].insert(t, nv)
            } else {
                w0.view()[e]
            }).remove(td)
        }
    }

    /// Replaces a game object's local transform (of type `T`) when it has
    /// one, and marks the transform dirty.
    pub fn set_go_transform<T: 'static>(&mut self, entity: Entity, transform: T) -> (r: WorldResult<()>)
        requires
            old(self).wf(),
        ensures
            final(self).wf(),
            r is Ok,
            Scene::same_scene(*old(self), *final(self)),
            exists|t: TypeId, nv: ComponentValue|
                #[trigger] Scene::transform_set(old(self).world_spec(), final(self).world_spec(), entity, t,
                    old(self).world_spec().dirty_type(), nv),
    {
        let ghost w0 = self.world;
        match self.world.get_mut::<T>(entity) {
            Ok(Some(v)) => {
                *v = transform;
            },
            _ => {},
        }
        let ghost w1 = self.world;
        let _ = self.mark_transform_dirty(entity);
        proof {
            let (t, nv) = choose|t: TypeId, nv: ComponentValue| #[trigger] World::written_at(w0, w1, entity, t, nv);
            let td = w0.dirty_type();
            assert(w1.dirty_type() == td);
            if w0.view().contains_key(entity) {
                assert(w1.view().contains_key(entity));
                if t != td {
                    let base = if w0.view()[entity].contains_key(t) { w0.view()[entity].insert(t, nv) } else { w0.view()[entity] };
                    assert(w1.view()[entity] == base);
                    assert(self.world.view()[entity].remove(td) =~= base.remove(td));
                }
            }
            assert(w1.view().dom() == w0.view().dom()) by {
                if w0.view().contains_key(entity) {
                    if w0.view()[entity].contains_key(t) {
                        assert(w1.view().dom() =~= w0.view().dom());
                    }
                }
            }
            assert(Scene::transform_set(w0, self.world, entity, t, td, nv));
        }
        Ok(())
    }
}

impl Scene {
    // ── hierarchy ─────────────────────────────────────────────────────────

    /// From `w0` to `w1` only the value of type `t` of `e` changed, to `nv`;
    /// every other entity and component is kept.
    pub open spec fn one_write(w0: World, w1: World, e: Entity, t: TypeId, nv: ComponentValue) -> bool {
        &&& w0.view().contains_key(e)
        &&& w1.view() == w0.view().insert(e, w0.view()[e].insert(t, nv))
        &&& w1.parent_type() == w0.parent_type()
        &&& w1.children_type() == w0.children_type()
    }

    /// The parent edge of an entity.
    fn parent_of(&self, entity: Entity) -> (r: Option<Entity>)
        requires
            self.wf(),
        ensures
            r == parent_link(self.world_spec(), entity),
    {
        super::hierarchy::parent_of(&self.world, entity)
    }

    /// Gives a live entity a root `Parent` edge unless it has one.
    fn ensure_parent_component(&mut self, entity: Entity)
        requires
            old(self).wf(),
            old(self).world_spec().view().contains_key(entity),
        ensures
            final(self).wf(),
            Scene::same_scene(*old(self), *final(self)),
            final(self).world_spec().view()[entity].contains_key(final(self).world_spec().parent_type()),
            final(self).world_spec().parent_type() == old(self).world_spec().parent_type(),
            final(self).world_spec().children_type() == old(self).world_spec().children_type(),
            old(self).world_spec().view()[entity].contains_key(old(self).world_spec().parent_type())
                ==> final(self).world_spec().view() == old(self).world_spec().view(),
            !old(self).world_spec().view()[entity].contains_key(old(self).world_spec().parent_type())
                ==> Scene::one_write(old(self).world_spec(), final(self).world_spec(), entity,
                    old(self).world_spec().parent_type(), ComponentValue::Parent(Parent { parent: None })),
            World::frame_kept(old(self).world_spec(), final(self).world_spec()),
    {
        let pt = self.world.parent_type_id();
        match self.world.contains_id(entity, &pt) {
            Ok(true) => {},
            _ => {
                let _ = self.world.add_value(entity, pt, ComponentDescriptor::of::<Parent>(false), ComponentValue::Parent(Parent { parent: None }));
            },
        }
    }

    /// Gives a live entity an empty `Children` edge unless it has one.
    fn ensure_children_component(&mut self, entity: Entity)
        requires
            old(self).wf(),
            old(self).world_spec().view().contains_key(entity),
        ensures
            final(self).wf(),
            Scene::same_scene(*old(self), *final(self)),
            final(self).world_spec().view()[entity].contains_key(final(self).world_spec().children_type()),
            final(self).world_spec().parent_type() == old(self).world_spec().parent_type(),
            final(self).world_spec().children_type() == old(self).world_spec().children_type(),
            final(self).world_spec().view() == old(self).world_spec().view()
                || exists|nv: ComponentValue| #[trigger] Scene::one_write(old(self).world_spec(), final(self).world_spec(), entity,
                    old(self).world_spec().children_type(), nv),
            children_link(final(self).world_spec(), entity) == children_link(old(self).world_spec(), entity),
            World::frame_kept(old(self).world_spec(), final(self).world_spec()),
    {
        let ct = self.world.children_type_id();
        match self.world.contains_id(entity, &ct) {
            Ok(true) => {},
            _ => {
                let ghost w0 = self.world;
                let nv = ComponentValue::Children(Children { children: Vec::new() });
                let ghost nvg = nv;
                let _ = self.world.add_value(entity, ct, ComponentDescriptor::of::<Children>(false), nv);
                proof {
                    assert(Scene::one_write(w0, self.world, entity, ct, nvg));
                    assert(children_link(self.world, entity) =~= Seq::<Entity>::empty());
                }
            },
        }
    }

    /// Sets the parent edge of a live entity that has one.
    fn set_parent_field(&mut self, child: Entity, parent: Option<Entity>)
        requires
            old(self).wf(),
            old(self).world_spec().view().contains_key(child),
            old(self).world_spec().view()[child].contains_key(old(self).world_spec().parent_type()),
        ensures
            final(self).wf(),
            Scene::same_scene(*old(self), *final(self)),
            Scene::one_write(old(self).world_spec(), final(self).world_spec(), child,
                old(self).world_spec().parent_type(), ComponentValue::Parent(Parent { parent })),
            World::frame_kept(old(self).world_spec(), final(self).world_spec()),
    {
        let pt = self.world.parent_type_id();
        let v = self.world.value_mut(child, &pt);
        *v = ComponentValue::Parent(Parent { parent });
    }

    /// Adds `child` to the children edge of a live entity that has one.
    fn push_child(&mut self, parent: Entity, child: Entity)
        requires
            old(self).wf(),
            old(self).world_spec().view().contains_key(parent),
            old(self).world_spec().view()[parent].contains_key(old(self).world_spec().children_type()),
        ensures
            final(self).wf(),
            Scene::same_scene(*old(self), *final(self)),
            exists|nv: ComponentValue| #[trigger] Scene::one_write(old(self).world_spec(), final(self).world_spec(), parent,
                old(self).world_spec().children_type(), nv),
            children_link(final(self).world_spec(), parent) == with_child(children_link(old(self).world_spec(), parent), child),
            World::frame_kept(old(self).world_spec(), final(self).world_spec()),
    {
        let ct = self.world.children_type_id();
        let ghost w0 = self.world;
        let v = self.world.value_mut(parent, &ct);
        let ghost v0 = *v;
        match v {
            ComponentValue::Children(c) => {
                if !holds_entity(&c.children, child) {
                    c.children.push(child);
                }
            },
            _ => {
                *v = ComponentValue::Children(Children { children: vec![child] });
            },
        }
        proof {
            let nv = self.world.view()[parent][ct];
            assert(Scene::one_write(w0, self.world, parent, ct, nv));
            assert(Scene::one_write(old(self).world_spec(), self.world_spec(), parent, old(self).world_spec().children_type(), nv));
        }
    }

    /// Removes `child` from a live entity's children edge (no-op otherwise).
    fn remove_child_from_parent(&mut self, parent: Entity, child: Entity)
        requires
            old(self).wf(),
        ensures
            final(self).wf(),
            Scene::same_scene(*old(self), *final(self)),
            final(self).world_spec().view() == old(self).world_spec().view()
                || exists|nv: ComponentValue| #[trigger] Scene::one_write(old(self).world_spec(), final(self).world_spec(), parent,
                    old(self).world_spec().children_type(), nv),
            final(self).world_spec().parent_type() == old(self).world_spec().parent_type(),
            final(self).world_spec().children_type() == old(self).world_spec().children_type(),
            children_link(final(self).world_spec(), parent) == without(children_link(old(self).world_spec(), parent), child),
            final(self).world_spec().view() != old(self).world_spec().view() ==> old(self).world_spec().view().contains_key(parent)
                && old(self).world_spec().view()[parent].contains_key(old(self).world_spec().children_type()),
            final(self).world_spec().registered() == old(self).world_spec().registered(),
            final(self).world_spec().descriptors() == old(self).world_spec().descriptors(),
            final(self).world_spec().events() == old(self).world_spec().events(),
            World::frame_kept(old(self).world_spec(), final(self).world_spec()),
    {
        let ct = self.world.children_type_id();
        let ghost w0 = self.world;
        proof {
            if !(w0.view().contains_key(parent) && w0.view()[parent].contains_key(ct)) {
                assert(without(Seq::<Entity>::empty(), child) == Seq::<Entity>::empty());
            }
        }
        match self.world.contains_id(parent, &ct) {
            Ok(true) => {
                let v = self.world.value_mut(parent, &ct);
                match v {
                    ComponentValue::Children(c) => {
                        let kept = entities_without(&c.children, child);
                        c.children = kept;
                    },
                    _ => {
                        proof {
                            assert(without(Seq::<Entity>::empty(), child) == Seq::<Entity>::empty());
                        }
                    },
                }
                proof {
                    let nv = self.world.view()[parent][ct];
                    assert(Scene::one_write(w0, self.world, parent, ct, nv));
                }
            },
            _ => {},
        }
    }
}


impl Scene {
    /// The children edge of `x` after `c` is re-parented under `p`: `c`
    /// joins the new parent's children and leaves the old parent's.
    pub open spec fn new_children(w0: World, c: Entity, p: Option<Entity>, x: Entity) -> Seq<Entity> {
        if p == Some(x) {
            with_child(children_link(w0, x), c)
        } else if parent_link(w0, c) == Some(x) {
            without(children_link(w0, x), c)
        } else {
            children_link(w0, x)
        }
    }

    /// From `w0` to `w1` the live entity `c` moved under `p` with both edge
    /// sides updated; no other edge and no entity's liveness changed.
    pub open spec fn reparented(w0: World, w1: World, c: Entity, p: Option<Entity>) -> bool {
        &&& w1.view().dom() == w0.view().dom()
        &&& parent_link(w1, c) == p
        &&& forall|x: Entity| x != c ==> #[trigger] parent_link(w1, x) == parent_link(w0, x)
        &&& forall|x: Entity| #[trigger] children_link(w1, x) == Scene::new_children(w0, c, p, x)
    }

    /// What `set_parent(c, p)` answers and does.
    pub open spec fn parent_outcome(w0: World, w1: World, c: Entity, p: Option<Entity>, r: Result<(), HierarchyError>) -> bool {
        let stale = !w0.view().contains_key(c) || (p matches Some(q) && !w0.view().contains_key(q));
        let cycle = !stale && (p matches Some(q) && on_chain(w0, c, q));
        &&& w1.parent_type() == w0.parent_type() && w1.children_type() == w0.children_type()
        &&& edges_only(w0, w1)
        &&& stale ==> r == Err::<(), HierarchyError>(HierarchyError::StaleEntity) && w1.view() == w0.view()
        &&& cycle ==> r == Err::<(), HierarchyError>(HierarchyError::Cycle) && w1.view() == w0.view()
        &&& !stale && !cycle ==> r is Ok && Scene::reparented(w0, w1, c, p)
    }

    /// Moving `c` under `p`, where `c` is not on `p`'s chain, or making it a
    /// root, keeps the hierarchy free of cycles.
    pub proof fn lemma_reparent_keeps_acyclic(w0: World, w1: World, c: Entity, p: Option<Entity>)
        requires
            acyclic(w0),
            Scene::reparented(w0, w1, c, p),
            p matches Some(q) ==> !on_chain(w0, c, q),
        ensures
            acyclic(w1),
    {
        // The new parent's chain is the same as before and never meets `c`.
        assert forall|j: nat| p is Some implies #[trigger] nth_ancestor(w1, p->Some_0, j) != Some(c) by {
            if p is Some {
                let q = p->Some_0;
                assert forall|i: nat| #[trigger] nth_ancestor(w0, q, i) != Some(c) by {
                    if nth_ancestor(w0, q, i) == Some(c) {
                        assert(on_chain(w0, c, q));
                    }
                }
                lemma_chain_agree(w0, w1, c, q, j);
            }
        }
        assert forall|e: Entity, k: nat| k > 0 implies #[trigger] nth_ancestor(w1, e, k) != Some(e) by {
            if nth_ancestor(w1, e, k) == Some(e) {
                if exists|j: nat| j < k && #[trigger] nth_ancestor(w0, e, j) == Some(c) {
                    let j0 = choose|j: nat| j < k && #[trigger] nth_ancestor(w0, e, j) == Some(c);
                    lemma_chain_hit(w0, w1, c, e, j0);
                    let j = choose|j: nat| j <= j0 && #[trigger] nth_ancestor(w1, e, j) == Some(c);
                    // Around the loop from `c` back to `c`: `k` steps.
                    lemma_chain_shift(w1, e, j, (k - j) as nat);
                    assert(j + (k - j) as nat == k);
                    assert(nth_ancestor(w1, c, (k - j) as nat) == Some(e));
                    lemma_chain_shift(w1, c, (k - j) as nat, j);
                    assert((k - j) as nat + j == k);
                    assert(nth_ancestor(w1, c, k) == Some(c));
                    assert(nth_ancestor(w1, c, 0) == Some(c));
                    assert(nth_ancestor(w1, c, 1) == parent_link(w1, c));
                    if p is Some {
                        lemma_chain_shift(w1, c, 1, (k - 1) as nat);
                        assert(1 + (k - 1) as nat == k);
                        assert(nth_ancestor(w1, p->Some_0, (k - 1) as nat) != Some(c));
                    } else {
                        lemma_chain_ends(w1, c, 1, k);
                    }
                } else {
                    lemma_chain_agree(w0, w1, c, e, k);
                    assert(nth_ancestor(w0, e, k) != Some(e));
                }
            }
        }
    }

    /// `set_parent` keeps an acyclic hierarchy acyclic, whatever it answers.
    pub proof fn lemma_set_parent_keeps_acyclic(w0: World, w1: World, c: Entity, p: Option<Entity>, r: Result<(), HierarchyError>)
        requires
            acyclic(w0),
            Scene::parent_outcome(w0, w1, c, p, r),
        ensures
            acyclic(w1),
    {
        if r is Ok {
            Scene::lemma_reparent_keeps_acyclic(w0, w1, c, p);
        } else {
            assert forall|e: Entity, k: nat| k > 0 implies #[trigger] nth_ancestor(w1, e, k) != Some(e) by {
                lemma_chain_same(w0, w1, e, k);
                assert(nth_ancestor(w0, e, k) != Some(e));
            }
        }
    }

    /// Moving a live `c` under a live `p` (or making it a root) with both
    /// edge sides updated keeps a consistent hierarchy consistent; `detach`
    /// is the root case.
    pub proof fn lemma_reparent_keeps_consistent(w0: World, w1: World, c: Entity, p: Option<Entity>)
        requires
            consistent(w0),
            Scene::reparented(w0, w1, c, p),
            w0.view().contains_key(c),
            p matches Some(q) ==> w0.view().contains_key(q),
        ensures
            consistent(w1),
    {
        assert forall|x: Entity| #[trigger] parent_link(w1, x) is Some implies
            w1.view().contains_key(parent_link(w1, x)->Some_0) && children_link(w1, parent_link(w1, x)->Some_0).contains(x) by {
            let q = parent_link(w1, x)->Some_0;
            lemma_with_child_contains(children_link(w0, q), c, x);
            lemma_without_contains(children_link(w0, q), c, x);
            if x != c {
                assert(parent_link(w0, x) == Some(q));
            }
        }
        assert forall|q: Entity, y: Entity| #[trigger] children_link(w1, q).contains(y) implies
            w1.view().contains_key(y) && parent_link(w1, y) == Some(q) by {
            lemma_with_child_contains(children_link(w0, q), c, y);
            lemma_without_contains(children_link(w0, q), c, y);
            if children_link(w0, q).contains(y) {
                assert(parent_link(w0, y) == Some(q));
            }
        }
    }

    /// `set_parent` keeps a consistent hierarchy consistent, whatever it
    /// answers: both sides of every edge still agree.
    pub proof fn lemma_set_parent_keeps_consistent(w0: World, w1: World, c: Entity, p: Option<Entity>, r: Result<(), HierarchyError>)
        requires
            consistent(w0),
            Scene::parent_outcome(w0, w1, c, p, r),
        ensures
            consistent(w1),
    {
        if r is Ok {
            Scene::lemma_reparent_keeps_consistent(w0, w1, c, p);
        } else {
            assert forall|x: Entity| #[trigger] parent_link(w1, x) == parent_link(w0, x) by {}
            assert forall|x: Entity| #[trigger] children_link(w1, x) == children_link(w0, x) by {}
        }
    }

    /// Destroying a subtree keeps a consistent hierarchy consistent: no
    /// survivor names a destroyed parent, and no list keeps a destroyed
    /// child.
    pub proof fn lemma_destroy_keeps_consistent(w0: World, w1: World, root: Entity, s: Seq<Entity>)
        requires
            w0.wf(),
            consistent(w0),
            Scene::subtree(w0, root, s),
            Scene::pruned_away(w0, w1, Scene::listed_from(s, 0)),
        ensures
            consistent(w1),
    {
        let gone = Scene::listed_from(s, 0);
        let pt = w0.parent_type();
        let ct = w0.children_type();
        w0.lemma_edge_types_differ();
        assert forall|y: Entity| #[trigger] gone.contains(y) <==> s.contains(y) by {
            if s.contains(y) {
                let k = choose|k: int| 0 <= k < s.len() && s[k] == y;
            }
        }
        assert forall|x: Entity| w1.view().contains_key(x) implies #[trigger] parent_link(w1, x) == parent_link(w0, x) by {
            assert(w1.view()[x].remove(ct).contains_key(pt) == w0.view()[x].remove(ct).contains_key(pt));
            if w0.view()[x].contains_key(pt) {
                assert(w1.view()[x].remove(ct)[pt] == w0.view()[x].remove(ct)[pt]);
            }
        }
        assert forall|x: Entity| #[trigger] parent_link(w1, x) is Some implies
            w1.view().contains_key(parent_link(w1, x)->Some_0) && children_link(w1, parent_link(w1, x)->Some_0).contains(x) by {
            let q = parent_link(w1, x)->Some_0;
            assert(parent_link(w0, x) == Some(q));
            assert(children_link(w0, q).contains(x));
            if gone.contains(q) {
                assert(s.contains(x));
            }
            lemma_pruned_contains(w0, gone, q, children_link(w0, q), x);
        }
        assert forall|q: Entity, y: Entity| #[trigger] children_link(w1, q).contains(y) implies
            w1.view().contains_key(y) && parent_link(w1, y) == Some(q) by {
            lemma_pruned_contains(w0, gone, q, children_link(w0, q), y);
            assert(parent_link(w0, y) == Some(q));
        }
    }

    /// Destroying a subtree keeps an acyclic hierarchy acyclic.
    pub proof fn lemma_destroy_keeps_acyclic(w0: World, w1: World, gone: Set<Entity>)
        requires
            w0.wf(),
            acyclic(w0),
            Scene::pruned_away(w0, w1, gone),
        ensures
            acyclic(w1),
    {
        let pt = w0.parent_type();
        let ct = w0.children_type();
        w0.lemma_edge_types_differ();
        assert forall|x: Entity| #[trigger] parent_link(w1, x) is Some implies parent_link(w1, x) == parent_link(w0, x) by {
            assert(w1.view()[x].remove(ct).contains_key(pt) == w0.view()[x].remove(ct).contains_key(pt));
            if w0.view()[x].contains_key(pt) {
                assert(w1.view()[x].remove(ct)[pt] == w0.view()[x].remove(ct)[pt]);
            }
        }
        assert forall|e: Entity, k: nat| k > 0 implies #[trigger] nth_ancestor(w1, e, k) != Some(e) by {
            if nth_ancestor(w1, e, k) == Some(e) {
                lemma_chain_survives(w0, w1, e, k);
                assert(nth_ancestor(w0, e, k) != Some(e));
            }
        }
    }

    proof fn lemma_one_write_links(w0: World, w1: World, e: Entity, t: TypeId, nv: ComponentValue)
        requires
            w0.wf(),
            Scene::one_write(w0, w1, e, t, nv),
        ensures
            w1.view().dom() == w0.view().dom(),
            forall|x: Entity| x != e ==> #[trigger] parent_link(w1, x) == parent_link(w0, x),
            forall|x: Entity| x != e ==> #[trigger] children_link(w1, x) == children_link(w0, x),
            t != w0.parent_type() ==> parent_link(w1, e) == parent_link(w0, e),
            t != w0.children_type() ==> children_link(w1, e) == children_link(w0, e),
    {
        w0.lemma_edge_types_differ();
        assert(w1.view().dom() =~= w0.view().dom());
    }

    /// Sets (or clears) `child`'s parent. Maintains bidirectional consistency
    /// eagerly: the child leaves its old parent's `Children` and joins the new
    /// parent's, and a parent that would form a cycle is rejected.
    pub fn set_parent(&mut self, child: Entity, parent: Option<Entity>) -> (r: Result<(), HierarchyError>)
        requires
            old(self).wf(),
        ensures
            final(self).wf(),
            Scene::same_scene(*old(self), *final(self)),
            Scene::parent_outcome(old(self).world_spec(), final(self).world_spec(), child, parent, r),
    {
        if !self.world.contains_entity(child) {
            return Err(HierarchyError::StaleEntity);
        }
        match parent {
            Some(p) => {
                if !self.world.contains_entity(p) {
                    return Err(HierarchyError::StaleEntity);
                }
                if p == child {
                    proof { assert(super::hierarchy::nth_ancestor(self.world, p, 0) == Some(child)); }
                    return Err(HierarchyError::Cycle);
                }
                if would_cycle(&self.world, child, p) {
                    return Err(HierarchyError::Cycle);
                }
            },
            None => {},
        }
        let ghost w0 = self.world;
        self.ensure_parent_component(child);
        let ghost w1 = self.world;
        proof {
            lemma_edges_only_refl(w0);
            lemma_edge_step(w0, w0, w1, child, w0.parent_type());
            w0.lemma_edge_types_differ();
            if w1.view() != w0.view() {
                Scene::lemma_one_write_links(w0, w1, child, w0.parent_type(), ComponentValue::Parent(Parent { parent: None }));
            }
        }
        let old_parent = self.parent_of(child);
        match old_parent {
            Some(o) => {
                let differs = match parent {
                    Some(p) => p != o,
                    None => true,
                };
                if differs {
                    self.remove_child_from_parent(o, child);
                }
            },
            None => {},
        }
        let ghost w2 = self.world;
        proof {
            if w2.view() != w1.view() {
                let nv = choose|nv: ComponentValue| #[trigger] Scene::one_write(w1, w2, old_parent->Some_0, w1.children_type(), nv);
                Scene::lemma_one_write_links(w1, w2, old_parent->Some_0, w1.children_type(), nv);
                lemma_edge_step(w0, w1, w2, old_parent->Some_0, w1.children_type());
            } else {
                assert(w2.view() == w1.view());
                lemma_edge_step(w0, w1, w2, child, w1.children_type());
            }
        }
        self.set_parent_field(child, parent);
        let ghost w3 = self.world;
        proof {
            Scene::lemma_one_write_links(w2, w3, child, w2.parent_type(), ComponentValue::Parent(Parent { parent }));
            lemma_edge_step(w0, w2, w3, child, w2.parent_type());
        }
        match parent {
            Some(p) => {
                self.ensure_children_component(p);
                let ghost w4 = self.world;
                proof {
                    if w4.view() != w3.view() {
                        let nv = choose|nv: ComponentValue| #[trigger] Scene::one_write(w3, w4, p, w3.children_type(), nv);
                        Scene::lemma_one_write_links(w3, w4, p, w3.children_type(), nv);
                    }
                    lemma_edge_step(w0, w3, w4, p, w3.children_type());
                }
                self.push_child(p, child);
                proof {
                    let nv = choose|nv: ComponentValue| #[trigger] Scene::one_write(w4, self.world, p, w4.children_type(), nv);
                    Scene::lemma_one_write_links(w4, self.world, p, w4.children_type(), nv);
                    lemma_edge_step(w0, w4, self.world, p, w4.children_type());
                }
            },
            None => {},
        }
        proof {
            let w5 = self.world;
            assert forall|x: Entity| #[trigger] children_link(w5, x) == Scene::new_children(w0, child, parent, x) by {
                assert(children_link(w1, x) == children_link(w0, x));
            }
            assert(Scene::reparented(w0, w5, child, parent));
        }
        Ok(())
    }

    /// Detaches `entity` (and its subtree, which is preserved) to root: its
    /// `Parent` becomes `None` and it is removed from the old parent's
    /// `Children`. Idempotent for stale handles.
    pub fn detach(&mut self, entity: Entity) -> (r: WorldResult<()>)
        requires
            old(self).wf(),
        ensures
            final(self).wf(),
            r is Ok,
            Scene::same_scene(*old(self), *final(self)),
            !old(self).world_spec().view().contains_key(entity) ==> final(self).world_spec().view() == old(self).world_spec().view(),
            old(self).world_spec().view().contains_key(entity) ==> Scene::reparented(old(self).world_spec(), final(self).world_spec(), entity, None),
    {
        if !self.world.contains_entity(entity) {
            return Ok(());
        }
        let ghost w0 = self.world;
        proof { w0.lemma_edge_types_differ(); }
        let old_parent = self.parent_of(entity);
        match old_parent {
            Some(o) => {
                self.remove_child_from_parent(o, entity);
            },
            None => {},
        }
        let ghost w1 = self.world;
        proof {
            if w1.view() != w0.view() {
                let nv = choose|nv: ComponentValue| #[trigger] Scene::one_write(w0, w1, old_parent->Some_0, w0.children_type(), nv);
                Scene::lemma_one_write_links(w0, w1, old_parent->Some_0, w0.children_type(), nv);
            }
        }
        let pt = self.world.parent_type_id();
        match self.world.contains_id(entity, &pt) {
            Ok(true) => {
                self.set_parent_field(entity, None);
                proof {
                    Scene::lemma_one_write_links(w1, self.world, entity, pt, ComponentValue::Parent(Parent { parent: None }));
                }
            },
            _ => {},
        }
        proof {
            let w2 = self.world;
            assert forall|x: Entity| #[trigger] children_link(w2, x) == Scene::new_children(w0, entity, None, x) by {}
            assert(Scene::reparented(w0, w2, entity, None));
        }
        Ok(())
    }
}


impl Scene {
    /// `s` lists the subtree under `root`: once each, exactly the live
    /// entities reachable from `root` through children edges.
    pub open spec fn subtree(w: World, root: Entity, s: Seq<Entity>) -> bool {
        reachable_listing(w, set![root], s)
    }

    /// Depth-first collection of the subtree rooted at `entity` (pre-order),
    /// each entity exactly once, tolerant of malformed cycles.
    fn collect_subtree(&self, entity: Entity) -> (out: Vec<Entity>)
        requires
            self.wf(),
        ensures
            Scene::subtree(self.world_spec(), entity, out@),
    {
        let roots = vec![entity];
        assert(roots@.to_set() =~= set![entity]) by {
            assert(roots@[0] == entity);
        }
        collect_reachable(&self.world, &roots)
    }
}


/// The entries of `l`, the children list of `x`, that stay after the
/// entities of `gone` naming `x` as their parent (in `w0`) are destroyed.
pub open spec fn pruned(w0: World, gone: Set<Entity>, x: Entity, l: Seq<Entity>) -> Seq<Entity>
    decreases l.len(),
{
    if l.len() == 0 {
        l
    } else if gone.contains(l.last()) && parent_link(w0, l.last()) == Some(x) {
        pruned(w0, gone, x, l.drop_last())
    } else {
        pruned(w0, gone, x, l.drop_last()).push(l.last())
    }
}

/// Pruning nothing keeps the list.
proof fn lemma_pruned_none(w0: World, x: Entity, l: Seq<Entity>)
    ensures
        pruned(w0, Set::<Entity>::empty(), x, l) == l,
    decreases l.len(),
{
    if l.len() > 0 {
        lemma_pruned_none(w0, x, l.drop_last());
        assert(l.drop_last().push(l.last()) =~= l);
    }
}

/// Destroying one more entity `e` removes it from its parent's list only.
proof fn lemma_pruned_insert(w0: World, gone: Set<Entity>, x: Entity, l: Seq<Entity>, e: Entity)
    ensures
        pruned(w0, gone.insert(e), x, l) == if parent_link(w0, e) == Some(x) {
            without(pruned(w0, gone, x, l), e)
        } else {
            pruned(w0, gone, x, l)
        },
    decreases l.len(),
{
    if l.len() > 0 {
        let d = l.drop_last();
        let z = l.last();
        lemma_pruned_insert(w0, gone, x, d, e);
        if parent_link(w0, e) == Some(x) {
            let po = pruned(w0, gone, x, d);
            if gone.contains(z) && parent_link(w0, z) == Some(x) {
            } else if z == e {
                assert(po.push(e).drop_last() =~= po);
            } else {
                assert(po.push(z).drop_last() =~= po);
            }
        }
    }
}

/// What a pruned list holds.
proof fn lemma_pruned_contains(w0: World, gone: Set<Entity>, x: Entity, l: Seq<Entity>, y: Entity)
    ensures
        pruned(w0, gone, x, l).contains(y) <==> l.contains(y) && !(gone.contains(y) && parent_link(w0, y) == Some(x)),
    decreases l.len(),
{
    if l.len() > 0 {
        let d = l.drop_last();
        let z = l.last();
        lemma_pruned_contains(w0, gone, x, d, y);
        assert(l.contains(y) <==> d.contains(y) || y == z) by {
            if l.contains(y) && y != z {
                let i = choose|i: int| 0 <= i < l.len() && l[i] == y;
                assert(d[i] == y);
            }
            if d.contains(y) {
                let i = choose|i: int| 0 <= i < d.len() && d[i] == y;
                assert(l[i] == y);
            }
            if y == z {
                assert(l[l.len() - 1] == y);
            }
        }
        let pd = pruned(w0, gone, x, d);
        assert(pd.push(z).contains(y) <==> pd.contains(y) || y == z) by {
            if pd.push(z).contains(y) && y != z {
                let i = choose|i: int| 0 <= i < pd.len() + 1 && pd.push(z)[i] == y;
                assert(pd[i] == y);
            }
            if pd.contains(y) {
                let i = choose|i: int| 0 <= i < pd.len() && pd[i] == y;
                assert(pd.push(z)[i] == y);
            }
            if y == z {
                assert(pd.push(z)[pd.len() as int] == y);
            }
        }
    }
}

impl Scene {
    /// The entities of `s` from position `i` on.
    pub open spec fn listed_from(s: Seq<Entity>, i: int) -> Set<Entity> {
        Set::new(|x: Entity| exists|k: int| i <= k < s.len() && s[k] == x)
    }

    /// From `w0` to `w1` the entities of `gone` were destroyed, each taken
    /// off its parent's children list; every other entity and component is
    /// kept.
    pub open spec fn pruned_away(w0: World, w1: World, gone: Set<Entity>) -> bool {
        let ct = w0.children_type();
        &&& w1.view().dom() == w0.view().dom().difference(gone)
        &&& w1.parent_type() == w0.parent_type() && w1.children_type() == ct
        &&& forall|x: Entity| #[trigger] w1.view().contains_key(x) ==> {
            &&& w1.view()[x].remove(ct) == w0.view()[x].remove(ct)
            &&& w1.view()[x].contains_key(ct) == w0.view()[x].contains_key(ct)
            &&& children_link(w1, x) == pruned(w0, gone, x, children_link(w0, x))
        }
    }

    /// The `on_remove` records of destroying `s[i]`, ..., `s[len - 1]`, the
    /// last first, as `w` knows their components.
    pub open spec fn subtree_removal_events(w: World, s: Seq<Entity>, i: int) -> Seq<HookEvent>
        decreases s.len() - i,
    {
        if i < 0 || i >= s.len() {
            Seq::empty()
        } else {
            Scene::subtree_removal_events(w, s, i + 1) + w.destroy_events(s[i])
        }
    }

    /// Destroys the whole subtree rooted at `entity` (default cascade),
    /// each entity exactly once, leaves first. A game object is removed from
    /// its parent's `Children` before it is destroyed. The ECS-level
    /// `World::destroy` keeps its single-entity semantics.
    pub fn destroy(&mut self, entity: Entity) -> (r: WorldResult<()>)
        requires
            old(self).wf(),
        ensures
            final(self).wf(),
            r is Ok,
            Scene::same_scene(*old(self), *final(self)),
            exists|s: Seq<Entity>| {
                &&& #[trigger] Scene::subtree(old(self).world_spec(), entity, s)
                &&& Scene::pruned_away(old(self).world_spec(), final(self).world_spec(), Scene::listed_from(s, 0))
                &&& final(self).world_spec().events() == old(self).world_spec().events()
                    + Scene::subtree_removal_events(old(self).world_spec(), s, 0)
            },
            final(self).world_spec().registered() == old(self).world_spec().registered(),
            final(self).world_spec().descriptors() == old(self).world_spec().descriptors(),
            World::frame_kept(old(self).world_spec(), final(self).world_spec()),
    {
        let subtree = self.collect_subtree(entity);
        let ghost s0 = subtree@;
        let ghost w0 = self.world;
        let ghost ct = w0.children_type();
        let mut i: usize = subtree.len();
        proof {
            w0.lemma_edge_types_differ();
            assert(Scene::listed_from(s0, s0.len() as int) =~= Set::<Entity>::empty());
            assert(w0.view().dom().difference(Set::<Entity>::empty()) =~= w0.view().dom());
            assert forall|x: Entity| #[trigger] w0.view().contains_key(x) implies
                children_link(w0, x) == pruned(w0, Set::<Entity>::empty(), x, children_link(w0, x)) by {
                lemma_pruned_none(w0, x, children_link(w0, x));
            }
        }
        while i > 0
            invariant
                self.wf(),
                Scene::same_scene(*old(self), *self),
                w0 == old(self).world_spec(),
                w0.wf(),
                ct == w0.children_type(),
                w0.parent_type() != ct,
                subtree@ == s0,
                Scene::subtree(w0, entity, s0),
                0 <= i <= s0.len(),
                Scene::pruned_away(w0, self.world, Scene::listed_from(s0, i as int)),
                self.world.events() == w0.events() + Scene::subtree_removal_events(w0, s0, i as int),
                self.world.registered() == w0.registered(),
                self.world.descriptors() == w0.descriptors(),
                World::frame_kept(w0, self.world),
            decreases i,
        {
            i = i - 1;
            let e = subtree[i];
            let ghost wa = self.world;
            let ghost gone0 = Scene::listed_from(s0, i as int + 1);
            proof {
                assert(w0.view().contains_key(e));
                assert(!gone0.contains(e)) by {
                    if gone0.contains(e) {
                        let k = choose|k: int| i + 1 <= k < s0.len() && s0[k] == e;
                        assert(s0[i as int] == e);
                    }
                }
                assert(wa.view().contains_key(e));
                assert(parent_link(wa, e) == parent_link(w0, e)) by {
                    assert(wa.view()[e].remove(ct).contains_key(w0.parent_type()) == w0.view()[e].remove(ct).contains_key(w0.parent_type()));
                    if w0.view()[e].contains_key(w0.parent_type()) {
                        assert(wa.view()[e].remove(ct)[w0.parent_type()] == w0.view()[e].remove(ct)[w0.parent_type()]);
                    }
                }
            }
            let parent = self.parent_of(e);
            match parent {
                Some(p) => {
                    self.remove_child_from_parent(p, e);
                },
                None => {},
            }
            let ghost wb = self.world;
            proof {
                if wb.view() != wa.view() {
                    let nv = choose|nv: ComponentValue| #[trigger] Scene::one_write(wa, wb, parent->Some_0, ct, nv);
                }
                assert(wb.view()[e].dom() =~= w0.view()[e].dom()) by {
                    assert(wa.view()[e].remove(ct) == w0.view()[e].remove(ct));
                    assert forall|t: TypeId| #[trigger] wa.view()[e].dom().contains(t) == w0.view()[e].dom().contains(t) by {
                        if t != ct {
                            assert(wa.view()[e].remove(ct).contains_key(t) == wa.view()[e].contains_key(t));
                            assert(w0.view()[e].remove(ct).contains_key(t) == w0.view()[e].contains_key(t));
                        }
                    }
                    assert(wa.view()[e].dom() =~= w0.view()[e].dom());
                    if wb.view() != wa.view() {
                        let q = parent->Some_0;
                        let nv = choose|nv: ComponentValue| #[trigger] Scene::one_write(wa, wb, q, ct, nv);
                        if q == e {
                            assert(wb.view()[e].dom() =~= wa.view()[e].dom());
                        }
                    }
                }
                World::lemma_types_of_same(wb, w0, e);
            }
            let _ = self.world.destroy(e);
            proof {
                assert(self.world.events() == w0.events() + Scene::subtree_removal_events(w0, s0, i as int)) by {
                    assert(wb.view().contains_key(e));
                    assert(wb.destroy_events(e) == w0.destroy_events(e));
                    assert(Scene::subtree_removal_events(w0, s0, i as int)
                        == Scene::subtree_removal_events(w0, s0, i as int + 1) + w0.destroy_events(e));
                    assert(self.world.events() =~= w0.events() + Scene::subtree_removal_events(w0, s0, i as int));
                }
                let gone1 = Scene::listed_from(s0, i as int);
                assert(gone1 =~= gone0.insert(e)) by {
                    assert forall|x: Entity| #[trigger] gone1.contains(x) == (gone0.contains(x) || x == e) by {
                        if x == e { assert(s0[i as int] == e); }
                        if gone1.contains(x) && x != e {
                            let k = choose|k: int| i <= k < s0.len() && s0[k] == x;
                            assert(k != i);
                        }
                        if gone0.contains(x) {
                            let k = choose|k: int| i + 1 <= k < s0.len() && s0[k] == x;
                        }
                    }
                }
                let w1 = self.world;
                assert(w1.view().dom() =~= w0.view().dom().difference(gone1));
                assert forall|x: Entity| #[trigger] w1.view().contains_key(x) implies {
                    &&& w1.view()[x].remove(ct) == w0.view()[x].remove(ct)
                    &&& w1.view()[x].contains_key(ct) == w0.view()[x].contains_key(ct)
                    &&& children_link(w1, x) == pruned(w0, gone1, x, children_link(w0, x))
                } by {
                    assert(wa.view().contains_key(x));
                    assert(x != e);
                    assert(w1.view()[x] == wb.view()[x]);
                    assert(children_link(w1, x) == children_link(wb, x));
                    lemma_pruned_insert(w0, gone0, x, children_link(w0, x), e);
                    if wb.view() == wa.view() {
                        assert(children_link(wb, x) == children_link(wa, x));
                    } else {
                        let q = parent->Some_0;
                        let nv = choose|nv: ComponentValue| #[trigger] Scene::one_write(wa, wb, q, ct, nv);
                        if x == q {
                            assert(wb.view()[x].remove(ct) =~= wa.view()[x].remove(ct));
                        } else {
                            assert(wb.view()[x] == wa.view()[x]);
                            assert(children_link(wb, x) == children_link(wa, x));
                        }
                    }
                }
            }
        }
        proof {
            assert(Scene::subtree(old(self).world_spec(), entity, s0));
        }
        Ok(())
    }
}


impl Scene {
    // ── wrapper (GoHandle) ────────────────────────────────────────────────

    /// Builds a `GoHandle` for an entity, caching its current location
    /// (or `None` when the entity is not live).
    pub fn go_handle(&self, entity: Entity) -> (h: GoHandle)
        requires
            self.wf(),
        ensures
            h.entity_spec() == entity,
            h.loc_spec() is Some <==> self.world_spec().view().contains_key(entity),
            h.loc_spec() matches Some(l) ==> {
                &&& l.arch == self.world_spec().location(entity).0
                &&& l.row == self.world_spec().location(entity).1 as u32
                &&& l.generation == entity.gen()
            },
    {
        let loc = match self.world.location_of(entity) {
            Some((arch, row)) => {
                let generation = match self.world.live_generation(entity) {
                    Some(g) => g,
                    None => 0,
                };
                Some(GoLoc { arch, row: row as u32, generation })
            },
            None => None,
        };
        GoHandle::new(entity, loc)
    }

    /// The trio of `e` (transform of type `tt`, `SceneRef` of type `ts`,
    /// `Parent`) is complete exactly when `complete` holds.
    pub open spec fn trio_complete(w: World, e: Entity, tt: TypeId, ts: TypeId, complete: bool) -> bool {
        complete == (w.view()[e].contains_key(tt) && w.view()[e].contains_key(ts) && w.view()[e].contains_key(w.parent_type()))
    }

    /// Validated access to a game object's component trio, whose local
    /// transform has type `T`.
    ///
    /// O(1) when the cached location is fresh (generation + position match);
    /// on a stale location it re-resolves. A destroyed entity answers
    /// `GoHandleStale`, a missing trio member `MissingComponent`.
    pub fn go_view<T: 'static>(&mut self, handle: GoHandle) -> (r: Result<GoView<'_>, GoHandleError>)
        requires
            old(self).wf(),
        ensures
            !old(self).world_spec().view().contains_key(handle.entity_spec()) ==> r matches Err(GoHandleError::GoHandleStale),
            old(self).world_spec().view().contains_key(handle.entity_spec()) ==> {
                &&& exists|tt: TypeId| #[trigger] Scene::trio_complete(old(self).world_spec(), handle.entity_spec(), tt,
                    old(self).world_spec().scene_ref_type(), r is Ok)
                &&& r matches Err(x) ==> x == GoHandleError::MissingComponent
            },
            r matches Ok(v) ==> {
                &&& v.world_spec() == old(self).world_spec()
                &&& v.position() == old(self).world_spec().location(handle.entity_spec())
                &&& v.entity_spec() == handle.entity_spec()
            },
    {
        let entity = handle.entity();
        if !self.world.contains_entity(entity) {
            return Err(GoHandleError::GoHandleStale);
        }
        let (arch, row) = match handle.loc() {
            Some(loc) => {
                let gen_ok = match self.world.live_generation(entity) {
                    Some(g) => g == loc.generation,
                    None => false,
                };
                let resolved = self.world.location_of(entity).unwrap();
                let pos_ok = resolved.0 == loc.arch && resolved.1 == loc.row as usize;
                if gen_ok && pos_ok {
                    (loc.arch, loc.row as usize)
                } else {
                    resolved
                }
            },
            None => self.world.location_of(entity).unwrap(),
        };
        let tt = type_id_of::<T>();
        let ts = self.world.scene_ref_type_id();
        let pt = self.world.parent_type_id();
        let complete = self.world.value_at(arch, row, &tt).is_some()
            && self.world.value_at(arch, row, &ts).is_some()
            && self.world.value_at(arch, row, &pt).is_some();
        proof {
            assert(Scene::trio_complete(self.world, entity, tt, ts, complete));
        }
        if !complete {
            let r = Err(GoHandleError::MissingComponent);
            assert(Scene::trio_complete(old(self).world_spec(), handle.entity_spec(), tt, ts, r is Ok));
            return r;
        }
        assert(Scene::trio_complete(old(self).world_spec(), handle.entity_spec(), tt, ts, true));
        let r = Ok(GoView::new(&mut self.world, arch, row, entity));
        assert(Scene::trio_complete(old(self).world_spec(), handle.entity_spec(), tt, ts, r is Ok));
        r
    }
}

} // verus!
