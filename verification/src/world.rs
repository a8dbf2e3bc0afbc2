//! The ECS world: entities, components, lifecycle, queries and resources.
use vstd::prelude::*;
use std::any::TypeId;

use crate::command::{Command, CommandQueue, Commands};
use crate::component::{ComponentHooks, HookEvent};
use crate::entity::Entity;
use crate::erased::{cast_mut, cast_ref, cast_value, edge_type_ids, same_type_id, type_id_of, ErasedBox};
use crate::error::WorldError;
use crate::go::hierarchy::{Children, Parent};
use crate::registry::{ComponentDescriptor, DropGlue, NATIVE_NAME};
use crate::storage::ComponentValue;
use crate::store::Store;

verus! {

/// Result alias for world operations.
pub type WorldResult<T> = Result<T, WorldError>;

/// The ECS world.
///
/// Owns the component registry, archetype storage, resources and the
/// deferred command queue.
pub struct World {
    store: Store,
    res_ids: Vec<TypeId>,
    res_vals: Vec<ErasedBox>,
    parent_tid: TypeId,
    children_tid: TypeId,
    dirty_tid: TypeId,
    scene_ref_tid: TypeId,
    queue: CommandQueue,
    /// The entities whose components the queries took out for their
    /// closures, in the order they were handed out.
    handed: Ghost<Seq<Entity>>,
}

/// Stores a value of type `T` (identity `tid`) as a component value:
/// hierarchy edges are kept in the clear, everything else erased.
fn encode<T: 'static>(tid: &TypeId, parent_tid: &TypeId, children_tid: &TypeId, v: T) -> (r: ComponentValue)
    ensures
        r is Parent ==> *tid == *parent_tid,
        r is Children ==> *tid == *children_tid && *tid != *parent_tid,
        *tid != *parent_tid && *tid != *children_tid ==> r is Other,
{
    let mut slot = Some(v);
    if same_type_id(tid, parent_tid) {
        match cast_value::<T, Parent>(&mut slot) {
            Some(p) => {
                return ComponentValue::Parent(p);
            },
            None => {},
        }
    } else if same_type_id(tid, children_tid) {
        match cast_value::<T, Children>(&mut slot) {
            Some(c) => {
                return ComponentValue::Children(c);
            },
            None => {},
        }
    }
    ComponentValue::Other(ErasedBox::new(slot.unwrap()))
}

/// A stored component value viewed as a `T`, if it is one.
pub fn decode_ref<T: 'static>(v: &ComponentValue) -> Option<&T> {
    match v {
        ComponentValue::Parent(p) => cast_ref::<Parent, T>(p),
        ComponentValue::Children(c) => cast_ref::<Children, T>(c),
        ComponentValue::Other(b) => b.downcast_ref::<T>(),
    }
}

/// A stored component value viewed mutably as a `T`, if it is one.
pub fn decode_mut<T: 'static>(v: &mut ComponentValue) -> Option<&mut T> {
    match v {
        ComponentValue::Parent(p) => cast_mut::<Parent, T>(p),
        ComponentValue::Children(c) => cast_mut::<Children, T>(c),
        ComponentValue::Other(b) => b.downcast_mut::<T>(),
    }
}

impl World {
    // ── model ────────────────────────────────────────────────────────────

    /// Live entities and their components, keyed by component type.
    pub closed spec fn view(&self) -> Map<Entity, Map<TypeId, ComponentValue>> {
        self.store.view()
    }

    /// Registered component types, in registration order.
    pub closed spec fn registered(&self) -> Seq<TypeId> {
        self.store.ids()
    }

    /// Registered descriptors, parallel to [`Self::registered`].
    pub closed spec fn descriptors(&self) -> Seq<ComponentDescriptor> {
        self.store.descs()
    }

    /// The hook event log.
    pub closed spec fn events(&self) -> Seq<HookEvent> {
        self.store.events()
    }

    /// The bound hook context.
    pub closed spec fn context(&self) -> Option<u64> {
        self.store.context()
    }

    /// Every entity handle ever handed out.
    pub closed spec fn issued(&self) -> Set<Entity> {
        self.store.issued()
    }

    /// The entities whose components queries have taken out for their
    /// closures so far, oldest first: each query appends the live entities
    /// holding all its types, in storage order.
    pub closed spec fn handed_out(&self) -> Seq<Entity> {
        self.handed@
    }

    /// Whether one more entity can be handed out.
    pub closed spec fn can_reserve(&self) -> bool {
        self.store.can_reserve()
    }

    /// The handle owns its slot (reserved or live).
    pub closed spec fn holds_slot(&self, e: Entity) -> bool {
        self.store.holds_slot(e)
    }

    /// Stored resources by type.
    pub closed spec fn resources(&self) -> Map<TypeId, ErasedBox> {
        Map::new(|t: TypeId| self.res_ids@.contains(t), |t: TypeId| self.res_vals@[self.res_ids@.index_of(t)])
    }

    /// The identity of [`Parent`].
    pub closed spec fn parent_type(&self) -> TypeId {
        self.parent_tid
    }

    /// The identity of [`Children`].
    pub closed spec fn children_type(&self) -> TypeId {
        self.children_tid
    }

    /// The type identity of the transform-dirty marker.
    pub closed spec fn dirty_type(&self) -> TypeId {
        self.dirty_tid
    }

    /// The type identity of a game object's scene back-reference.
    pub closed spec fn scene_ref_type(&self) -> TypeId {
        self.scene_ref_tid
    }

    /// Internal consistency.
    pub closed spec fn wf(&self) -> bool {
        &&& self.store.wf()
        &&& self.parent_tid != self.children_tid
        &&& self.dirty_tid != self.parent_tid
        &&& self.dirty_tid != self.children_tid
        &&& self.scene_ref_tid != self.parent_tid
        &&& self.scene_ref_tid != self.children_tid
        &&& self.scene_ref_tid != self.dirty_tid
        &&& self.res_ids@.no_duplicates()
        &&& self.res_ids@.len() == self.res_vals@.len()
        &&& forall|k: int| 0 <= k < self.queue.commands().len() ==> #[trigger] self.queue.commands()[k].wf()
    }

    /// The commands queued for the next flush, oldest first.
    pub closed spec fn pending(&self) -> Seq<Command> {
        self.queue.commands()
    }

    /// The store behind the world.
    pub closed spec fn store_spec(&self) -> Store {
        self.store
    }

    // ── construction ─────────────────────────────────────────────────────

    /// Creates an empty world.
    pub fn new() -> (w: Self)
        ensures
            w.wf(),
            w.view() == Map::<Entity, Map<TypeId, ComponentValue>>::empty(),
            w.registered() == Seq::<TypeId>::empty(),
            w.events() == Seq::<HookEvent>::empty(),
            w.context() is None,
            w.issued() == Set::<Entity>::empty(),
            w.resources() == Map::<TypeId, ErasedBox>::empty(),
            w.pending() == Seq::<Command>::empty(),
            w.can_reserve(),
            w.handed_out() == Seq::<Entity>::empty(),
    {
        let (pt, ct, dt, st) = edge_type_ids();
        let w = World {
            store: Store::new(),
            res_ids: Vec::new(),
            res_vals: Vec::new(),
            parent_tid: pt,
            children_tid: ct,
            dirty_tid: dt,
            scene_ref_tid: st,
            queue: CommandQueue::new(),
            handed: Ghost(Seq::empty()),
        };
        assert(w.resources() =~= Map::<TypeId, ErasedBox>::empty());
        w
    }

    /// Explicitly registers a component type. Duplicate registration errors
    /// and leaves the registry unchanged.
    pub fn register<T: 'static>(&mut self, scriptable: bool) -> (r: WorldResult<()>)
        requires
            old(self).wf(),
        ensures
            final(self).wf(),
            final(self).view() == old(self).view(),
            exists|t: TypeId| {
                &&& (r is Err <==> old(self).registered().contains(t))
                &&& r matches Err(err) ==> err is DuplicateRegistration
                &&& r is Err ==> final(self).registered() == old(self).registered() && final(self).descriptors() == old(self).descriptors()
                &&& r is Ok ==> final(self).registered() == old(self).registered().push(t)
                    && final(self).descriptors().last().scriptable == scriptable
                    && final(self).descriptors().last().hooks.is_none()
                    && final(self).descriptors().drop_last() == old(self).descriptors()
            },
            final(self).events() == old(self).events(),
            World::frame_kept(*old(self), *final(self)),
    {
        let t = type_id_of::<T>();
        self.register_type(t, NATIVE_NAME, ComponentDescriptor::of::<T>(scriptable))
    }

    /// Explicitly registers a component type together with lifecycle hooks.
    /// Duplicate registration errors and leaves the first registration (and
    /// its hooks) untouched.
    pub fn register_component_meta<T: 'static>(&mut self, hooks: ComponentHooks) -> (r: WorldResult<()>)
        requires
            old(self).wf(),
        ensures
            final(self).wf(),
            final(self).view() == old(self).view(),
            exists|t: TypeId| {
                &&& (r is Err <==> old(self).registered().contains(t))
                &&& r matches Err(err) ==> err is DuplicateRegistration
                &&& r is Err ==> final(self).registered() == old(self).registered() && final(self).descriptors() == old(self).descriptors()
                &&& r is Ok ==> final(self).registered() == old(self).registered().push(t)
                    && final(self).descriptors().last().hooks == Some(hooks)
                    && final(self).descriptors().drop_last() == old(self).descriptors()
            },
            final(self).events() == old(self).events(),
            World::frame_kept(*old(self), *final(self)),
    {
        let t = type_id_of::<T>();
        self.register_type(t, NATIVE_NAME, ComponentDescriptor::of_with_hooks::<T>(hooks))
    }

    /// Registers a type identity with a descriptor; duplicates are an error
    /// and leave the registry unchanged.
    pub fn register_type(&mut self, t: TypeId, name: &'static str, desc: ComponentDescriptor) -> (r: WorldResult<()>)
        requires
            old(self).wf(),
        ensures
            final(self).wf(),
            final(self).view() == old(self).view(),
            final(self).events() == old(self).events(),
            final(self).context() == old(self).context(),
            final(self).pending() == old(self).pending(),
            final(self).issued() == old(self).issued(),
            final(self).resources() == old(self).resources(),
            (r is Err <==> old(self).registered().contains(t)),
            r matches Err(err) ==> err == WorldError::DuplicateRegistration(name),
            r is Err ==> final(self).registered() == old(self).registered() && final(self).descriptors() == old(self).descriptors(),
            r is Ok ==> final(self).registered() == old(self).registered().push(t) && final(self).descriptors() == old(self).descriptors().push(desc),
            World::frame_kept(*old(self), *final(self)),
    {
        self.store.register_type(t, name, desc)
    }
}


impl World {
    // ── model helpers ────────────────────────────────────────────────────

    /// Storage position of a live entity: (archetype, row).
    pub closed spec fn location(&self, e: Entity) -> (usize, usize) {
        self.store.location(e)
    }

    /// The descriptor registered for a type identity.
    pub open spec fn descriptor_for(&self, t: TypeId) -> ComponentDescriptor {
        self.descriptors()[self.registered().index_of(t)]
    }

    /// The events that adding a value of type `t` records.
    pub open spec fn add_events(&self, e: Entity, t: TypeId, ctx: Option<u64>) -> Seq<HookEvent> {
        Store::add_events(self.descriptor_for(t), e, t, ctx)
    }

    /// What one `add` of a value `v` of type `t` (descriptor `d`) to `e`
    /// does, from `w0` to `w1` with outcome `r`.
    pub open spec fn add_outcome(w0: World, w1: World, e: Entity, t: TypeId, d: ComponentDescriptor, v: ComponentValue, r: WorldResult<()>) -> bool {
        &&& w0.registered().contains(t) ==> w1.registered() == w0.registered() && w1.descriptors() == w0.descriptors()
        &&& !w0.registered().contains(t) ==> w1.registered() == w0.registered().push(t) && w1.descriptors() == w0.descriptors().push(d)
        &&& !w0.view().contains_key(e) ==> {
            &&& r == Err::<(), WorldError>(WorldError::StaleEntity)
            &&& w1.view() == w0.view()
            &&& w1.events() == w0.events()
        }
        &&& w0.view().contains_key(e) && w0.view()[e].contains_key(t) ==> {
            &&& r matches Err(WorldError::InsertAlreadyExists(_))
            &&& w1.view() == w0.view()
            &&& w1.events() == w0.events()
        }
        &&& w0.view().contains_key(e) && !w0.view()[e].contains_key(t) ==> {
            &&& r is Ok
            &&& w1.view() == w0.view().insert(e, w0.view()[e].insert(t, v))
            &&& w1.events() == w0.events() + w1.add_events(e, t, w0.context())
        }
    }

    /// Adding a value of a type that a live entity lacks succeeds, and a
    /// read of that type then gives the value back; the entity's other
    /// components are unchanged.
    pub proof fn lemma_read_after_add(w0: World, w1: World, e: Entity, t: TypeId, d: ComponentDescriptor, v: ComponentValue, r: WorldResult<()>)
        requires
            World::add_outcome(w0, w1, e, t, d, v, r),
            w0.view().contains_key(e),
            !w0.view()[e].contains_key(t),
        ensures
            r is Ok,
            w1.view().contains_key(e),
            w1.view()[e].contains_key(t),
            w1.view()[e][t] == v,
            w1.view()[e].remove(t) == w0.view()[e],
    {
        assert(w1.view()[e].remove(t) =~= w0.view()[e]);
    }

    /// Removing the type just added to a live entity gives back the world's
    /// entities and components as they were before the add.
    pub proof fn lemma_remove_undoes_add(w0: World, w1: World, w2: World, e: Entity, t: TypeId, d: ComponentDescriptor,
        v: ComponentValue, r1: WorldResult<()>, r2: WorldResult<()>)
        requires
            World::add_outcome(w0, w1, e, t, d, v, r1),
            World::remove_outcome(w1, w2, e, t, r2),
            w0.view().contains_key(e),
            !w0.view()[e].contains_key(t),
        ensures
            r1 is Ok,
            r2 is Ok,
            w2.view() == w0.view(),
    {
        assert(w0.view()[e].insert(t, v).remove(t) =~= w0.view()[e]);
        assert(w0.view().insert(e, w0.view()[e]) =~= w0.view());
    }

    /// What one `remove` of type `t` from `e` does.
    pub open spec fn remove_outcome(w0: World, w1: World, e: Entity, t: TypeId, r: WorldResult<()>) -> bool {
        &&& w1.registered() == w0.registered()
        &&& w1.descriptors() == w0.descriptors()
        &&& !w0.view().contains_key(e) ==> {
            &&& r == Err::<(), WorldError>(WorldError::StaleEntity)
            &&& w1.view() == w0.view()
            &&& w1.events() == w0.events()
        }
        &&& w0.view().contains_key(e) && !w0.view()[e].contains_key(t) ==> {
            &&& r is Ok
            &&& w1.view() == w0.view()
            &&& w1.events() == w0.events()
        }
        &&& w0.view().contains_key(e) && w0.view()[e].contains_key(t) ==> {
            &&& r is Ok
            &&& w1.view() == w0.view().insert(e, w0.view()[e].remove(t))
            &&& w1.events() == w0.events() + Store::remove_events(w0.descriptor_for(t), e, t, w0.context())
        }
    }

    /// Everything but the entity model, events and registry is untouched.
    pub open spec fn frame_kept(w0: World, w1: World) -> bool {
        &&& w1.context() == w0.context()
        &&& w1.issued() == w0.issued()
        &&& w1.resources() == w0.resources()
        &&& w1.parent_type() == w0.parent_type()
        &&& w1.children_type() == w0.children_type()
        &&& w1.dirty_type() == w0.dirty_type()
        &&& w1.scene_ref_type() == w0.scene_ref_type()
        &&& w1.pending() == w0.pending()
    }

    /// A lookup answers `Ok(None)` when `e` is live without a value of type `t`.
    pub open spec fn absent_means<V>(&self, e: Entity, t: TypeId, r: WorldResult<Option<V>>) -> bool {
        self.view().contains_key(e) && !self.view()[e].contains_key(t) ==> r == Ok::<Option<V>, WorldError>(None)
    }

    /// The answer to "does `e` have a value of type `t`".
    pub open spec fn has_answer(&self, e: Entity, t: TypeId, r: WorldResult<bool>) -> bool {
        &&& !self.view().contains_key(e) ==> r == Err::<bool, WorldError>(WorldError::StaleEntity)
        &&& self.view().contains_key(e) ==> r == Ok::<bool, WorldError>(self.view()[e].contains_key(t))
    }

    /// From `w0` to `w1` at most the value of type `t` of `e` changed, to `nv`.
    pub open spec fn written_at(w0: World, w1: World, e: Entity, t: TypeId, nv: ComponentValue) -> bool {
        &&& w0.view().contains_key(e) && !w0.view()[e].contains_key(t) ==> w1.view() == w0.view()
        &&& w0.view().contains_key(e) && w0.view()[e].contains_key(t)
            ==> w1.view() == w0.view().insert(e, w0.view()[e].insert(t, nv))
    }

    // ── registration and hooks ───────────────────────────────────────────

    /// Whether a component type is registered in the registry.
    pub fn is_registered<T: 'static>(&self) -> (b: bool)
        requires
            self.wf(),
        ensures
            exists|t: TypeId| b == self.registered().contains(t),
    {
        let t = type_id_of::<T>();
        let b = self.store.is_registered(&t);
        assert(b == self.registered().contains(t));
        b
    }

    /// Whether a type identity is registered.
    pub fn is_registered_id(&self, t: &TypeId) -> (b: bool)
        requires
            self.wf(),
        ensures
            b == self.registered().contains(*t),
    {
        self.store.is_registered(t)
    }

    /// Binds the hook context: from now on every hook firing is recorded as
    /// a [`HookEvent`] addressed to `ctx`. Without a bound context no hook
    /// fires.
    pub fn bind_hook_context(&mut self, ctx: u64)
        requires
            old(self).wf(),
        ensures
            final(self).wf(),
            final(self).view() == old(self).view(),
            final(self).registered() == old(self).registered(),
            final(self).descriptors() == old(self).descriptors(),
            final(self).events() == old(self).events(),
            final(self).issued() == old(self).issued(),
            final(self).resources() == old(self).resources(),
            final(self).context() == Some(ctx),
            final(self).pending() == old(self).pending(),
            final(self).parent_type() == old(self).parent_type(),
            final(self).children_type() == old(self).children_type(),
            final(self).can_reserve() == old(self).can_reserve(),
            final(self).handed_out() == old(self).handed_out(),
    {
        self.store.bind_hook_context(ctx);
    }

    /// Drains the recorded hook firings, oldest first.
    pub fn take_hook_events(&mut self) -> (evs: Vec<HookEvent>)
        requires
            old(self).wf(),
        ensures
            final(self).wf(),
            evs@ == old(self).events(),
            final(self).events() == Seq::<HookEvent>::empty(),
            final(self).view() == old(self).view(),
            final(self).registered() == old(self).registered(),
            final(self).descriptors() == old(self).descriptors(),
            World::frame_kept(*old(self), *final(self)),
    {
        self.store.take_hook_events()
    }

    // ── lifecycle ────────────────────────────────────────────────────────

    /// Hands out a fresh handle that owns its slot but is not live yet.
    pub fn reserve_entity(&mut self) -> (e: Entity)
        requires
            old(self).wf(),
            old(self).can_reserve(),
        ensures
            final(self).wf(),
            !old(self).issued().contains(e),
            final(self).issued() == old(self).issued().insert(e),
            final(self).holds_slot(e),
            !final(self).view().contains_key(e),
            final(self).view() == old(self).view(),
            final(self).registered() == old(self).registered(),
            final(self).descriptors() == old(self).descriptors(),
            final(self).events() == old(self).events(),
            final(self).context() == old(self).context(),
            final(self).pending() == old(self).pending(),
            final(self).resources() == old(self).resources(),
    {
        proof { self.store.lemma_view_dom(); }
        let e = self.store.reserve_entity();
        proof { self.store.lemma_view_dom(); }
        e
    }

    /// Creates an empty entity.
    pub fn create_empty(&mut self) -> (e: Entity)
        requires
            old(self).wf(),
            old(self).can_reserve(),
        ensures
            final(self).wf(),
            !old(self).issued().contains(e),
            final(self).issued() == old(self).issued().insert(e),
            !old(self).view().contains_key(e),
            final(self).view() == old(self).view().insert(e, Map::<TypeId, ComponentValue>::empty()),
            final(self).registered() == old(self).registered(),
            final(self).descriptors() == old(self).descriptors(),
            final(self).events() == old(self).events(),
            final(self).context() == old(self).context(),
            final(self).pending() == old(self).pending(),
            final(self).resources() == old(self).resources(),
            final(self).parent_type() == old(self).parent_type(),
            final(self).children_type() == old(self).children_type(),
            final(self).dirty_type() == old(self).dirty_type(),
            final(self).scene_ref_type() == old(self).scene_ref_type(),
    {
        self.store.create_empty()
    }

    /// Finalizes a reserved entity into the world as an empty entity. A live
    /// entity is left as it is, and so is a handle that does not own its
    /// slot.
    pub fn create_into(&mut self, e: Entity)
        requires
            old(self).wf(),
        ensures
            final(self).wf(),
            old(self).holds_slot(e) && !old(self).view().contains_key(e)
                ==> final(self).view() == old(self).view().insert(e, Map::<TypeId, ComponentValue>::empty()),
            !(old(self).holds_slot(e) && !old(self).view().contains_key(e)) ==> final(self).view() == old(self).view(),
            final(self).registered() == old(self).registered(),
            final(self).descriptors() == old(self).descriptors(),
            final(self).events() == old(self).events(),
            World::frame_kept(*old(self), *final(self)),
    {
        proof { self.store.lemma_view_dom(); }
        if self.store.holds(e) {
            self.store.create_into(e);
        }
    }

    /// Adds a component value of type `t` to `e`; the type is registered
    /// with `desc` first when absent.
    pub fn add_value(&mut self, e: Entity, t: TypeId, desc: ComponentDescriptor, v: ComponentValue) -> (r: WorldResult<()>)
        requires
            old(self).wf(),
        ensures
            final(self).wf(),
            World::add_outcome(*old(self), *final(self), e, t, desc, v, r),
            World::frame_kept(*old(self), *final(self)),
            forall|x: Entity| #[trigger] final(self).holds_slot(x) == old(self).holds_slot(x),
    {
        proof { self.store.lemma_view_dom(); }
        let r = self.store.add_value(e, t, NATIVE_NAME, desc, v);
        proof { self.store.lemma_view_dom(); }
        r
    }

    /// Adds a component (batch via repeated calls or `add_bundle2`). The
    /// type is registered first when absent; a stale entity and a type the
    /// entity already has are errors that leave the entity untouched.
    pub fn add<T: 'static>(&mut self, entity: Entity, value: T) -> (r: WorldResult<()>)
        requires
            old(self).wf(),
        ensures
            final(self).wf(),
            exists|t: TypeId, d: ComponentDescriptor, v: ComponentValue| World::add_outcome(*old(self), *final(self), entity, t, d, v, r),
            World::frame_kept(*old(self), *final(self)),
    {
        let t = type_id_of::<T>();
        let v = encode(&t, &self.parent_tid, &self.children_tid, value);
        let d = ComponentDescriptor::of::<T>(false);
        self.add_value(entity, t, d, v)
    }

    /// Removes the component of type `t` from `e`. A stale entity is an
    /// error that changes nothing; a type the live entity lacks (registered
    /// or not) is a no-op.
    pub fn remove_id(&mut self, e: Entity, t: TypeId) -> (r: WorldResult<()>)
        requires
            old(self).wf(),
        ensures
            final(self).wf(),
            World::remove_outcome(*old(self), *final(self), e, t, r),
            World::frame_kept(*old(self), *final(self)),
    {
        proof { self.store.lemma_view_dom(); }
        let r = self.store.remove_value(e, t);
        proof { self.store.lemma_view_dom(); }
        r
    }

    /// Removes a component type. Missing component is a no-op (idempotent);
    /// stale entities error.
    pub fn remove<T: 'static>(&mut self, entity: Entity) -> (r: WorldResult<()>)
        requires
            old(self).wf(),
        ensures
            final(self).wf(),
            exists|t: TypeId| World::remove_outcome(*old(self), *final(self), entity, t, r),
            World::frame_kept(*old(self), *final(self)),
    {
        let t = type_id_of::<T>();
        self.remove_id(entity, t)
    }

    /// Destroys an entity: its components leave in registration order (each
    /// `on_remove` recorded in that order), and the slot is freed for reuse.
    /// Idempotent for stale/destroyed handles.
    pub fn destroy(&mut self, entity: Entity) -> (r: WorldResult<()>)
        requires
            old(self).wf(),
        ensures
            final(self).wf(),
            r is Ok,
            final(self).view() == old(self).view().remove(entity),
            !old(self).view().contains_key(entity) ==> final(self).events() == old(self).events(),
            old(self).view().contains_key(entity) ==> final(self).events() == old(self).events()
                + Store::removal_events(old(self).registered(), old(self).descriptors(), old(self).types_of(entity), entity, old(self).context()),
            final(self).registered() == old(self).registered(),
            final(self).descriptors() == old(self).descriptors(),
            World::frame_kept(*old(self), *final(self)),
    {
        proof { self.store.lemma_view_dom(); }
        let r = self.store.destroy(entity);
        proof {
            self.store.lemma_view_dom();
            if !old(self).store.live(entity) {
                assert(old(self).view().remove(entity) =~= old(self).view());
            }
        }
        r
    }

    /// The two hierarchy edge types have distinct identities.
    pub proof fn lemma_edge_types_differ(&self)
        requires
            self.wf(),
        ensures
            self.parent_type() != self.children_type(),
    {
    }

    /// Finitely many entities are live.
    pub proof fn lemma_view_finite(&self)
        requires
            self.wf(),
        ensures
            self.view().dom().finite(),
    {
        self.store.lemma_view_finite();
    }

    /// Fewer than `u32::MAX` handles handed out leaves room for one more
    /// entity: each creation hands out one handle, and nothing else does.
    pub proof fn lemma_room(&self)
        requires
            self.wf(),
        ensures
            self.issued().finite(),
            self.issued().len() < u32::MAX ==> self.can_reserve(),
    {
        self.store.lemma_room();
    }

    /// Whether one more entity can be created (or reserved).
    pub fn can_create(&self) -> (b: bool)
        requires
            self.wf(),
        ensures
            b == self.can_reserve(),
    {
        self.store.has_room()
    }

    /// Every live entity is a handle the world handed out.
    pub proof fn lemma_live_issued(&self, e: Entity)
        requires
            self.wf(),
            self.view().contains_key(e),
        ensures
            self.issued().contains(e),
    {
        self.store.lemma_live_issued(e);
    }

    /// A destroyed handle stays stale: a later creation hands out a
    /// different handle, and the destroyed one is still not live.
    pub proof fn lemma_destroyed_stays_stale(w0: World, w1: World, w2: World, e: Entity, fresh: Entity)
        requires
            w0.wf(),
            w0.view().contains_key(e),
            w1.view() == w0.view().remove(e),
            w1.issued() == w0.issued(),
            !w1.issued().contains(fresh),
            w2.view() == w1.view().insert(fresh, Map::<TypeId, ComponentValue>::empty()),
        ensures
            fresh != e,
            !w1.view().contains_key(e),
            !w2.view().contains_key(e),
    {
        w0.lemma_live_issued(e);
    }

    /// A successful add is read back: the entity then holds exactly the
    /// added value under the type, and every other value is unchanged.
    pub proof fn lemma_add_then_read(w0: World, w1: World, e: Entity, t: TypeId, d: ComponentDescriptor, v: ComponentValue, r: WorldResult<()>)
        requires
            World::add_outcome(w0, w1, e, t, d, v, r),
            r is Ok,
        ensures
            w0.view().contains_key(e) && !w0.view()[e].contains_key(t),
            w1.view().contains_key(e) && w1.view()[e].contains_key(t),
            w1.view()[e][t] == v,
            forall|u: TypeId| u != t ==> #[trigger] w1.view()[e].contains_key(u) == w0.view()[e].contains_key(u)
                && (w0.view()[e].contains_key(u) ==> w1.view()[e][u] == w0.view()[e][u]),
            forall|x: Entity| x != e ==> #[trigger] w1.view().contains_key(x) == w0.view().contains_key(x)
                && (w0.view().contains_key(x) ==> w1.view()[x] == w0.view()[x]),
    {
    }

    /// A refused add (stale handle, or a type the entity already has)
    /// leaves every entity's components as they were.
    pub proof fn lemma_refused_add_changes_nothing(w0: World, w1: World, e: Entity, t: TypeId, d: ComponentDescriptor, v: ComponentValue, r: WorldResult<()>)
        requires
            World::add_outcome(w0, w1, e, t, d, v, r),
            r is Err,
        ensures
            w1.view() == w0.view(),
            w1.events() == w0.events(),
    {
    }

    /// After a remove that did not fail the entity no longer holds the
    /// type; a live entity stays live.
    pub proof fn lemma_remove_then_absent(w0: World, w1: World, e: Entity, t: TypeId, r: WorldResult<()>)
        requires
            w0.wf(),
            World::remove_outcome(w0, w1, e, t, r),
            r is Ok,
        ensures
            w1.view().dom() == w0.view().dom(),
            w1.view().contains_key(e) ==> !w1.view()[e].contains_key(t),
    {
        if w0.view().contains_key(e) {
            w0.lemma_types_in_registration_order(e);
        }
        if w0.registered().contains(t) && w0.view().contains_key(e) && w0.view()[e].contains_key(t) {
            assert(w1.view().dom() =~= w0.view().dom());
        }
    }

    /// The identity under which [`Parent`] values are stored.
    pub fn parent_type_id(&self) -> (t: TypeId)
        ensures
            t == self.parent_type(),
    {
        self.parent_tid
    }

    /// The identity under which [`Children`] values are stored.
    pub fn children_type_id(&self) -> (t: TypeId)
        ensures
            t == self.children_type(),
    {
        self.children_tid
    }

    /// The type identity of the transform-dirty marker.
    pub fn dirty_type_id(&self) -> (t: TypeId)
        ensures
            t == self.dirty_type(),
    {
        self.dirty_tid
    }

    /// The type identity of a game object's scene back-reference.
    pub fn scene_ref_type_id(&self) -> (t: TypeId)
        ensures
            t == self.scene_ref_type(),
    {
        self.scene_ref_tid
    }

    /// The component types of a live entity, in registration order.
    pub closed spec fn types_of(&self, e: Entity) -> Seq<TypeId> {
        self.store.types_of(e)
    }

    /// The component types of a live entity appear in registration order,
    /// each once, and are exactly the entity's components.
    pub proof fn lemma_types_in_registration_order(&self, e: Entity)
        requires
            self.wf(),
            self.view().contains_key(e),
        ensures
            self.types_of(e).no_duplicates(),
            forall|t: TypeId| #[trigger] self.types_of(e).contains(t) <==> self.view()[e].contains_key(t),
            forall|a: int, b: int| 0 <= a < b < self.types_of(e).len() ==>
                self.registered().index_of(#[trigger] self.types_of(e)[a]) < self.registered().index_of(#[trigger] self.types_of(e)[b]),
            forall|t: TypeId| #[trigger] self.view()[e].contains_key(t) ==> self.registered().contains(t),
    {
        self.store.lemma_view_dom();
        self.store.lemma_types_of(e);
        assert forall|t: TypeId| #[trigger] self.view()[e].contains_key(t) implies self.registered().contains(t) by {
            assert(self.types_of(e).contains(t));
        }
    }

    /// The `on_remove` records that destroying the live entity `e` makes:
    /// one per component, in registration order.
    pub open spec fn destroy_events(&self, e: Entity) -> Seq<HookEvent> {
        Store::removal_events(self.registered(), self.descriptors(), self.types_of(e), e, self.context())
    }

    /// Two lists of distinct types with the same members, both in the order
    /// of `reg`, are the same list.
    proof fn lemma_ordered_same(reg: Seq<TypeId>, a: Seq<TypeId>, b: Seq<TypeId>)
        requires
            a.no_duplicates(),
            b.no_duplicates(),
            forall|t: TypeId| #[trigger] a.contains(t) <==> b.contains(t),
            forall|i: int, j: int| 0 <= i < j < a.len() ==> reg.index_of(#[trigger] a[i]) < reg.index_of(#[trigger] a[j]),
            forall|i: int, j: int| 0 <= i < j < b.len() ==> reg.index_of(#[trigger] b[i]) < reg.index_of(#[trigger] b[j]),
        ensures
            a == b,
        decreases a.len(),
    {
        if a.len() == 0 {
            if b.len() > 0 {
                assert(b.contains(b[0]));
                assert(a.contains(b[0]));
            }
            assert(a =~= b);
        } else {
            assert(a.contains(a[0]));
            assert(b.contains(a[0]));
            let j = choose|j: int| 0 <= j < b.len() && b[j] == a[0];
            assert(b.contains(b[0]));
            assert(a.contains(b[0]));
            let i = choose|i: int| 0 <= i < a.len() && a[i] == b[0];
            if j > 0 {
                assert(reg.index_of(b[0]) < reg.index_of(b[j]));
                if i > 0 {
                    assert(reg.index_of(a[0]) < reg.index_of(a[i]));
                } else {
                    assert(b[0] == b[j]);
                }
            }
            assert(j == 0);
            let a1 = a.drop_first();
            let b1 = b.drop_first();
            assert forall|t: TypeId| #[trigger] a1.contains(t) <==> b1.contains(t) by {
                if a1.contains(t) {
                    let k = choose|k: int| 0 <= k < a1.len() && a1[k] == t;
                    assert(a[k + 1] == t);
                    assert(t != a[0]);
                    assert(a.contains(t));
                    assert(b.contains(t));
                    let m = choose|m: int| 0 <= m < b.len() && b[m] == t;
                    assert(m != 0);
                    assert(b1[m - 1] == t);
                }
                if b1.contains(t) {
                    let k = choose|k: int| 0 <= k < b1.len() && b1[k] == t;
                    assert(b[k + 1] == t);
                    assert(t != b[0]);
                    assert(b.contains(t));
                    assert(a.contains(t));
                    let m = choose|m: int| 0 <= m < a.len() && a[m] == t;
                    assert(m != 0);
                    assert(a1[m - 1] == t);
                }
            }
            assert forall|x: int, y: int| 0 <= x < y < a1.len() implies reg.index_of(#[trigger] a1[x]) < reg.index_of(#[trigger] a1[y]) by {
                assert(a1[x] == a[x + 1] && a1[y] == a[y + 1]);
            }
            assert forall|x: int, y: int| 0 <= x < y < b1.len() implies reg.index_of(#[trigger] b1[x]) < reg.index_of(#[trigger] b1[y]) by {
                assert(b1[x] == b[x + 1] && b1[y] == b[y + 1]);
            }
            World::lemma_ordered_same(reg, a1, b1);
            assert(a =~= b) by {
                assert forall|k: int| 0 <= k < a.len() implies a[k] == b[k] by {
                    if k > 0 {
                        assert(a[k] == a1[k - 1]);
                        assert(b[k] == b1[k - 1]);
                    }
                }
            }
        }
    }

    /// An entity's component types, in registration order, depend only on
    /// which types it holds and on the registry.
    pub proof fn lemma_types_of_same(w1: World, w2: World, e: Entity)
        requires
            w1.wf(),
            w2.wf(),
            w1.view().contains_key(e),
            w2.view().contains_key(e),
            w1.view()[e].dom() == w2.view()[e].dom(),
            w1.registered() == w2.registered(),
        ensures
            w1.types_of(e) == w2.types_of(e),
    {
        w1.lemma_types_in_registration_order(e);
        w2.lemma_types_in_registration_order(e);
        let a = w1.types_of(e);
        let b = w2.types_of(e);
        assert forall|t: TypeId| #[trigger] a.contains(t) <==> b.contains(t) by {
            assert(w1.view()[e].contains_key(t) == w1.view()[e].dom().contains(t));
            assert(w2.view()[e].contains_key(t) == w2.view()[e].dom().contains(t));
        }
        World::lemma_ordered_same(w1.registered(), a, b);
    }

    /// Destroys every entity, retaining the archetype structure and registry.
    pub fn clear(&mut self)
        requires
            old(self).wf(),
        ensures
            final(self).wf(),
            final(self).view() == Map::<Entity, Map<TypeId, ComponentValue>>::empty(),
            final(self).registered() == old(self).registered(),
            final(self).descriptors() == old(self).descriptors(),
            final(self).events() == old(self).events() + old(self).clear_events(),
            old(self).context() is None ==> final(self).events() == old(self).events(),
            World::frame_kept(*old(self), *final(self)),
    {
        proof {
            if self.store.context() is None {
                self.store.lemma_clear_records_nothing_unbound();
                assert(self.store.events() + self.store.clear_events() =~= self.store.events());
            }
        }
        self.store.clear();
    }

    /// The `on_remove` firings `clear` records: storage group by storage
    /// group, column by column in registration order, one per entity.
    pub closed spec fn clear_events(&self) -> Seq<HookEvent> {
        self.store.clear_events()
    }

    // ── access ───────────────────────────────────────────────────────────

    /// The stored value of type `t` of `e`: an error for a stale handle,
    /// `None` when the entity lacks the type.
    pub fn get_value(&self, e: Entity, t: &TypeId) -> (r: WorldResult<Option<&ComponentValue>>)
        requires
            self.wf(),
        ensures
            !self.view().contains_key(e) ==> r == Err::<Option<&ComponentValue>, WorldError>(WorldError::StaleEntity),
            self.view().contains_key(e) ==> r == Ok::<Option<&ComponentValue>, WorldError>(
                if self.view()[e].contains_key(*t) { Some(&self.view()[e][*t]) } else { None }),
    {
        proof { self.store.lemma_view_dom(); }
        self.store.get_value(e, t)
    }

    /// Returns a shared reference to the component, or None when missing.
    pub fn get<T: 'static>(&self, entity: Entity) -> (r: WorldResult<Option<&T>>)
        requires
            self.wf(),
        ensures
            !self.view().contains_key(entity) ==> r == Err::<Option<&T>, WorldError>(WorldError::StaleEntity),
            self.view().contains_key(entity) ==> r is Ok,
            exists|t: TypeId| #[trigger] self.absent_means(entity, t, r),
    {
        let t = type_id_of::<T>();
        let r = match self.get_value(entity, &t) {
            Err(x) => Err(x),
            Ok(None) => Ok(None),
            Ok(Some(v)) => Ok(decode_ref::<T>(v)),
        };
        assert(self.absent_means(entity, t, r));
        r
    }

    /// Mutable access to the stored value of type `t` of a live entity that
    /// has one.
    pub fn value_mut(&mut self, e: Entity, t: &TypeId) -> (v: &mut ComponentValue)
        requires
            old(self).wf(),
            old(self).view().contains_key(e),
            old(self).view()[e].contains_key(*t),
        ensures
            *v == old(self).view()[e][*t],
            final(self).wf(),
            final(self).view() == old(self).view().insert(e, old(self).view()[e].insert(*t, *final(v))),
            final(self).registered() == old(self).registered(),
            final(self).descriptors() == old(self).descriptors(),
            final(self).events() == old(self).events(),
            World::frame_kept(*old(self), *final(self)),
            final(self).handed_out() == old(self).handed_out(),
    {
        proof { self.store.lemma_view_dom(); }
        self.store.value_mut(e, t)
    }

    /// Returns a mutable reference to the component, or None when missing.
    pub fn get_mut<T: 'static>(&mut self, entity: Entity) -> (r: WorldResult<Option<&mut T>>)
        requires
            old(self).wf(),
        ensures
            final(self).wf(),
            !old(self).view().contains_key(entity) ==> r == Err::<Option<&mut T>, WorldError>(WorldError::StaleEntity) && final(self).view() == old(self).view(),
            old(self).view().contains_key(entity) ==> r is Ok,
            exists|t: TypeId, nv: ComponentValue| #[trigger] World::written_at(*old(self), *final(self), entity, t, nv)
                && old(self).absent_means(entity, t, r),
            exists|t: TypeId| #[trigger] old(self).absent_means(entity, t, r),
            final(self).registered() == old(self).registered(),
            final(self).descriptors() == old(self).descriptors(),
            final(self).events() == old(self).events(),
            World::frame_kept(*old(self), *final(self)),
    {
        let t = type_id_of::<T>();
        proof { self.store.lemma_view_dom(); }
        match self.store.contains_type(entity, &t) {
            Err(x) => {
                let r = Err(x);
                assert(World::written_at(*old(self), *final(self), entity, t, ComponentValue::Parent(Parent { parent: None }))
                    && old(self).absent_means(entity, t, r));
                r
            },
            Ok(false) => {
                let r = Ok(None);
                assert(World::written_at(*old(self), *final(self), entity, t, old(self).view()[entity][t])
                    && old(self).absent_means(entity, t, r));
                r
            },
            Ok(true) => {
                assert forall|w: World, nv: ComponentValue|
                    #![trigger w.view(), old(self).view()[entity].insert(t, nv)]
                    w.view() == old(self).view().insert(entity, old(self).view()[entity].insert(t, nv))
                    implies World::written_at(*old(self), w, entity, t, nv) by {
                }
                assert(forall|x: WorldResult<Option<&mut T>>| old(self).absent_means(entity, t, x));
                let v = self.value_mut(entity, &t);
                Ok(decode_mut::<T>(v))
            },
        }
    }

    /// Whether an entity is alive.
    pub fn contains_entity(&self, entity: Entity) -> (b: bool)
        requires
            self.wf(),
        ensures
            b == self.view().contains_key(entity),
    {
        self.store.valid(entity)
    }

    /// Whether a live entity has a component of type `t`.
    pub fn contains_id(&self, entity: Entity, t: &TypeId) -> (r: WorldResult<bool>)
        requires
            self.wf(),
        ensures
            !self.view().contains_key(entity) ==> r == Err::<bool, WorldError>(WorldError::StaleEntity),
            self.view().contains_key(entity) ==> r == Ok::<bool, WorldError>(self.view()[entity].contains_key(*t)),
    {
        proof { self.store.lemma_view_dom(); }
        self.store.contains_type(entity, t)
    }

    /// Whether an entity has a component type.
    pub fn contains<T: 'static>(&self, entity: Entity) -> (r: WorldResult<bool>)
        requires
            self.wf(),
        ensures
            exists|t: TypeId| #[trigger] self.has_answer(entity, t, r),
    {
        let t = type_id_of::<T>();
        let r = self.contains_id(entity, &t);
        assert(self.has_answer(entity, t, r));
        r
    }

    /// The `(archetype, row)` locating the live entity, or `None` when the
    /// handle is stale. O(1).
    pub fn location_of(&self, entity: Entity) -> (r: Option<(usize, usize)>)
        requires
            self.wf(),
        ensures
            r is None <==> !self.view().contains_key(entity),
            r matches Some(loc) ==> loc == self.location(entity),
    {
        proof { self.store.lemma_view_dom(); }
        self.store.location_of(entity)
    }

    /// The slot's current generation, or `None` for an index that has no
    /// slot yet. A live handle reads back its own generation.
    pub fn live_generation(&self, entity: Entity) -> (r: Option<u32>)
        requires
            self.wf(),
        ensures
            self.view().contains_key(entity) ==> r == Some(entity.gen()),
            r is None ==> !self.view().contains_key(entity),
    {
        proof { self.store.lemma_view_dom(); }
        self.store.live_generation(entity)
    }

    /// The stored value of type `t` at an exact `(arch, row)` position.
    pub fn value_at(&self, arch: usize, row: usize, t: &TypeId) -> (r: Option<&ComponentValue>)
        requires
            self.wf(),
        ensures
            forall|e: Entity| self.view().contains_key(e) && self.location(e) == (arch, row) ==>
                (r is None <==> !self.view()[e].contains_key(*t))
                && (r matches Some(v) ==> *v == self.view()[e][*t]),
    {
        proof { self.store.lemma_view_dom(); }
        self.store.get_at(arch, row, t)
    }

    /// `found` only if the entity at `(arch, row)` stores a value of type `t`.
    pub open spec fn found_only_if_stored(&self, arch: usize, row: usize, t: TypeId, found: bool) -> bool {
        forall|e: Entity| #[trigger] self.view().contains_key(e) && self.location(e) == (arch, row) && found
            ==> self.view()[e].contains_key(t)
    }

    /// Shared access to a component at an exact `(arch, row)` position.
    pub fn get_at<T: 'static>(&self, arch: usize, row: usize) -> (r: Option<&T>)
        requires
            self.wf(),
        ensures
            exists|t: TypeId| #[trigger] self.found_only_if_stored(arch, row, t, r is Some),
    {
        let t = type_id_of::<T>();
        let found = self.value_at(arch, row, &t);
        let r = match found {
            Some(v) => decode_ref::<T>(v),
            None => None,
        };
        assert(self.found_only_if_stored(arch, row, t, r is Some));
        r
    }

    /// Number of live entities.
    pub fn entity_count(&self) -> (n: usize)
        requires
            self.wf(),
        ensures
            n == self.view().dom().len(),
            n <= u32::MAX,
    {
        self.store.entity_count()
    }

    /// All live entity handles, each once, in storage order.
    pub fn entities(&self) -> (out: Vec<Entity>)
        requires
            self.wf(),
        ensures
            out@.no_duplicates(),
            forall|x: Entity| #[trigger] out@.contains(x) <==> self.view().contains_key(x),
            forall|k1: int, k2: int| 0 <= k1 < k2 < out@.len() ==>
                Store::loc_before(self.location(#[trigger] out@[k1]), self.location(#[trigger] out@[k2])),
    {
        proof { self.store.lemma_view_dom(); }
        self.store.entities()
    }
}


impl World {
    // ── bundles ──────────────────────────────────────────────────────────

    /// The component map built by adding `vs[i]` under `ts[i]` in order.
    pub open spec fn bundle(ts: Seq<TypeId>, vs: Seq<ComponentValue>) -> Map<TypeId, ComponentValue>
        decreases ts.len(),
    {
        if ts.len() == 0 || vs.len() == 0 {
            Map::empty()
        } else {
            World::bundle(ts.drop_last(), vs.drop_last()).insert(ts.last(), vs.last())
        }
    }

    /// Length of the longest prefix of `ts` in which no type repeats.
    pub open spec fn distinct_prefix(ts: Seq<TypeId>) -> nat
        decreases ts.len(),
    {
        if ts.len() == 0 {
            0
        } else {
            let p = World::distinct_prefix(ts.drop_last());
            if p == ts.len() - 1 && !ts.drop_last().contains(ts.last()) { ts.len() } else { p }
        }
    }

    /// The components a bundle leaves when adding stops at the first repeat.
    pub open spec fn bundle_upto_repeat(ts: Seq<TypeId>, vs: Seq<ComponentValue>) -> Map<TypeId, ComponentValue> {
        let p = World::distinct_prefix(ts) as int;
        World::bundle(ts.take(p), vs.take(p))
    }

    /// From `w0` to `w1` exactly one entity `e` was created, and it holds
    /// `comps`.
    pub open spec fn created_with(w0: World, w1: World, e: Entity, comps: Map<TypeId, ComponentValue>) -> bool {
        &&& !w0.view().contains_key(e)
        &&& !w0.issued().contains(e)
        &&& w1.view() == w0.view().insert(e, comps)
        &&& w1.issued() == w0.issued().insert(e)
    }

    /// One entity `e` was created holding just `v` under `t`, its `on_add`
    /// recorded.
    pub open spec fn created_one(w0: World, w1: World, e: Entity, t: TypeId, v: ComponentValue) -> bool {
        &&& World::created_with(w0, w1, e, World::bundle(seq![t], seq![v]))
        &&& w1.events() == w0.events() + w1.add_events(e, t, w0.context())
    }

    /// Two adds in a row to `e`, the second only when the first succeeded.
    pub open spec fn added_two(w0: World, w2: World, e: Entity, w1: World, r1: WorldResult<()>,
        ta: TypeId, da: ComponentDescriptor, va: ComponentValue,
        tb: TypeId, db: ComponentDescriptor, vb: ComponentValue, r: WorldResult<()>) -> bool {
        &&& World::add_outcome(w0, w1, e, ta, da, va, r1)
        &&& r1 is Err ==> r == r1 && w2 == w1
        &&& r1 is Ok ==> World::add_outcome(w1, w2, e, tb, db, vb, r)
    }

    /// From `w0` to `w1` just one empty entity `e` was created.
    pub open spec fn created_empty(w0: World, w1: World, e: Entity) -> bool {
        &&& World::created_with(w0, w1, e, Map::<TypeId, ComponentValue>::empty())
        &&& w1.registered() == w0.registered()
        &&& w1.descriptors() == w0.descriptors()
        &&& w1.events() == w0.events()
    }

    /// The adds of the values `vs` of types `ts` (descriptors `ds`) to `e`
    /// that were made, one after another while the earlier ones succeeded:
    /// add `i` led from `ws[i]` to `ws[i + 1]` with outcome `rs[i]`; fewer
    /// adds than values were made only when the last one failed.
    pub open spec fn adds_made(ws: Seq<World>, rs: Seq<WorldResult<()>>, e: Entity, ts: Seq<TypeId>,
        ds: Seq<ComponentDescriptor>, vs: Seq<ComponentValue>) -> bool {
        &&& rs.len() <= ts.len()
        &&& ws.len() == rs.len() + 1
        &&& forall|i: int| 0 <= i < rs.len() ==> #[trigger] World::add_outcome(ws[i], ws[i + 1], e, ts[i], ds[i], vs[i], rs[i])
        &&& forall|i: int| 0 <= i < rs.len() - 1 ==> #[trigger] rs[i] is Ok
        &&& rs.len() < ts.len() ==> rs.len() > 0 && rs.last() is Err
    }

    /// Creating `e` empty and then adding the values in turn, stopping at
    /// the first error, leads from `w0` to `w1`; `r` is the entity, or the
    /// error of the add that failed.
    pub open spec fn created_by_adds(w0: World, w1: World, e: Entity, ts: Seq<TypeId>, ds: Seq<ComponentDescriptor>,
        vs: Seq<ComponentValue>, r: WorldResult<Entity>) -> bool {
        exists|ws: Seq<World>, rs: Seq<WorldResult<()>>| {
            &&& #[trigger] World::adds_made(ws, rs, e, ts, ds, vs)
            &&& World::created_empty(w0, ws[0], e)
            &&& ws.last() == w1
            &&& (rs.len() == 0 || rs.last() is Ok) ==> r == Ok::<Entity, WorldError>(e)
            &&& rs.len() > 0 && rs.last() is Err ==> r == Err::<Entity, WorldError>(rs.last()->Err_0)
        }
    }

    /// Creates an entity with one initial component.
    pub fn create1<A: 'static>(&mut self, a: A) -> (r: WorldResult<Entity>)
        requires
            old(self).wf(),
            old(self).can_reserve(),
        ensures
            final(self).wf(),
            r is Ok,
            exists|t: TypeId, d: ComponentDescriptor, v: ComponentValue| {
                &&& World::created_one(*old(self), *final(self), r->Ok_0, t, v)
                &&& #[trigger] World::created_by_adds(*old(self), *final(self), r->Ok_0, seq![t], seq![d], seq![v], r)
            },
            final(self).context() == old(self).context(),
            final(self).pending() == old(self).pending(),
            final(self).resources() == old(self).resources(),
    {
        let e = self.create_empty();
        let ghost w1 = *self;
        let r = self.add(e, a);
        let ghost tdv = choose|t: TypeId, d: ComponentDescriptor, v: ComponentValue| World::add_outcome(w1, *self, e, t, d, v, r);
        let ghost t = tdv.0;
        let ghost d = tdv.1;
        let ghost v = tdv.2;
        proof {
            assert(World::bundle(seq![t], seq![v]) =~= Map::<TypeId, ComponentValue>::empty().insert(t, v)) by {
                reveal_with_fuel(World::bundle, 2);
                assert(seq![t].drop_last() =~= Seq::<TypeId>::empty());
            }
            assert(Map::<TypeId, ComponentValue>::empty().insert(t, v) =~= w1.view()[e].insert(t, v));
            assert(self.view() =~= old(self).view().insert(e, World::bundle(seq![t], seq![v])));
            assert(World::created_with(*old(self), *self, e, World::bundle(seq![t], seq![v])));
            assert(World::created_one(*old(self), *self, e, t, v));
        }
        let res = match r {
            Ok(()) => Ok(e),
            Err(x) => Err(x),
        };
        proof {
            let ws = seq![w1, *self];
            let rs = seq![r];
            assert(World::add_outcome(ws[0], ws[1], e, seq![t][0], seq![d][0], seq![v][0], rs[0]));
            assert(World::adds_made(ws, rs, e, seq![t], seq![d], seq![v]));
            assert(World::created_by_adds(*old(self), *self, e, seq![t], seq![d], seq![v], res));
        }
        assert(World::created_one(*old(self), *self, res->Ok_0, t, v));
        res
    }

    /// Creates an entity with two initial components. A type given twice
    /// is an error after the entity was created with the components before
    /// the repeat.
    pub fn create2<A: 'static, B: 'static>(&mut self, a: A, b: B) -> (r: WorldResult<Entity>)
        requires
            old(self).wf(),
            old(self).can_reserve(),
        ensures
            final(self).wf(),
            exists|e: Entity, ts: Seq<TypeId>, ds: Seq<ComponentDescriptor>, vs: Seq<ComponentValue>| {
                &&& ts.len() == 2
                &&& ds.len() == 2
                &&& vs.len() == 2
                &&& World::created_with(*old(self), *final(self), e, World::bundle_upto_repeat(ts, vs))
                &&& #[trigger] World::created_by_adds(*old(self), *final(self), e, ts, ds, vs, r)
                &&& ts.no_duplicates() ==> r == Ok::<Entity, WorldError>(e)
                &&& !ts.no_duplicates() ==> r matches Err(WorldError::InsertAlreadyExists(_))
            },
            final(self).context() == old(self).context(),
            final(self).pending() == old(self).pending(),
            final(self).resources() == old(self).resources(),
    {
        let ta = type_id_of::<A>();
        let va = encode(&ta, &self.parent_tid, &self.children_tid, a);
        let da = ComponentDescriptor::of::<A>(false);
        let tb = type_id_of::<B>();
        let vb = encode(&tb, &self.parent_tid, &self.children_tid, b);
        let db = ComponentDescriptor::of::<B>(false);
        let tsv = vec![ta, tb];
        let vsv = vec![va, vb];
        let ghost ts = tsv@;
        let ghost vs = vsv@;
        let dsv = vec![da, db];
        let ghost ds = dsv@;
        let r = self.create_from(tsv, dsv, vsv);
        proof {
            let e = choose|e: Entity| {
                &&& World::created_with(*old(self), *self, e, World::bundle_upto_repeat(ts, vs))
                &&& #[trigger] World::created_by_adds(*old(self), *self, e, ts, ds, vs, r)
                &&& ts.no_duplicates() ==> r == Ok::<Entity, WorldError>(e)
                &&& !ts.no_duplicates() ==> r matches Err(WorldError::InsertAlreadyExists(_))
            };
            assert(World::created_by_adds(*old(self), *self, e, ts, ds, vs, r));
        }
        r
    }

    /// Creates an entity with three initial components. A type given twice
    /// is an error after the entity was created with the components before
    /// the repeat.
    pub fn create3<A: 'static, B: 'static, C: 'static>(&mut self, a: A, b: B, c: C) -> (r: WorldResult<Entity>)
        requires
            old(self).wf(),
            old(self).can_reserve(),
        ensures
            final(self).wf(),
            exists|e: Entity, ts: Seq<TypeId>, ds: Seq<ComponentDescriptor>, vs: Seq<ComponentValue>| {
                &&& ts.len() == 3
                &&& ds.len() == 3
                &&& vs.len() == 3
                &&& World::created_with(*old(self), *final(self), e, World::bundle_upto_repeat(ts, vs))
                &&& #[trigger] World::created_by_adds(*old(self), *final(self), e, ts, ds, vs, r)
                &&& ts.no_duplicates() ==> r == Ok::<Entity, WorldError>(e)
                &&& !ts.no_duplicates() ==> r matches Err(WorldError::InsertAlreadyExists(_))
            },
            final(self).context() == old(self).context(),
            final(self).pending() == old(self).pending(),
            final(self).resources() == old(self).resources(),
    {
        let ta = type_id_of::<A>();
        let va = encode(&ta, &self.parent_tid, &self.children_tid, a);
        let da = ComponentDescriptor::of::<A>(false);
        let tb = type_id_of::<B>();
        let vb = encode(&tb, &self.parent_tid, &self.children_tid, b);
        let db = ComponentDescriptor::of::<B>(false);
        let tc = type_id_of::<C>();
        let vc = encode(&tc, &self.parent_tid, &self.children_tid, c);
        let dc = ComponentDescriptor::of::<C>(false);
        let tsv = vec![ta, tb, tc];
        let vsv = vec![va, vb, vc];
        let ghost ts = tsv@;
        let ghost vs = vsv@;
        let dsv = vec![da, db, dc];
        let ghost ds = dsv@;
        let r = self.create_from(tsv, dsv, vsv);
        proof {
            let e = choose|e: Entity| {
                &&& World::created_with(*old(self), *self, e, World::bundle_upto_repeat(ts, vs))
                &&& #[trigger] World::created_by_adds(*old(self), *self, e, ts, ds, vs, r)
                &&& ts.no_duplicates() ==> r == Ok::<Entity, WorldError>(e)
                &&& !ts.no_duplicates() ==> r matches Err(WorldError::InsertAlreadyExists(_))
            };
            assert(World::created_by_adds(*old(self), *self, e, ts, ds, vs, r));
        }
        r
    }

    /// Creates an entity with four initial components. A type given twice
    /// is an error after the entity was created with the components before
    /// the repeat.
    pub fn create4<A: 'static, B: 'static, C: 'static, D: 'static>(&mut self, a: A, b: B, c: C, d: D) -> (r: WorldResult<Entity>)
        requires
            old(self).wf(),
            old(self).can_reserve(),
        ensures
            final(self).wf(),
            exists|e: Entity, ts: Seq<TypeId>, ds: Seq<ComponentDescriptor>, vs: Seq<ComponentValue>| {
                &&& ts.len() == 4
                &&& ds.len() == 4
                &&& vs.len() == 4
                &&& World::created_with(*old(self), *final(self), e, World::bundle_upto_repeat(ts, vs))
                &&& #[trigger] World::created_by_adds(*old(self), *final(self), e, ts, ds, vs, r)
                &&& ts.no_duplicates() ==> r == Ok::<Entity, WorldError>(e)
                &&& !ts.no_duplicates() ==> r matches Err(WorldError::InsertAlreadyExists(_))
            },
            final(self).context() == old(self).context(),
            final(self).pending() == old(self).pending(),
            final(self).resources() == old(self).resources(),
    {
        let ta = type_id_of::<A>();
        let va = encode(&ta, &self.parent_tid, &self.children_tid, a);
        let da = ComponentDescriptor::of::<A>(false);
        let tb = type_id_of::<B>();
        let vb = encode(&tb, &self.parent_tid, &self.children_tid, b);
        let db = ComponentDescriptor::of::<B>(false);
        let tc = type_id_of::<C>();
        let vc = encode(&tc, &self.parent_tid, &self.children_tid, c);
        let dc = ComponentDescriptor::of::<C>(false);
        let td = type_id_of::<D>();
        let vd = encode(&td, &self.parent_tid, &self.children_tid, d);
        let dd = ComponentDescriptor::of::<D>(false);
        let tsv = vec![ta, tb, tc, td];
        let vsv = vec![va, vb, vc, vd];
        let ghost ts = tsv@;
        let ghost vs = vsv@;
        let dsv = vec![da, db, dc, dd];
        let ghost ds = dsv@;
        let r = self.create_from(tsv, dsv, vsv);
        proof {
            let e = choose|e: Entity| {
                &&& World::created_with(*old(self), *self, e, World::bundle_upto_repeat(ts, vs))
                &&& #[trigger] World::created_by_adds(*old(self), *self, e, ts, ds, vs, r)
                &&& ts.no_duplicates() ==> r == Ok::<Entity, WorldError>(e)
                &&& !ts.no_duplicates() ==> r matches Err(WorldError::InsertAlreadyExists(_))
            };
            assert(World::created_by_adds(*old(self), *self, e, ts, ds, vs, r));
        }
        r
    }

    /// Adds two components in one call, stopping at the first error.
    pub fn add_bundle2<A: 'static, B: 'static>(&mut self, entity: Entity, a: A, b: B) -> (r: WorldResult<()>)
        requires
            old(self).wf(),
        ensures
            final(self).wf(),
            exists|w1: World, r1: WorldResult<()>, ta: TypeId, da: ComponentDescriptor, va: ComponentValue,
                tb: TypeId, db: ComponentDescriptor, vb: ComponentValue|
                #[trigger] World::added_two(*old(self), *final(self), entity, w1, r1, ta, da, va, tb, db, vb, r),
            World::frame_kept(*old(self), *final(self)),
    {
        let ghost w0 = *self;
        let r1 = self.add(entity, a);
        let ghost w1 = *self;
        match r1 {
            Err(x) => {
                proof {
                    let (ta, da, va) = choose|t: TypeId, d: ComponentDescriptor, v: ComponentValue| World::add_outcome(w0, w1, entity, t, d, v, r1);
                    assert(World::added_two(*old(self), *self, entity, w1, r1, ta, da, va, ta, da, va, r1));
                }
                Err(x)
            },
            Ok(()) => {
                let r = self.add(entity, b);
                proof {
                    let (ta, da, va) = choose|t: TypeId, d: ComponentDescriptor, v: ComponentValue| World::add_outcome(w0, w1, entity, t, d, v, r1);
                    let (tb, db, vb) = choose|t: TypeId, d: ComponentDescriptor, v: ComponentValue| World::add_outcome(w1, *self, entity, t, d, v, r);
                    assert(World::added_two(*old(self), *self, entity, w1, r1, ta, da, va, tb, db, vb, r));
                }
                r
            },
        }
    }

    // ── resources ────────────────────────────────────────────────────────

    /// Position of a resource type in the resource table.
    fn find_resource(&self, t: &TypeId) -> (r: Option<usize>)
        requires
            self.wf(),
        ensures
            r is None <==> !self.res_ids@.contains(*t),
            r matches Some(k) ==> k < self.res_ids@.len() && self.res_ids@[k as int] == *t,
    {
        let mut k: usize = 0;
        while k < self.res_ids.len()
            invariant
                0 <= k <= self.res_ids@.len(),
                forall|j: int| 0 <= j < k ==> self.res_ids@[j] != *t,
            decreases self.res_ids@.len() - k,
        {
            if same_type_id(&self.res_ids[k], t) {
                return Some(k);
            }
            k = k + 1;
        }
        None
    }

    proof fn lemma_index_of_unique(ids: Seq<TypeId>, k: int)
        requires
            ids.no_duplicates(),
            0 <= k < ids.len(),
        ensures
            ids.index_of(ids[k]) == k,
    {
        let j = ids.index_of(ids[k]);
        assert(ids.contains(ids[k]));
    }

    /// The stored resource of type `t`, if any.
    pub fn resource(&self, t: &TypeId) -> (r: Option<&ErasedBox>)
        requires
            self.wf(),
        ensures
            r is None <==> !self.resources().contains_key(*t),
            r matches Some(b) ==> *b == self.resources()[*t],
    {
        match self.find_resource(t) {
            None => None,
            Some(k) => {
                proof { World::lemma_index_of_unique(self.res_ids@, k as int); }
                Some(&self.res_vals[k])
            },
        }
    }

    /// Inserts (or replaces) the resource of type `t`.
    pub fn insert_resource_value(&mut self, t: TypeId, value: ErasedBox)
        requires
            old(self).wf(),
        ensures
            final(self).wf(),
            final(self).resources() == old(self).resources().insert(t, value),
            final(self).view() == old(self).view(),
            final(self).registered() == old(self).registered(),
            final(self).descriptors() == old(self).descriptors(),
            final(self).events() == old(self).events(),
            final(self).context() == old(self).context(),
            final(self).pending() == old(self).pending(),
            final(self).issued() == old(self).issued(),
    {
        match self.find_resource(&t) {
            Some(k) => {
                self.res_vals.set(k, value);
                proof {
                    assert forall|u: TypeId| self.res_ids@.contains(u) implies
                        self.res_vals@[self.res_ids@.index_of(u)] == old(self).resources().insert(t, value)[u] by {
                        let j = self.res_ids@.index_of(u);
                        World::lemma_index_of_unique(self.res_ids@, j);
                        World::lemma_index_of_unique(self.res_ids@, k as int);
                    }
                    assert(self.resources() =~= old(self).resources().insert(t, value));
                }
            },
            None => {
                self.res_ids.push(t);
                self.res_vals.push(value);
                proof {
                    let n = old(self).res_ids@.len() as int;
                    assert forall|a: int, b: int| 0 <= a < self.res_ids@.len() && 0 <= b < self.res_ids@.len() && a != b
                        implies self.res_ids@[a] != self.res_ids@[b] by {
                        if a == n { assert(old(self).res_ids@.contains(self.res_ids@[b])); }
                        if b == n { assert(old(self).res_ids@.contains(self.res_ids@[a])); }
                    }
                    assert forall|u: TypeId| self.res_ids@.contains(u) implies
                        self.res_vals@[self.res_ids@.index_of(u)] == old(self).resources().insert(t, value)[u] by {
                        let j = self.res_ids@.index_of(u);
                        World::lemma_index_of_unique(self.res_ids@, j);
                        if u != t {
                            let j0 = old(self).res_ids@.index_of(u);
                            World::lemma_index_of_unique(old(self).res_ids@, j0);
                            World::lemma_index_of_unique(self.res_ids@, j0);
                        }
                    }
                    assert forall|u: TypeId| self.res_ids@.contains(u) <==> old(self).res_ids@.contains(u) || u == t by {
                        if self.res_ids@.contains(u) && u != t {
                            let j = choose|j: int| 0 <= j < self.res_ids@.len() && self.res_ids@[j] == u;
                            assert(old(self).res_ids@[j] == u);
                        }
                        if old(self).res_ids@.contains(u) {
                            let j = choose|j: int| 0 <= j < old(self).res_ids@.len() && old(self).res_ids@[j] == u;
                            assert(self.res_ids@[j] == u);
                        }
                        if u == t { assert(self.res_ids@[n] == t); }
                    }
                    assert(self.resources() =~= old(self).resources().insert(t, value));
                }
            },
        }
    }

    /// Removes the resource of type `t` (a no-op when absent).
    pub fn remove_resource_id(&mut self, t: &TypeId)
        requires
            old(self).wf(),
        ensures
            final(self).wf(),
            final(self).resources() == old(self).resources().remove(*t),
            final(self).view() == old(self).view(),
            final(self).registered() == old(self).registered(),
            final(self).descriptors() == old(self).descriptors(),
            final(self).events() == old(self).events(),
            final(self).context() == old(self).context(),
            final(self).pending() == old(self).pending(),
            final(self).issued() == old(self).issued(),
            final(self).parent_type() == old(self).parent_type(),
            final(self).children_type() == old(self).children_type(),
    {
        match self.find_resource(t) {
            None => {
                assert(old(self).resources().remove(*t) =~= old(self).resources());
            },
            Some(k) => {
                self.res_ids.remove(k);
                self.res_vals.remove(k);
                proof {
                    let o = old(self).res_ids@;
                    assert forall|a: int, b: int| 0 <= a < self.res_ids@.len() && 0 <= b < self.res_ids@.len() && a != b
                        implies self.res_ids@[a] != self.res_ids@[b] by {
                        let a0 = if a < k { a } else { a + 1 };
                        let b0 = if b < k { b } else { b + 1 };
                        assert(self.res_ids@[a] == o[a0]);
                        assert(self.res_ids@[b] == o[b0]);
                    }
                    assert forall|u: TypeId| self.res_ids@.contains(u) <==> (o.contains(u) && u != *t) by {
                        if self.res_ids@.contains(u) {
                            let j = choose|j: int| 0 <= j < self.res_ids@.len() && self.res_ids@[j] == u;
                            let j0 = if j < k { j } else { j + 1 };
                            assert(o[j0] == u);
                            World::lemma_index_of_unique(o, j0);
                            World::lemma_index_of_unique(o, k as int);
                        }
                        if o.contains(u) && u != *t {
                            let j0 = choose|j: int| 0 <= j < o.len() && o[j] == u;
                            assert(j0 != k);
                            let j = if j0 < k { j0 } else { j0 - 1 };
                            assert(self.res_ids@[j] == u);
                        }
                    }
                    assert forall|u: TypeId| self.res_ids@.contains(u) implies
                        self.res_vals@[self.res_ids@.index_of(u)] == old(self).resources()[u] by {
                        let j = self.res_ids@.index_of(u);
                        World::lemma_index_of_unique(self.res_ids@, j);
                        let j0 = if j < k { j } else { j + 1 };
                        assert(o[j0] == u);
                        World::lemma_index_of_unique(o, j0);
                    }
                    assert(self.resources() =~= old(self).resources().remove(*t));
                }
            },
        }
    }

    /// Inserts (or replaces) a singleton resource.
    pub fn insert_resource<R: 'static>(&mut self, value: R)
        requires
            old(self).wf(),
        ensures
            final(self).wf(),
            exists|t: TypeId, b: ErasedBox| #[trigger] old(self).resources().insert(t, b) == final(self).resources()
                && World::boxed(b, value) && World::identity_of::<R>(t),
            final(self).view() == old(self).view(),
            final(self).registered() == old(self).registered(),
            final(self).events() == old(self).events(),
    {
        let tid = type_id_of::<R>;
        let t = tid();
        let boxing = ErasedBox::new::<R>;
        let b = boxing(value);
        self.insert_resource_value(t, b);
    }

    /// `t` is an identity that `TypeId::of::<T>()` answered.
    pub closed spec fn identity_of<T: 'static>(t: TypeId) -> bool {
        call_ensures(type_id_of::<T>, (), t)
    }

    /// `b` is the box that erasing `v` gave (a call of `ErasedBox::new`
    /// on `v` answered `b`).
    pub closed spec fn boxed<T: 'static>(b: ErasedBox, v: T) -> bool {
        call_ensures(ErasedBox::new::<T>, (v,), b)
    }

    /// Shared access to a resource: `None` when absent.
    pub fn get_resource<R: 'static>(&self) -> (r: WorldResult<Option<&R>>)
        requires
            self.wf(),
        ensures
            r is Ok,
            exists|t: TypeId| #[trigger] self.resources().contains_key(t) || r == Ok::<Option<&R>, WorldError>(None),
    {
        let t = type_id_of::<R>();
        match self.resource(&t) {
            None => {
                assert(self.resources().contains_key(t) || Ok::<Option<&R>, WorldError>(None) == Ok::<Option<&R>, WorldError>(None));
                Ok(None)
            },
            Some(b) => Ok(b.downcast_ref::<R>()),
        }
    }

    /// The stored resource box at position `k`, borrowed mutably.
    fn resource_slot(&mut self, k: usize) -> (b: &mut ErasedBox)
        requires
            k < old(self).res_vals@.len(),
        ensures
            *b == old(self).res_vals@[k as int],
            final(self).res_vals@ == old(self).res_vals@.update(k as int, *final(b)),
            final(self).res_ids == old(self).res_ids,
            final(self).store == old(self).store,
            final(self).queue == old(self).queue,
            final(self).parent_tid == old(self).parent_tid,
            final(self).children_tid == old(self).children_tid,
            final(self).dirty_tid == old(self).dirty_tid,
            final(self).scene_ref_tid == old(self).scene_ref_tid,
            final(self).handed == old(self).handed,
    {
        &mut self.res_vals[k]
    }

    /// Mutable access to a resource: `None` when absent. At most the
    /// resource of type `R` changes.
    pub fn get_resource_mut<R: 'static>(&mut self) -> (r: WorldResult<Option<&mut R>>)
        requires
            old(self).wf(),
        ensures
            r is Ok,
            final(self).wf(),
            final(self).resources().dom() == old(self).resources().dom(),
            forall|u: TypeId, v: TypeId| u != v && #[trigger] old(self).resources().contains_key(u)
                && #[trigger] old(self).resources().contains_key(v)
                ==> final(self).resources()[u] == old(self).resources()[u] || final(self).resources()[v] == old(self).resources()[v],
            final(self).view() == old(self).view(),
            final(self).registered() == old(self).registered(),
            final(self).descriptors() == old(self).descriptors(),
            final(self).events() == old(self).events(),
            final(self).context() == old(self).context(),
            final(self).issued() == old(self).issued(),
            final(self).pending() == old(self).pending(),
            final(self).parent_type() == old(self).parent_type(),
            final(self).children_type() == old(self).children_type(),
    {
        let t = type_id_of::<R>();
        match self.find_resource(&t) {
            None => Ok(None),
            Some(k) => {
                proof {
                    assert forall|u: TypeId| #[trigger] old(self).resources().contains_key(u) == old(self).res_ids@.contains(u) by {}
                }
                proof {
                    assert forall|u: TypeId| #[trigger] self.res_ids@.contains(u)
                        implies self.res_ids@[self.res_ids@.index_of(u)] == u by {}
                }
                let b = self.resource_slot(k);
                Ok(b.downcast_mut::<R>())
            },
        }
    }

    /// Removes a resource.
    pub fn remove_resource<R: 'static>(&mut self)
        requires
            old(self).wf(),
        ensures
            final(self).wf(),
            exists|t: TypeId| #[trigger] old(self).resources().remove(t) == final(self).resources(),
            final(self).view() == old(self).view(),
            final(self).registered() == old(self).registered(),
            final(self).events() == old(self).events(),
    {
        let t = type_id_of::<R>();
        self.remove_resource_id(&t);
    }
}


impl World {
    proof fn lemma_prefix_step(ts: Seq<TypeId>, k: int)
        requires
            0 <= k < ts.len(),
            World::distinct_prefix(ts.take(k)) == k,
        ensures
            World::distinct_prefix(ts.take(k + 1)) == (if ts.take(k).contains(ts[k]) { k } else { k + 1 }),
    {
        assert(ts.take(k + 1).drop_last() =~= ts.take(k));
        assert(ts.take(k + 1).last() == ts[k]);
    }

    proof fn lemma_prefix_stays(ts: Seq<TypeId>, m: int, m2: int)
        requires
            0 <= m <= m2 <= ts.len(),
            World::distinct_prefix(ts.take(m)) < m,
        ensures
            World::distinct_prefix(ts.take(m2)) == World::distinct_prefix(ts.take(m)),
        decreases m2 - m,
    {
        if m2 > m {
            World::lemma_prefix_stays(ts, m, m2 - 1);
            assert(ts.take(m2).drop_last() =~= ts.take(m2 - 1));
        }
    }

    proof fn lemma_prefix_bound(ts: Seq<TypeId>)
        ensures
            World::distinct_prefix(ts) <= ts.len(),
        decreases ts.len(),
    {
        if ts.len() > 0 {
            World::lemma_prefix_bound(ts.drop_last());
        }
    }

    proof fn lemma_prefix_full(ts: Seq<TypeId>)
        ensures
            (World::distinct_prefix(ts) == ts.len()) == ts.no_duplicates(),
        decreases ts.len(),
    {
        if ts.len() > 0 {
            let d = ts.drop_last();
            World::lemma_prefix_full(d);
            World::lemma_prefix_bound(d);
            if ts.no_duplicates() {
                assert(d.no_duplicates()) by {
                    assert forall|a: int, b: int| 0 <= a < d.len() && 0 <= b < d.len() && a != b implies d[a] != d[b] by {
                        assert(d[a] == ts[a] && d[b] == ts[b]);
                    }
                }
                assert(!d.contains(ts.last())) by {
                    if d.contains(ts.last()) {
                        let j = choose|j: int| 0 <= j < d.len() && d[j] == ts.last();
                        assert(ts[j] == ts[ts.len() - 1]);
                    }
                }
            } else {
                if d.no_duplicates() && !d.contains(ts.last()) {
                    assert forall|a: int, b: int| 0 <= a < ts.len() && 0 <= b < ts.len() && a != b implies ts[a] != ts[b] by {
                        if a < ts.len() - 1 && b < ts.len() - 1 {
                            assert(d[a] == ts[a] && d[b] == ts[b]);
                        } else if a == ts.len() - 1 {
                            assert(d[b] == ts[b]);
                        } else {
                            assert(d[a] == ts[a]);
                        }
                    }
                }
            }
        }
    }

    proof fn lemma_bundle_dom(ts: Seq<TypeId>, vs: Seq<ComponentValue>)
        requires
            ts.len() == vs.len(),
        ensures
            forall|t: TypeId| #[trigger] World::bundle(ts, vs).contains_key(t) == ts.contains(t),
        decreases ts.len(),
    {
        if ts.len() > 0 {
            World::lemma_bundle_dom(ts.drop_last(), vs.drop_last());
            assert(World::bundle(ts, vs) == World::bundle(ts.drop_last(), vs.drop_last()).insert(ts.last(), vs.last()));
            assert forall|t: TypeId| #[trigger] World::bundle(ts, vs).contains_key(t) == ts.contains(t) by {
                assert(World::bundle(ts.drop_last(), vs.drop_last()).contains_key(t) == ts.drop_last().contains(t));
                if t == ts.last() {
                    assert(ts[ts.len() - 1] == t);
                }
                if ts.contains(t) && t != ts.last() {
                    let j = choose|j: int| 0 <= j < ts.len() && ts[j] == t;
                    assert(ts.drop_last()[j] == t);
                }
                if ts.drop_last().contains(t) {
                    let j = choose|j: int| 0 <= j < ts.drop_last().len() && ts.drop_last()[j] == t;
                    assert(ts[j] == t);
                }
            }
        }
    }

    /// Creates an entity and adds `vs[i]` under `ts[i]` in order, stopping at
    /// the first error.
    fn create_from(&mut self, ts: Vec<TypeId>, ds: Vec<ComponentDescriptor>, vs: Vec<ComponentValue>) -> (r: WorldResult<Entity>)
        requires
            old(self).wf(),
            old(self).can_reserve(),
            ts@.len() == ds@.len(),
            ts@.len() == vs@.len(),
        ensures
            final(self).wf(),
            exists|e: Entity| {
                &&& #[trigger] World::created_with(*old(self), *final(self), e, World::bundle_upto_repeat(ts@, vs@))
                &&& ts@.no_duplicates() ==> r == Ok::<Entity, WorldError>(e)
                &&& World::created_by_adds(*old(self), *final(self), e, ts@, ds@, vs@, r)
                &&& !ts@.no_duplicates() ==> r matches Err(WorldError::InsertAlreadyExists(_))
            },
            final(self).context() == old(self).context(),
            final(self).pending() == old(self).pending(),
            final(self).resources() == old(self).resources(),
    {
        let ghost ts0 = ts@;
        let ghost vs0 = vs@;
        let ghost ds0 = ds@;
        let mut vs = vs;
        let e = self.create_empty();
        let ghost w1 = *self;
        let mut k: usize = 0;
        let mut failed: Option<WorldError> = None;
        let ghost mut ws: Seq<World> = seq![w1];
        let ghost mut rs: Seq<WorldResult<()>> = Seq::empty();
        proof {
            assert(ts0.take(0) =~= Seq::<TypeId>::empty());
            assert(vs0.take(0) =~= Seq::<ComponentValue>::empty());
            assert(World::bundle(ts0.take(0), vs0.take(0)) =~= w1.view()[e]);
            assert(vs@ =~= vs0.skip(0));
        }
        while k < ts.len()
            invariant_except_break
                failed is None,
            invariant
                self.wf(),
                ts@ == ts0,
                ds@.len() == ts0.len(),
                vs0.len() == ts0.len(),
                0 <= k <= ts0.len(),
                failed is None ==> {
                    &&& vs@ == vs0.skip(k as int)
                    &&& World::distinct_prefix(ts0.take(k as int)) == k
                    &&& World::created_with(*old(self), *self, e, World::bundle(ts0.take(k as int), vs0.take(k as int)))
                },
                failed matches Some(x) ==> {
                    &&& x is InsertAlreadyExists
                    &&& World::distinct_prefix(ts0.take(k as int)) < k
                    &&& World::created_with(*old(self), *self, e, World::bundle_upto_repeat(ts0.take(k as int), vs0.take(k as int)))
                },
                ws.len() == rs.len() + 1,
                rs.len() == k,
                ws[0] == w1,
                ws.last() == *self,
                forall|i: int| 0 <= i < rs.len() ==> #[trigger] World::add_outcome(ws[i], ws[i + 1], e, ts0[i], ds0[i], vs0[i], rs[i]),
                forall|i: int| 0 <= i < rs.len() - 1 ==> #[trigger] rs[i] is Ok,
                failed is None ==> forall|i: int| 0 <= i < rs.len() ==> #[trigger] rs[i] is Ok,
                failed matches Some(x) ==> rs.len() > 0 && rs.last() == Err::<(), WorldError>(x),
                ds@ == ds0,
                World::created_empty(*old(self), w1, e),
                self.context() == old(self).context(),
                self.pending() == old(self).pending(),
                self.resources() == old(self).resources(),
                !old(self).view().contains_key(e),
                !old(self).issued().contains(e),
            ensures
                self.wf(),
                failed is None ==> k == ts0.len() && World::distinct_prefix(ts0.take(k as int)) == k
                    && World::created_with(*old(self), *self, e, World::bundle(ts0.take(k as int), vs0.take(k as int))),
                failed matches Some(x) ==> x is InsertAlreadyExists && World::distinct_prefix(ts0) < ts0.len()
                    && World::created_with(*old(self), *self, e, World::bundle_upto_repeat(ts0, vs0)),
                ws.len() == rs.len() + 1,
                rs.len() == k,
                ws[0] == w1,
                ws.last() == *self,
                forall|i: int| 0 <= i < rs.len() ==> #[trigger] World::add_outcome(ws[i], ws[i + 1], e, ts0[i], ds0[i], vs0[i], rs[i]),
                forall|i: int| 0 <= i < rs.len() - 1 ==> #[trigger] rs[i] is Ok,
                failed is None ==> forall|i: int| 0 <= i < rs.len() ==> #[trigger] rs[i] is Ok,
                failed matches Some(x) ==> rs.len() > 0 && rs.last() == Err::<(), WorldError>(x),
                self.context() == old(self).context(),
                self.pending() == old(self).pending(),
                self.resources() == old(self).resources(),
            decreases ts0.len() - k,
        {
            let v = vs.remove(0);
            let ghost w = *self;
            let rr = self.add_value(e, ts[k], ds[k], v);
            proof {
                World::lemma_bundle_dom(ts0.take(k as int), vs0.take(k as int));
                World::lemma_prefix_step(ts0, k as int);
                assert(v == vs0[k as int]);
                assert(ts0.take(k as int + 1).drop_last() =~= ts0.take(k as int));
                assert(vs0.take(k as int + 1).drop_last() =~= vs0.take(k as int));
                assert(vs0.take(k as int + 1).last() == vs0[k as int]);
                let ws0 = ws;
                let rs0 = rs;
                ws = ws.push(*self);
                rs = rs.push(rr);
                assert forall|i: int| 0 <= i < rs.len() implies #[trigger] World::add_outcome(ws[i], ws[i + 1], e, ts0[i], ds0[i], vs0[i], rs[i]) by {
                    if i < rs0.len() {
                        assert(ws[i] == ws0[i] && ws[i + 1] == ws0[i + 1] && rs[i] == rs0[i]);
                    }
                }
                assert forall|i: int| 0 <= i < rs.len() - 1 implies #[trigger] rs[i] is Ok by {
                    assert(rs[i] == rs0[i]);
                }
            }
            match rr {
                Ok(()) => {
                    proof {
                        assert(self.view() =~= old(self).view().insert(e, World::bundle(ts0.take(k as int + 1), vs0.take(k as int + 1))));
                        assert(vs@ =~= vs0.skip(k as int + 1));
                    }
                    k = k + 1;
                },
                Err(x) => {
                    proof {
                        World::lemma_prefix_stays(ts0, k as int + 1, ts0.len() as int);
                        assert(ts0.take(k as int + 1).take(k as int) =~= ts0.take(k as int));
                        assert(vs0.take(k as int + 1).take(k as int) =~= vs0.take(k as int));
                        assert(World::bundle_upto_repeat(ts0.take(k as int + 1), vs0.take(k as int + 1)) == World::bundle(ts0.take(k as int), vs0.take(k as int)));
                        assert(ts0.take(ts0.len() as int) =~= ts0);
                        assert(ts0.take(k as int).take(k as int) =~= ts0.take(k as int));
                        assert(vs0.take(k as int).take(k as int) =~= vs0.take(k as int));
                        assert(ts0.take(k as int) =~= ts0.take(k as int));
                        World::lemma_prefix_bound(ts0);
                        assert(World::distinct_prefix(ts0) == k);
                        assert(ts0.take(k as int) == ts0.take(World::distinct_prefix(ts0) as int));
                    }
                    failed = Some(x);
                    k = k + 1;
                    break;
                },
            }
        }
        proof {
            World::lemma_prefix_full(ts0);
            assert(ts0.take(ts0.len() as int) =~= ts0);
            assert(vs0.take(vs0.len() as int) =~= vs0);
            assert(ds0.take(ds0.len() as int) =~= ds0);
            if failed is None {
                assert(World::bundle_upto_repeat(ts0, vs0) == World::bundle(ts0, vs0));
            }
            assert(World::created_with(*old(self), *self, e, World::bundle_upto_repeat(ts0, vs0)));
        }
        let ghost gf = failed;
        let res = match failed {
            None => Ok(e),
            Some(x) => Err(x),
        };
        proof {
            assert(World::adds_made(ws, rs, e, ts0, ds0, vs0));
            assert(World::created_by_adds(*old(self), *self, e, ts0, ds0, vs0, res));
        }
        assert(ts0.no_duplicates() ==> res == Ok::<Entity, WorldError>(e));
        res
    }
}


impl World {
    // ── iteration / query ────────────────────────────────────────────────

    /// From `w0` to `w1` only values of the types in `ts` changed: the same
    /// entities with the same component types, every other value kept.
    pub open spec fn only_changed(w0: World, w1: World, ts: Set<TypeId>) -> bool {
        &&& w1.view().dom() == w0.view().dom()
        &&& forall|x: Entity| #[trigger] w0.view().contains_key(x) && !World::holds_all(w0.view()[x], ts)
            ==> w1.view()[x] == w0.view()[x]
        &&& forall|x: Entity| w0.view().contains_key(x) ==> #[trigger] w1.view()[x].dom() == w0.view()[x].dom()
        &&& forall|x: Entity, u: TypeId| w0.view().contains_key(x) && w0.view()[x].contains_key(u) && !ts.contains(u)
            ==> #[trigger] w1.view()[x][u] == w0.view()[x][u]
        &&& w1.registered() == w0.registered()
        &&& w1.descriptors() == w0.descriptors()
        &&& w1.events() == w0.events()
        &&& World::frame_kept(w0, w1)
    }

    /// The components hold a value of every type in `ts`.
    pub open spec fn holds_all(m: Map<TypeId, ComponentValue>, ts: Set<TypeId>) -> bool {
        forall|u: TypeId| #[trigger] ts.contains(u) ==> m.contains_key(u)
    }

    proof fn lemma_only_changed_refl(w: World, ts: Set<TypeId>)
        ensures
            World::only_changed(w, w, ts),
    {
    }

    proof fn lemma_only_changed_trans(w0: World, w1: World, w2: World, ts: Set<TypeId>)
        requires
            World::only_changed(w0, w1, ts),
            World::only_changed(w1, w2, ts),
        ensures
            World::only_changed(w0, w2, ts),
    {
        assert forall|x: Entity| #[trigger] w0.view().contains_key(x) && !World::holds_all(w0.view()[x], ts)
            implies w2.view()[x] == w0.view()[x] by {
            assert(w1.view().contains_key(x));
            assert(w1.view()[x].dom() == w0.view()[x].dom());
            assert(!World::holds_all(w1.view()[x], ts)) by {
                let u = choose|u: TypeId| #[trigger] ts.contains(u) && !w0.view()[x].contains_key(u);
                assert(!w1.view()[x].contains_key(u));
            }
        }
        assert forall|x: Entity| w0.view().contains_key(x) implies #[trigger] w2.view()[x].dom() == w0.view()[x].dom() by {
            assert(w1.view().contains_key(x));
            assert(w1.view()[x].dom() == w0.view()[x].dom());
        }
        assert forall|x: Entity, u: TypeId| w0.view().contains_key(x) && w0.view()[x].contains_key(u) && !ts.contains(u)
            implies #[trigger] w2.view()[x][u] == w0.view()[x][u] by {
            assert(w1.view().contains_key(x));
            assert(w1.view()[x].dom() == w0.view()[x].dom());
            assert(w1.view()[x].contains_key(u));
            assert(w1.view()[x][u] == w0.view()[x][u]);
        }
    }

    proof fn lemma_only_changed_write(w0: World, w1: World, e: Entity, t: TypeId, nv: ComponentValue, ts: Set<TypeId>)
        requires
            w0.view().contains_key(e),
            w0.view()[e].contains_key(t),
            ts.contains(t),
            World::holds_all(w0.view()[e], ts),
            w1.view() == w0.view().insert(e, w0.view()[e].insert(t, nv)),
            w1.registered() == w0.registered(),
            w1.descriptors() == w0.descriptors(),
            w1.events() == w0.events(),
            World::frame_kept(w0, w1),
        ensures
            World::only_changed(w0, w1, ts),
    {
        assert(w1.view().dom() =~= w0.view().dom());
        assert forall|x: Entity| w0.view().contains_key(x) implies #[trigger] w1.view()[x].dom() == w0.view()[x].dom() by {
            if x == e {
                assert(w0.view()[e].insert(t, nv).dom() =~= w0.view()[e].dom());
            }
        }
    }

    /// The live entities holding every type in `ts`, each once, in storage
    /// order.
    pub fn entities_having(&self, ts: &Vec<TypeId>) -> (out: Vec<Entity>)
        requires
            self.wf(),
        ensures
            out@.no_duplicates(),
            forall|x: Entity| #[trigger] out@.contains(x) <==> self.view().contains_key(x)
                && forall|j: int| 0 <= j < ts@.len() ==> #[trigger] self.view()[x].contains_key(ts@[j]),
            forall|k1: int, k2: int| 0 <= k1 < k2 < out@.len() ==>
                Store::loc_before(self.location(#[trigger] out@[k1]), self.location(#[trigger] out@[k2])),
    {
        let all = self.entities();
        let mut out: Vec<Entity> = Vec::new();
        let ghost mut idx: Seq<int> = Seq::empty();
        let mut k: usize = 0;
        while k < all.len()
            invariant
                self.wf(),
                0 <= k <= all@.len(),
                all@.no_duplicates(),
                forall|x: Entity| #[trigger] all@.contains(x) <==> self.view().contains_key(x),
                forall|k1: int, k2: int| 0 <= k1 < k2 < all@.len() ==>
                    Store::loc_before(self.location(#[trigger] all@[k1]), self.location(#[trigger] all@[k2])),
                idx.len() == out@.len(),
                forall|i: int| 0 <= i < idx.len() ==> 0 <= #[trigger] idx[i] < k && out@[i] == all@[idx[i]],
                forall|i1: int, i2: int| 0 <= i1 < i2 < idx.len() ==> #[trigger] idx[i1] < #[trigger] idx[i2],
                forall|x: Entity| #[trigger] out@.contains(x) <==> (exists|j: int| 0 <= j < k && all@[j] == x
                    && forall|q: int| 0 <= q < ts@.len() ==> #[trigger] self.view()[x].contains_key(ts@[q])),
            decreases all@.len() - k,
        {
            let e = all[k];
            assert(all@.contains(e));
            let mut ok = true;
            let mut j: usize = 0;
            while j < ts.len()
                invariant
                    self.wf(),
                    self.view().contains_key(e),
                    0 <= j <= ts@.len(),
                    ok == forall|q: int| 0 <= q < j ==> #[trigger] self.view()[e].contains_key(ts@[q]),
                decreases ts@.len() - j,
            {
                match self.contains_id(e, &ts[j]) {
                    Ok(b) => {
                        if !b {
                            ok = false;
                        }
                    },
                    Err(_) => {
                        ok = false;
                    },
                }
                proof {
                    if ok {
                        assert forall|q: int| 0 <= q < j + 1 implies #[trigger] self.view()[e].contains_key(ts@[q]) by {}
                    }
                }
                j = j + 1;
            }
            let ghost old_out = out@;
            if ok {
                out.push(e);
                proof { idx = idx.push(k as int); }
            }
            proof {
                assert forall|x: Entity| #[trigger] out@.contains(x) <==> (exists|j2: int| 0 <= j2 < k + 1 && all@[j2] == x
                    && forall|q: int| 0 <= q < ts@.len() ==> #[trigger] self.view()[x].contains_key(ts@[q])) by {
                    if out@.contains(x) {
                        if ok && x == e {
                            assert(all@[k as int] == x);
                        } else {
                            assert(old_out.contains(x)) by {
                                let i = choose|i: int| 0 <= i < out@.len() && out@[i] == x;
                                if ok && i == old_out.len() {
                                } else {
                                    assert(old_out[i] == x);
                                }
                            }
                        }
                    }
                    if exists|j2: int| 0 <= j2 < k + 1 && all@[j2] == x
                        && forall|q: int| 0 <= q < ts@.len() ==> #[trigger] self.view()[x].contains_key(ts@[q]) {
                        let j2 = choose|j2: int| 0 <= j2 < k + 1 && all@[j2] == x
                            && forall|q: int| 0 <= q < ts@.len() ==> #[trigger] self.view()[x].contains_key(ts@[q]);
                        if j2 == k {
                            assert(ok);
                            assert(out@[out@.len() - 1] == x);
                        } else {
                            assert(old_out.contains(x));
                            let i = choose|i: int| 0 <= i < old_out.len() && old_out[i] == x;
                            assert(out@[i] == x);
                        }
                    }
                }
            }
            k = k + 1;
        }
        proof {
            assert forall|k1: int, k2: int| 0 <= k1 < k2 < out@.len() implies
                Store::loc_before(self.location(#[trigger] out@[k1]), self.location(#[trigger] out@[k2])) by {
                assert(idx[k1] < idx[k2]);
                assert(all@[idx[k1]] == out@[k1]);
                assert(all@[idx[k2]] == out@[k2]);
            }
            assert forall|a: int, b: int| 0 <= a < out@.len() && 0 <= b < out@.len() && a != b implies out@[a] != out@[b] by {
                if a < b {
                    assert(idx[a] < idx[b]);
                    assert(all@[idx[a]] == out@[a]);
                    assert(all@[idx[b]] == out@[b]);
                } else {
                    assert(idx[b] < idx[a]);
                    assert(all@[idx[a]] == out@[a]);
                    assert(all@[idx[b]] == out@[b]);
                }
            }
            assert forall|x: Entity| #[trigger] out@.contains(x) implies self.view().contains_key(x) by {
                let j2 = choose|j2: int| 0 <= j2 < all@.len() && all@[j2] == x
                    && forall|q: int| 0 <= q < ts@.len() ==> #[trigger] self.view()[x].contains_key(ts@[q]);
                assert(all@.contains(x));
            }
            assert forall|x: Entity| self.view().contains_key(x)
                && (forall|q: int| 0 <= q < ts@.len() ==> #[trigger] self.view()[x].contains_key(ts@[q]))
                implies #[trigger] out@.contains(x) by {
                assert(all@.contains(x));
                let j2 = choose|j2: int| 0 <= j2 < all@.len() && all@[j2] == x;
            }
        }
        out
    }

    /// Iterates all entities holding component `T`, in storage order: each
    /// live holder's stored value is decoded as a `T` and, when it decodes,
    /// handed to `f` once together with that entity.
    pub fn iterate<T: 'static, F: FnMut(Entity, &T)>(&self, f: F)
        requires
            self.wf(),
            forall|e: Entity, x: &T| call_requires(f, (e, x)),
        ensures
            exists|t: TypeId, s: Seq<Entity>, rs: Seq<Option<&T>>|
                #![trigger World::listing(*self, seq![t], s), rs.len()]
                World::identity_of::<T>(t) && World::listing(*self, seq![t], s) && rs.len() == s.len()
                && forall|i: int| #![trigger s[i]] 0 <= i < s.len() ==>
                    call_ensures(decode_ref::<T>, (&self.view()[s[i]][t],), rs[i])
                        && (rs[i] is Some ==> call_ensures(f, (s[i], rs[i]->Some_0), ())),
    {
        let ghost f0 = f;
        let mut f = f;
        let tid = type_id_of::<T>;
        let t = tid();
        let ts = vec![t];
        let ents = self.entities_having(&ts);
        let dec = decode_ref::<T>;
        let mut k: usize = 0;
        let ghost mut rs: Seq<Option<&T>> = Seq::empty();
        proof {
            assert(ts@ =~= seq![t]);
        }
        while k < ents.len()
            invariant
                f == f0,
                self.wf(),
                0 <= k <= ents@.len(),
                forall|e: Entity, x: &T| call_requires(f, (e, x)),
                World::listing(*self, seq![t], ents@),
                rs.len() == k,
                forall|i: int| #![trigger ents@[i]] 0 <= i < k ==>
                    call_ensures(decode_ref::<T>, (&self.view()[ents@[i]][t],), rs[i])
                        && (rs[i] is Some ==> call_ensures(f, (ents@[i], rs[i]->Some_0), ())),
            decreases ents@.len() - k,
        {
            let e = ents[k];
            proof {
                assert(ents@[k as int] == e);
                assert(ents@.contains(e));
                assert(seq![t][0] == t);
            }
            let ghost mut rk: Option<&T> = None;
            match self.get_value(e, &t) {
                Ok(Some(cv)) => {
                    let r = dec(cv);
                    match r {
                        Some(x) => {
                            f(e, x);
                        },
                        None => {},
                    }
                    proof {
                        rk = r;
                    }
                },
                _ => {
                    assert(false);
                },
            }
            let ghost k0 = k;
            k = k + 1;
            proof {
                rs = rs.push(rk);
                assert forall|i: int| #![trigger ents@[i]] 0 <= i < k implies
                    call_ensures(decode_ref::<T>, (&self.view()[ents@[i]][t],), rs[i])
                        && (rs[i] is Some ==> call_ensures(f, (ents@[i], rs[i]->Some_0), ())) by {
                    if i < k0 {
                        assert(rs[i] == rs.drop_last()[i]);
                    }
                }
            }
        }
        proof {
            assert(World::listing(*self, seq![t], ents@));
            assert(rs.len() == ents@.len());
        }
    }
}


impl World {
    /// Swaps `slot` into the stored value of type `t` of `e`, handing the
    /// stored value back in `slot`.
    fn swap_value(&mut self, e: Entity, t: &TypeId, slot: &mut ComponentValue)
        requires
            old(self).wf(),
            old(self).view().contains_key(e),
            old(self).view()[e].contains_key(*t),
        ensures
            final(self).wf(),
            *final(slot) == old(self).view()[e][*t],
            final(self).view() == old(self).view().insert(e, old(self).view()[e].insert(*t, *old(slot))),
            final(self).handed_out() == old(self).handed_out(),
            final(self).registered() == old(self).registered(),
            final(self).descriptors() == old(self).descriptors(),
            final(self).events() == old(self).events(),
            World::frame_kept(*old(self), *final(self)),
    {
        let v = self.value_mut(e, t);
        std::mem::swap(v, slot);
    }

    /// Visiting `e` with value `v`: the value was decoded (mutably) as a
    /// `T`, and when it decoded, `f` was called with `e` and the decoded
    /// value.
    pub open spec fn visited1<T: 'static, F: FnMut(Entity, &mut T)>(f: F, e: Entity, v: ComponentValue) -> bool {
        exists|m: &mut ComponentValue, r: Option<&mut T>| #![trigger call_ensures(decode_mut::<T>, (m,), r)]
            *m == v && call_ensures(decode_mut::<T>, (m,), r)
            && (r is Some ==> exists|x: &mut T| #![trigger call_ensures(f, (e, x), ())]
                call_ensures(f, (e, x), ()) && *x == *r->Some_0)
    }

    /// From `w0` to `w1` a typed iteration over `t` visited, in storage
    /// order and each once, exactly the live holders of `t`, and handed each
    /// its own value.
    pub open spec fn called1<T: 'static, F: FnMut(Entity, &mut T)>(w0: World, w1: World, t: TypeId, f: F) -> bool {
        let ts = seq![t];
        exists|s: Seq<Entity>| #[trigger] World::listing(w0, ts, s)
            && w1.handed_out() == w0.handed_out() + s
            && forall|i: int| #![trigger s[i]] 0 <= i < s.len() ==> World::visited1::<T, F>(f, s[i], w0.view()[s[i]][t])
    }

    /// A typed mutable iteration hands every live holder of its type to its
    /// closure with that holder's own value.
    pub proof fn lemma_iterate_mut_visits_every_holder<T: 'static, F: FnMut(Entity, &mut T)>(
        w0: World, w1: World, t: TypeId, f: F, e: Entity,
    )
        requires
            World::called1::<T, F>(w0, w1, t, f),
            w0.view().contains_key(e),
            w0.view()[e].contains_key(t),
        ensures
            World::visited1::<T, F>(f, e, w0.view()[e][t]),
    {
        let ts = seq![t];
        let s = choose|s: Seq<Entity>| #[trigger] World::listing(w0, ts, s)
            && w1.handed_out() == w0.handed_out() + s
            && forall|i: int| #![trigger s[i]] 0 <= i < s.len() ==> World::visited1::<T, F>(f, s[i], w0.view()[s[i]][t]);
        assert(ts[0] == t);
        assert(s.contains(e));
        let i = choose|i: int| 0 <= i < s.len() && s[i] == e;
        assert(s[i] == e);
    }

    /// Iterates all entities holding component `T` mutably, in storage
    /// order. Only values of that type can change.
    pub fn iterate_mut<T: 'static, F: FnMut(Entity, &mut T)>(&mut self, f: F)
        requires
            old(self).wf(),
            forall|e: Entity, x: &mut T| call_requires(f, (e, x)),
        ensures
            final(self).wf(),
            exists|t: TypeId| #[trigger] World::only_changed(*old(self), *final(self), set![t])
                && World::identity_of::<T>(t)
                && World::handed_in_order(*old(self), *final(self), seq![t])
                && World::called1::<T, F>(*old(self), *final(self), t, f),
    {
        let ghost f0 = f;
        let mut f = f;
        let dec = decode_mut::<T>;
        let tid = type_id_of::<T>;
        let t = tid();
        let ts = vec![t];
        let ents = self.entities_having(&ts);
        let ghost changed = set![t];
        let mut k: usize = 0;
        proof {
            World::lemma_only_changed_refl(*self, changed);
            assert(ts@ =~= seq![t]);
            assert(ents@.take(0) =~= Seq::<Entity>::empty());
            assert(self.handed_out() =~= old(self).handed_out() + ents@.take(0));
        }
        while k < ents.len()
            invariant
                f == f0,
                forall|i: int| #![trigger ents@[i]] 0 <= i < k ==> World::visited1::<T, F>(f, ents@[i], old(self).view()[ents@[i]][t]),
                forall|j: int| #![trigger ents@[j]] k <= j < ents@.len() ==> self.view()[ents@[j]] == old(self).view()[ents@[j]],
                changed == set![t],
                self.wf(),
                0 <= k <= ents@.len(),
                forall|e: Entity, x: &mut T| call_requires(f, (e, x)),
                World::only_changed(*old(self), *self, changed),
                changed.contains(t),
                World::listing(*old(self), seq![t], ents@),
                self.handed_out() == old(self).handed_out() + ents@.take(k as int),
            decreases ents@.len() - k,
        {
            let e = ents[k];
            proof {
                assert(ents@.contains(e));
                assert(seq![t][0] == t);
                assert(self.view()[e].dom() == old(self).view()[e].dom());
                assert(self.view()[e].contains_key(t));
                assert(ents@.take(k as int + 1) =~= ents@.take(k as int).push(e));
            }
            if self.contains_entity(e) {
                match self.contains_id(e, &t) {
                    Ok(true) => {
                        proof {
                            self.handed@ = self.handed@.push(e);
                        }
                        let ghost w = *self;
                        let mut slot = ComponentValue::Parent(Parent { parent: None });
                        self.swap_value(e, &t, &mut slot);
                        let ghost v0 = slot;
                        let r = dec(&mut slot);
                        assert(exists|m: &mut ComponentValue| #[trigger] call_ensures(decode_mut::<T>, (m,), r) && *m == v0);
                        match r {
                            Some(x) => {
                                let ghost gx = *x;
                                f(e, x);
                                assert(exists|x2: &mut T| #[trigger] call_ensures(f, (e, x2), ()) && *x2 == gx);
                            },
                            None => {},
                        }
                        assert(World::visited1::<T, F>(f, e, v0));
                        let ghost w2 = *self;
                        let ghost sv = slot;
                        self.swap_value(e, &t, &mut slot);
                        proof {
                            assert(World::holds_all(w.view()[e], changed)) by {
                                assert forall|u: TypeId| #[trigger] changed.contains(u) implies w.view()[e].contains_key(u) by {}
                            }
                            World::lemma_only_changed_write(w, w2, e, t, ComponentValue::Parent(Parent { parent: None }), changed);
                            assert(w2.view()[e].contains_key(t));
                            assert(World::holds_all(w2.view()[e], changed));
                            World::lemma_only_changed_write(w2, *self, e, t, sv, changed);
                            assert(World::only_changed(w, *self, changed)) by {
                                World::lemma_only_changed_trans(w, w2, *self, changed);
                            }
                            World::lemma_only_changed_trans(*old(self), w, *self, changed);
                            assert(self.view() == w.view().insert(e, self.view()[e]));
                            assert(w.view()[e] == old(self).view()[e]);
                            assert(v0 == old(self).view()[e][t]);
                            assert forall|j: int| #![trigger ents@[j]] k + 1 <= j < ents@.len() implies
                                self.view()[ents@[j]] == old(self).view()[ents@[j]] by {
                                assert(ents@[j] != e);
                            }
                            assert forall|i: int| #![trigger ents@[i]] 0 <= i < k + 1 implies
                                World::visited1::<T, F>(f, ents@[i], old(self).view()[ents@[i]][t]) by {
                                if i == k {
                                    assert(ents@[i] == e);
                                }
                            }
                        }
                    },
                    _ => {
                        assert(false);
                    },
                }
            } else {
                assert(false);
            }
            k = k + 1;
        }
        proof {
            assert(ents@.take(ents@.len() as int) =~= ents@);
            assert(World::listing(*old(self), seq![t], ents@));
        }
        assert(World::only_changed(*old(self), *self, set![t]) && World::handed_in_order(*old(self), *self, seq![t]));
        assert(World::called1::<T, F>(*old(self), *self, t, f0));
    }
}


impl World {
    /// `s` lists the live entities of `w` holding every type of `ts`, each
    /// once, in storage order.
    pub open spec fn listing(w: World, ts: Seq<TypeId>, s: Seq<Entity>) -> bool {
        &&& s.no_duplicates()
        &&& forall|x: Entity| #[trigger] s.contains(x) <==> w.view().contains_key(x)
            && forall|j: int| 0 <= j < ts.len() ==> #[trigger] w.view()[x].contains_key(ts[j])
        &&& forall|k1: int, k2: int| 0 <= k1 < k2 < s.len() ==>
            Store::loc_before(w.location(#[trigger] s[k1]), w.location(#[trigger] s[k2]))
    }

    /// From `w0` to `w1` a query over `ts` handed out the components of
    /// the live entities holding all of `ts`, each once, in storage order.
    pub open spec fn handed_in_order(w0: World, w1: World, ts: Seq<TypeId>) -> bool {
        exists|s: Seq<Entity>| #[trigger] World::listing(w0, ts, s) && w1.handed_out() == w0.handed_out() + s
    }

    /// Outcome of a two-type query over `ta`, `tb`.
    pub open spec fn queried2(w0: World, w1: World, ta: TypeId, tb: TypeId, r: WorldResult<()>) -> bool {
        &&& ta == tb ==> (r matches Err(WorldError::BorrowConflict(_))) && w1 == w0
        &&& ta != tb ==> r is Ok && World::only_changed(w0, w1, set![ta, tb])
            && World::handed_in_order(w0, w1, seq![ta, tb])
    }

    /// Outcome of a three-type query over `ta`, `tb`, `tc`.
    pub open spec fn queried3(w0: World, w1: World, ta: TypeId, tb: TypeId, tc: TypeId, r: WorldResult<()>) -> bool {
        &&& (ta == tb || ta == tc || tb == tc) ==> (r matches Err(WorldError::BorrowConflict(_))) && w1 == w0
        &&& !(ta == tb || ta == tc || tb == tc) ==> r is Ok && World::only_changed(w0, w1, set![ta, tb, tc])
            && World::handed_in_order(w0, w1, seq![ta, tb, tc])
    }

    /// Whether a live entity has a value of type `t` (false when stale).
    fn has_value(&self, e: Entity, t: &TypeId) -> (b: bool)
        requires
            self.wf(),
        ensures
            b == (self.view().contains_key(e) && self.view()[e].contains_key(*t)),
    {
        match self.contains_id(e, t) {
            Ok(b) => b,
            Err(_) => false,
        }
    }

    /// Visiting `e` with values `va`, `vb`: each value was decoded (mutably)
    /// as an `A` and a `B`, and when both decoded, `f` was called with `e`
    /// and the two decoded values.
    pub open spec fn visited2<A: 'static, B: 'static, F: FnMut(Entity, &mut A, &mut B)>(
        f: F, e: Entity, va: ComponentValue, vb: ComponentValue,
    ) -> bool {
        exists|ma: &mut ComponentValue, ra: Option<&mut A>, mb: &mut ComponentValue, rb: Option<&mut B>|
            #![trigger call_ensures(decode_mut::<A>, (ma,), ra), call_ensures(decode_mut::<B>, (mb,), rb)]
            *ma == va && *mb == vb && call_ensures(decode_mut::<A>, (ma,), ra) && call_ensures(decode_mut::<B>, (mb,), rb)
            && (ra is Some && rb is Some ==> exists|x: &mut A, y: &mut B| #![trigger call_ensures(f, (e, x, y), ())]
                call_ensures(f, (e, x, y), ()) && *x == *ra->Some_0 && *y == *rb->Some_0)
    }

    /// From `w0` to `w1` a typed two-type join over `ta`, `tb` visited, in
    /// storage order and each once, exactly the live holders of both, and
    /// handed each its own two values.
    pub open spec fn called2<A: 'static, B: 'static, F: FnMut(Entity, &mut A, &mut B)>(
        w0: World, w1: World, ta: TypeId, tb: TypeId, f: F,
    ) -> bool {
        let ts = seq![ta, tb];
        exists|s: Seq<Entity>| #[trigger] World::listing(w0, ts, s)
            && w1.handed_out() == w0.handed_out() + s
            && forall|i: int| #![trigger s[i]] 0 <= i < s.len() ==>
                World::visited2::<A, B, F>(f, s[i], w0.view()[s[i]][ta], w0.view()[s[i]][tb])
    }

    /// A typed two-type join hands every live holder of both types to its
    /// closure with that holder's own two values, and hands nothing else.
    pub proof fn lemma_join2_visits_every_holder<A: 'static, B: 'static, F: FnMut(Entity, &mut A, &mut B)>(
        w0: World, w1: World, ta: TypeId, tb: TypeId, f: F, e: Entity,
    )
        requires
            World::called2::<A, B, F>(w0, w1, ta, tb, f),
            w0.view().contains_key(e),
            w0.view()[e].contains_key(ta),
            w0.view()[e].contains_key(tb),
        ensures
            World::visited2::<A, B, F>(f, e, w0.view()[e][ta], w0.view()[e][tb]),
            w1.handed_out().subrange(w0.handed_out().len() as int, w1.handed_out().len() as int).contains(e),
    {
        let ts = seq![ta, tb];
        let s = choose|s: Seq<Entity>| #[trigger] World::listing(w0, ts, s)
            && w1.handed_out() == w0.handed_out() + s
            && forall|i: int| #![trigger s[i]] 0 <= i < s.len() ==>
                World::visited2::<A, B, F>(f, s[i], w0.view()[s[i]][ta], w0.view()[s[i]][tb]);
        assert(ts[0] == ta && ts[1] == tb);
        assert(s.contains(e));
        let i = choose|i: int| 0 <= i < s.len() && s[i] == e;
        assert(s[i] == e);
        assert(w1.handed_out().subrange(w0.handed_out().len() as int, w1.handed_out().len() as int) =~= s);
    }

    /// Joins two components (intersection iteration), in storage order:
    /// every live entity holding both types has its two values taken out
    /// once, handed to `f`, and stored back (recorded in `handed_out`).
    ///
    /// Returns `Err(BorrowConflict)` when both parameters name the same
    /// component type (duplicate mutable access is rejected deterministically).
    /// `query2_ids` is the same join keyed by type identity, with the calls
    /// of its closure stated.
    pub fn query2<A: 'static, B: 'static, F: FnMut(Entity, &mut A, &mut B)>(&mut self, f: F) -> (r: WorldResult<()>)
        requires
            old(self).wf(),
            forall|e: Entity, a: &mut A, b: &mut B| call_requires(f, (e, a, b)),
        ensures
            final(self).wf(),
            exists|ta: TypeId, tb: TypeId| #[trigger] World::queried2(*old(self), *final(self), ta, tb, r)
                && World::identity_of::<A>(ta) && World::identity_of::<B>(tb)
                && (ta != tb ==> World::called2::<A, B, F>(*old(self), *final(self), ta, tb, f)),
    {
        let ghost f0 = f;
        let mut f = f;
        let dec_a = decode_mut::<A>;
        let dec_b = decode_mut::<B>;
        let ida = type_id_of::<A>;
        let idb = type_id_of::<B>;
        let ta = ida();
        let tb = idb();
        if same_type_id(&ta, &tb) {
            let r = Err(WorldError::BorrowConflict(NATIVE_NAME));
            assert(World::queried2(*old(self), *self, ta, tb, r));
            return r;
        }
        let ts = vec![ta, tb];
        let ents = self.entities_having(&ts);
        let ghost changed = set![ta, tb];
        let mut k: usize = 0;
        proof {
            World::lemma_only_changed_refl(*self, changed);
            assert(ts@ =~= seq![ta, tb]);
            assert(ents@.take(0) =~= Seq::<Entity>::empty());
            assert(self.handed_out() =~= old(self).handed_out() + ents@.take(0));
        }
        while k < ents.len()
            invariant
                f == f0,
                forall|i: int| #![trigger ents@[i]] 0 <= i < k ==>
                    World::visited2::<A, B, F>(f, ents@[i], old(self).view()[ents@[i]][ta], old(self).view()[ents@[i]][tb]),
                forall|j: int| #![trigger ents@[j]] k <= j < ents@.len() ==> self.view()[ents@[j]] == old(self).view()[ents@[j]],
                changed == set![ta, tb],
                self.wf(),
                0 <= k <= ents@.len(),
                forall|e: Entity, a: &mut A, b: &mut B| call_requires(f, (e, a, b)),
                World::only_changed(*old(self), *self, changed),
                changed.contains(ta),
                changed.contains(tb),
                ta != tb,
                World::listing(*old(self), seq![ta, tb], ents@),
                self.handed_out() == old(self).handed_out() + ents@.take(k as int),
            decreases ents@.len() - k,
        {
            let e = ents[k];
            proof {
                assert(ents@.contains(e));
                assert(seq![ta, tb][0] == ta && seq![ta, tb][1] == tb);
                assert(self.view()[e].dom() == old(self).view()[e].dom());
                assert(self.view()[e].contains_key(ta) && self.view()[e].contains_key(tb));
                assert(ents@.take(k as int + 1) =~= ents@.take(k as int).push(e));
            }
            if self.has_value(e, &ta) && self.has_value(e, &tb) {
                proof {
                    self.handed@ = self.handed@.push(e);
                }
                let ghost w0 = *self;
                let mut sa = ComponentValue::Parent(Parent { parent: None });
                let mut sb = ComponentValue::Parent(Parent { parent: None });
                self.swap_value(e, &ta, &mut sa);
                let ghost w1 = *self;
                self.swap_value(e, &tb, &mut sb);
                let ghost w2 = *self;
                let ghost va0 = sa;
                let ghost vb0 = sb;
                let ra = dec_a(&mut sa);
                assert(exists|m: &mut ComponentValue| #[trigger] call_ensures(decode_mut::<A>, (m,), ra) && *m == va0);
                let rb = dec_b(&mut sb);
                assert(exists|m: &mut ComponentValue| #[trigger] call_ensures(decode_mut::<B>, (m,), rb) && *m == vb0);
                match (ra, rb) {
                    (Some(x), Some(y)) => {
                        let ghost gx = *x;
                        let ghost gy = *y;
                        f(e, x, y);
                        assert(exists|x2: &mut A, y2: &mut B| #[trigger] call_ensures(f, (e, x2, y2), ()) && *x2 == gx && *y2 == gy);
                    },
                    _ => {},
                }
                assert(World::visited2::<A, B, F>(f, e, va0, vb0));
                let ghost va = sa;
                let ghost vb = sb;
                self.swap_value(e, &ta, &mut sa);
                let ghost w3 = *self;
                self.swap_value(e, &tb, &mut sb);
                proof {
                    assert(World::holds_all(w0.view()[e], changed)) by {
                        assert forall|u: TypeId| #[trigger] changed.contains(u) implies w0.view()[e].contains_key(u) by {}
                    }
                    World::lemma_only_changed_write(w0, w1, e, ta, ComponentValue::Parent(Parent { parent: None }), changed);
                    assert(World::holds_all(w1.view()[e], changed));
                    World::lemma_only_changed_write(w1, w2, e, tb, ComponentValue::Parent(Parent { parent: None }), changed);
                    assert(World::holds_all(w2.view()[e], changed));
                    World::lemma_only_changed_write(w2, w3, e, ta, va, changed);
                    assert(World::holds_all(w3.view()[e], changed));
                    World::lemma_only_changed_write(w3, *self, e, tb, vb, changed);
                    World::lemma_only_changed_trans(w0, w1, w2, changed);
                    World::lemma_only_changed_trans(w0, w2, w3, changed);
                    World::lemma_only_changed_trans(w0, w3, *self, changed);
                    World::lemma_only_changed_trans(*old(self), w0, *self, changed);
                    assert(self.view() == w0.view().insert(e, self.view()[e]));
                    assert(w0.view()[e] == old(self).view()[e]);
                    assert(va0 == old(self).view()[e][ta] && vb0 == old(self).view()[e][tb]);
                    assert forall|j: int| #![trigger ents@[j]] k + 1 <= j < ents@.len() implies
                        self.view()[ents@[j]] == old(self).view()[ents@[j]] by {
                        assert(ents@[j] != e);
                    }
                    assert forall|i: int| #![trigger ents@[i]] 0 <= i < k + 1 implies
                        World::visited2::<A, B, F>(f, ents@[i], old(self).view()[ents@[i]][ta], old(self).view()[ents@[i]][tb]) by {
                        if i == k {
                            assert(ents@[i] == e);
                        }
                    }
                }
            } else {
                assert(false);
            }
            k = k + 1;
        }
        proof {
            assert(ents@.take(ents@.len() as int) =~= ents@);
            assert(World::listing(*old(self), seq![ta, tb], ents@));
        }
        assert(World::queried2(*old(self), *self, ta, tb, Ok(())));
        assert(World::called2::<A, B, F>(*old(self), *self, ta, tb, f0));
        Ok(())
    }

    /// Visiting `e` with values `va`, `vb`, `vc`: each value was decoded
    /// (mutably) as an `A`, a `B` and a `C`, and when all three decoded, `f`
    /// was called with `e` and the three decoded values.
    pub open spec fn visited3<A: 'static, B: 'static, C: 'static, F: FnMut(Entity, &mut A, &mut B, &mut C)>(
        f: F, e: Entity, va: ComponentValue, vb: ComponentValue, vc: ComponentValue,
    ) -> bool {
        exists|ma: &mut ComponentValue, ra: Option<&mut A>, mb: &mut ComponentValue, rb: Option<&mut B>,
            mc: &mut ComponentValue, rc: Option<&mut C>|
            #![trigger call_ensures(decode_mut::<A>, (ma,), ra), call_ensures(decode_mut::<B>, (mb,), rb),
                call_ensures(decode_mut::<C>, (mc,), rc)]
            *ma == va && *mb == vb && *mc == vc
            && call_ensures(decode_mut::<A>, (ma,), ra) && call_ensures(decode_mut::<B>, (mb,), rb)
            && call_ensures(decode_mut::<C>, (mc,), rc)
            && (ra is Some && rb is Some && rc is Some ==> exists|x: &mut A, y: &mut B, z: &mut C|
                #![trigger call_ensures(f, (e, x, y, z), ())]
                call_ensures(f, (e, x, y, z), ()) && *x == *ra->Some_0 && *y == *rb->Some_0 && *z == *rc->Some_0)
    }

    /// From `w0` to `w1` a typed three-type join over `ta`, `tb`, `tc`
    /// visited, in storage order and each once, exactly the live holders of
    /// all three, and handed each its own three values.
    pub open spec fn called3<A: 'static, B: 'static, C: 'static, F: FnMut(Entity, &mut A, &mut B, &mut C)>(
        w0: World, w1: World, ta: TypeId, tb: TypeId, tc: TypeId, f: F,
    ) -> bool {
        let ts = seq![ta, tb, tc];
        exists|s: Seq<Entity>| #[trigger] World::listing(w0, ts, s)
            && w1.handed_out() == w0.handed_out() + s
            && forall|i: int| #![trigger s[i]] 0 <= i < s.len() ==>
                World::visited3::<A, B, C, F>(f, s[i], w0.view()[s[i]][ta], w0.view()[s[i]][tb], w0.view()[s[i]][tc])
    }

    /// A typed three-type join hands every live holder of all three types to
    /// its closure with that holder's own three values.
    pub proof fn lemma_join3_visits_every_holder<A: 'static, B: 'static, C: 'static, F: FnMut(Entity, &mut A, &mut B, &mut C)>(
        w0: World, w1: World, ta: TypeId, tb: TypeId, tc: TypeId, f: F, e: Entity,
    )
        requires
            World::called3::<A, B, C, F>(w0, w1, ta, tb, tc, f),
            w0.view().contains_key(e),
            w0.view()[e].contains_key(ta),
            w0.view()[e].contains_key(tb),
            w0.view()[e].contains_key(tc),
        ensures
            World::visited3::<A, B, C, F>(f, e, w0.view()[e][ta], w0.view()[e][tb], w0.view()[e][tc]),
    {
        let ts = seq![ta, tb, tc];
        let s = choose|s: Seq<Entity>| #[trigger] World::listing(w0, ts, s)
            && w1.handed_out() == w0.handed_out() + s
            && forall|i: int| #![trigger s[i]] 0 <= i < s.len() ==>
                World::visited3::<A, B, C, F>(f, s[i], w0.view()[s[i]][ta], w0.view()[s[i]][tb], w0.view()[s[i]][tc]);
        assert(ts[0] == ta && ts[1] == tb && ts[2] == tc);
        assert(s.contains(e));
        let i = choose|i: int| 0 <= i < s.len() && s[i] == e;
        assert(s[i] == e);
    }

    /// Joins three components (intersection iteration), in storage order:
    /// every live entity holding all three types has its values taken out
    /// once, handed to `f`, and stored back (recorded in `handed_out`).
    ///
    /// Returns `Err(BorrowConflict)` when any two parameters name the same
    /// component type (duplicate mutable access is rejected deterministically).
    /// `query3_ids` is the same join keyed by type identity, with the calls
    /// of its closure stated.
    pub fn query3<A: 'static, B: 'static, C: 'static, F: FnMut(Entity, &mut A, &mut B, &mut C)>(&mut self, f: F) -> (r: WorldResult<()>)
        requires
            old(self).wf(),
            forall|e: Entity, a: &mut A, b: &mut B, c: &mut C| call_requires(f, (e, a, b, c)),
        ensures
            final(self).wf(),
            exists|ta: TypeId, tb: TypeId, tc: TypeId| #[trigger] World::queried3(*old(self), *final(self), ta, tb, tc, r)
                && World::identity_of::<A>(ta) && World::identity_of::<B>(tb) && World::identity_of::<C>(tc)
                && (!(ta == tb || ta == tc || tb == tc) ==> World::called3::<A, B, C, F>(*old(self), *final(self), ta, tb, tc, f)),
    {
        let ghost f0 = f;
        let mut f = f;
        let dec_a = decode_mut::<A>;
        let dec_b = decode_mut::<B>;
        let dec_c = decode_mut::<C>;
        let ida = type_id_of::<A>;
        let idb = type_id_of::<B>;
        let idc = type_id_of::<C>;
        let ta = ida();
        let tb = idb();
        let tc = idc();
        if same_type_id(&ta, &tb) || same_type_id(&ta, &tc) || same_type_id(&tb, &tc) {
            let r = Err(WorldError::BorrowConflict(NATIVE_NAME));
            assert(World::queried3(*old(self), *self, ta, tb, tc, r));
            return r;
        }
        let ts = vec![ta, tb, tc];
        let ents = self.entities_having(&ts);
        let ghost changed = set![ta, tb, tc];
        let mut k: usize = 0;
        proof {
            World::lemma_only_changed_refl(*self, changed);
            assert(ts@ =~= seq![ta, tb, tc]);
            assert(ents@.take(0) =~= Seq::<Entity>::empty());
            assert(self.handed_out() =~= old(self).handed_out() + ents@.take(0));
        }
        while k < ents.len()
            invariant
                f == f0,
                forall|i: int| #![trigger ents@[i]] 0 <= i < k ==>
                    World::visited3::<A, B, C, F>(f, ents@[i], old(self).view()[ents@[i]][ta], old(self).view()[ents@[i]][tb],
                        old(self).view()[ents@[i]][tc]),
                forall|j: int| #![trigger ents@[j]] k <= j < ents@.len() ==> self.view()[ents@[j]] == old(self).view()[ents@[j]],
                changed == set![ta, tb, tc],
                self.wf(),
                0 <= k <= ents@.len(),
                forall|e: Entity, a: &mut A, b: &mut B, c: &mut C| call_requires(f, (e, a, b, c)),
                World::only_changed(*old(self), *self, changed),
                changed.contains(ta),
                changed.contains(tb),
                changed.contains(tc),
                ta != tb,
                ta != tc,
                tb != tc,
                World::listing(*old(self), seq![ta, tb, tc], ents@),
                self.handed_out() == old(self).handed_out() + ents@.take(k as int),
            decreases ents@.len() - k,
        {
            let e = ents[k];
            proof {
                assert(ents@.contains(e));
                assert(seq![ta, tb, tc][0] == ta && seq![ta, tb, tc][1] == tb && seq![ta, tb, tc][2] == tc);
                assert(self.view()[e].dom() == old(self).view()[e].dom());
                assert(self.view()[e].contains_key(ta) && self.view()[e].contains_key(tb) && self.view()[e].contains_key(tc));
                assert(ents@.take(k as int + 1) =~= ents@.take(k as int).push(e));
            }
            if self.has_value(e, &ta) && self.has_value(e, &tb) && self.has_value(e, &tc) {
                proof {
                    self.handed@ = self.handed@.push(e);
                }
                let ghost w0 = *self;
                let mut sa = ComponentValue::Parent(Parent { parent: None });
                let mut sb = ComponentValue::Parent(Parent { parent: None });
                let mut sc = ComponentValue::Parent(Parent { parent: None });
                self.swap_value(e, &ta, &mut sa);
                let ghost w1 = *self;
                self.swap_value(e, &tb, &mut sb);
                let ghost w2 = *self;
                self.swap_value(e, &tc, &mut sc);
                let ghost w3 = *self;
                let ghost va0 = sa;
                let ghost vb0 = sb;
                let ghost vc0 = sc;
                let ra = dec_a(&mut sa);
                assert(exists|m: &mut ComponentValue| #[trigger] call_ensures(decode_mut::<A>, (m,), ra) && *m == va0);
                let rb = dec_b(&mut sb);
                assert(exists|m: &mut ComponentValue| #[trigger] call_ensures(decode_mut::<B>, (m,), rb) && *m == vb0);
                let rc = dec_c(&mut sc);
                assert(exists|m: &mut ComponentValue| #[trigger] call_ensures(decode_mut::<C>, (m,), rc) && *m == vc0);
                match (ra, rb, rc) {
                    (Some(x), Some(y), Some(z)) => {
                        let ghost gx = *x;
                        let ghost gy = *y;
                        let ghost gz = *z;
                        f(e, x, y, z);
                        assert(exists|x2: &mut A, y2: &mut B, z2: &mut C| #[trigger] call_ensures(f, (e, x2, y2, z2), ())
                            && *x2 == gx && *y2 == gy && *z2 == gz);
                    },
                    _ => {},
                }
                assert(World::visited3::<A, B, C, F>(f, e, va0, vb0, vc0));
                let ghost va = sa;
                let ghost vb = sb;
                let ghost vc = sc;
                self.swap_value(e, &ta, &mut sa);
                let ghost w4 = *self;
                self.swap_value(e, &tb, &mut sb);
                let ghost w5 = *self;
                self.swap_value(e, &tc, &mut sc);
                proof {
                    let p = ComponentValue::Parent(Parent { parent: None });
                    assert(World::holds_all(w0.view()[e], changed)) by {
                        assert forall|u: TypeId| #[trigger] changed.contains(u) implies w0.view()[e].contains_key(u) by {}
                    }
                    World::lemma_only_changed_write(w0, w1, e, ta, p, changed);
                    assert(World::holds_all(w1.view()[e], changed));
                    World::lemma_only_changed_write(w1, w2, e, tb, p, changed);
                    assert(World::holds_all(w2.view()[e], changed));
                    World::lemma_only_changed_write(w2, w3, e, tc, p, changed);
                    assert(World::holds_all(w3.view()[e], changed));
                    World::lemma_only_changed_write(w3, w4, e, ta, va, changed);
                    assert(World::holds_all(w4.view()[e], changed));
                    World::lemma_only_changed_write(w4, w5, e, tb, vb, changed);
                    assert(World::holds_all(w5.view()[e], changed));
                    World::lemma_only_changed_write(w5, *self, e, tc, vc, changed);
                    World::lemma_only_changed_trans(w0, w1, w2, changed);
                    World::lemma_only_changed_trans(w0, w2, w3, changed);
                    World::lemma_only_changed_trans(w0, w3, w4, changed);
                    World::lemma_only_changed_trans(w0, w4, w5, changed);
                    World::lemma_only_changed_trans(w0, w5, *self, changed);
                    World::lemma_only_changed_trans(*old(self), w0, *self, changed);
                    assert(self.view() == w0.view().insert(e, self.view()[e]));
                    assert(w0.view()[e] == old(self).view()[e]);
                    assert(va0 == old(self).view()[e][ta] && vb0 == old(self).view()[e][tb] && vc0 == old(self).view()[e][tc]);
                    assert forall|j: int| #![trigger ents@[j]] k + 1 <= j < ents@.len() implies
                        self.view()[ents@[j]] == old(self).view()[ents@[j]] by {
                        assert(ents@[j] != e);
                    }
                    assert forall|i: int| #![trigger ents@[i]] 0 <= i < k + 1 implies
                        World::visited3::<A, B, C, F>(f, ents@[i], old(self).view()[ents@[i]][ta], old(self).view()[ents@[i]][tb],
                            old(self).view()[ents@[i]][tc]) by {
                        if i == k {
                            assert(ents@[i] == e);
                        }
                    }
                }
            } else {
                assert(false);
            }
            k = k + 1;
        }
        proof {
            assert(ents@.take(ents@.len() as int) =~= ents@);
            assert(World::listing(*old(self), seq![ta, tb, tc], ents@));
        }
        assert(World::queried3(*old(self), *self, ta, tb, tc, Ok(())));
        assert(World::called3::<A, B, C, F>(*old(self), *self, ta, tb, tc, f0));
        Ok(())
    }
}


impl World {
    /// From `w0` to `w1` a three-type query over `ta`, `tb`, `tc` visited
    /// the entities `s` (the live holders of all three, each once, in
    /// storage order): each visited entity's three values were handed to `f`
    /// and replaced by what `f` gave back; nothing else changed.
    pub open spec fn ran3<F: FnMut(Entity, ComponentValue, ComponentValue, ComponentValue) -> (ComponentValue, ComponentValue, ComponentValue)>(
        w0: World, w1: World, ta: TypeId, tb: TypeId, tc: TypeId, f: F, s: Seq<Entity>,
    ) -> bool {
        &&& World::listing(w0, seq![ta, tb, tc], s)
        &&& w1.handed_out() == w0.handed_out() + s
        &&& World::only_changed(w0, w1, set![ta, tb, tc])
        &&& forall|i: int| #![trigger s[i]] 0 <= i < s.len() ==> call_ensures(f,
            (s[i], w0.view()[s[i]][ta], w0.view()[s[i]][tb], w0.view()[s[i]][tc]),
            (w1.view()[s[i]][ta], w1.view()[s[i]][tb], w1.view()[s[i]][tc]))
    }

    /// From `w0` to `w1` a two-type query over `ta`, `tb` visited the
    /// entities `s`: each visited entity's two values were handed to `f` and
    /// replaced by what `f` gave back; nothing else changed.
    pub open spec fn ran2<F: FnMut(Entity, ComponentValue, ComponentValue) -> (ComponentValue, ComponentValue)>(
        w0: World, w1: World, ta: TypeId, tb: TypeId, f: F, s: Seq<Entity>,
    ) -> bool {
        &&& World::listing(w0, seq![ta, tb], s)
        &&& w1.handed_out() == w0.handed_out() + s
        &&& World::only_changed(w0, w1, set![ta, tb])
        &&& forall|i: int| #![trigger s[i]] 0 <= i < s.len() ==> call_ensures(f,
            (s[i], w0.view()[s[i]][ta], w0.view()[s[i]][tb]),
            (w1.view()[s[i]][ta], w1.view()[s[i]][tb]))
    }

    /// The three-type join keyed by type identity: every live entity
    /// holding values of `ta`, `tb` and `tc` is visited once, in storage
    /// order; its three values are taken out, handed to `f` with the entity,
    /// and what `f` returns is stored in their place.
    ///
    /// Returns `Err(BorrowConflict)`, with the world untouched and `f` never
    /// called, exactly when two of the identities are the same.
    pub fn query3_ids<F: FnMut(Entity, ComponentValue, ComponentValue, ComponentValue) -> (ComponentValue, ComponentValue, ComponentValue)>(
        &mut self, ta: TypeId, tb: TypeId, tc: TypeId, f: F,
    ) -> (r: WorldResult<()>)
        requires
            old(self).wf(),
            forall|e: Entity, a: ComponentValue, b: ComponentValue, c: ComponentValue| call_requires(f, (e, a, b, c)),
        ensures
            final(self).wf(),
            (r matches Err(WorldError::BorrowConflict(_))) <==> (ta == tb || ta == tc || tb == tc),
            (ta == tb || ta == tc || tb == tc) ==> *final(self) == *old(self),
            !(ta == tb || ta == tc || tb == tc) ==> r is Ok
                && exists|s: Seq<Entity>| #[trigger] World::ran3(*old(self), *final(self), ta, tb, tc, f, s),
    {
        let ghost f0 = f;
        let mut f = f;
        if same_type_id(&ta, &tb) || same_type_id(&ta, &tc) || same_type_id(&tb, &tc) {
            return Err(WorldError::BorrowConflict(NATIVE_NAME));
        }
        let ts = vec![ta, tb, tc];
        let ents = self.entities_having(&ts);
        let ghost changed = set![ta, tb, tc];
        let ghost w_in = *old(self);
        let mut k: usize = 0;
        proof {
            World::lemma_only_changed_refl(*self, changed);
            assert(ts@ =~= seq![ta, tb, tc]);
            assert(ents@.take(0) =~= Seq::<Entity>::empty());
            assert(self.handed_out() =~= old(self).handed_out() + ents@.take(0));
        }
        while k < ents.len()
            invariant
                f == f0,
                w_in == *old(self),
                changed == set![ta, tb, tc],
                self.wf(),
                0 <= k <= ents@.len(),
                forall|e: Entity, a: ComponentValue, b: ComponentValue, c: ComponentValue| call_requires(f, (e, a, b, c)),
                World::only_changed(w_in, *self, changed),
                ta != tb,
                ta != tc,
                tb != tc,
                World::listing(w_in, seq![ta, tb, tc], ents@),
                self.handed_out() == w_in.handed_out() + ents@.take(k as int),
                forall|j: int| #![trigger ents@[j]] k <= j < ents@.len() ==> self.view()[ents@[j]] == w_in.view()[ents@[j]],
                forall|i: int| #![trigger ents@[i]] 0 <= i < k ==> call_ensures(f,
                    (ents@[i], w_in.view()[ents@[i]][ta], w_in.view()[ents@[i]][tb], w_in.view()[ents@[i]][tc]),
                    (self.view()[ents@[i]][ta], self.view()[ents@[i]][tb], self.view()[ents@[i]][tc])),
            decreases ents@.len() - k,
        {
            let e = ents[k];
            proof {
                assert(ents@[k as int] == e);
                assert(ents@.contains(e));
                assert(seq![ta, tb, tc][0] == ta && seq![ta, tb, tc][1] == tb && seq![ta, tb, tc][2] == tc);
                assert(self.view()[e] == w_in.view()[e]);
                assert(self.view()[e].contains_key(ta) && self.view()[e].contains_key(tb) && self.view()[e].contains_key(tc));
                assert(ents@.take(k as int + 1) =~= ents@.take(k as int).push(e));
            }
            proof {
                self.handed@ = self.handed@.push(e);
            }
            let ghost w0 = *self;
            let mut sa = ComponentValue::Parent(Parent { parent: None });
            let mut sb = ComponentValue::Parent(Parent { parent: None });
            let mut sc = ComponentValue::Parent(Parent { parent: None });
            self.swap_value(e, &ta, &mut sa);
            let ghost w1 = *self;
            self.swap_value(e, &tb, &mut sb);
            let ghost w2 = *self;
            self.swap_value(e, &tc, &mut sc);
            let ghost w3 = *self;
            let (na, nb, nc) = f(e, sa, sb, sc);
            let mut na = na;
            let mut nb = nb;
            let mut nc = nc;
            let ghost va = na;
            let ghost vb = nb;
            let ghost vc = nc;
            self.swap_value(e, &ta, &mut na);
            let ghost w4 = *self;
            self.swap_value(e, &tb, &mut nb);
            let ghost w5 = *self;
            self.swap_value(e, &tc, &mut nc);
            proof {
                let p = ComponentValue::Parent(Parent { parent: None });
                assert(World::holds_all(w0.view()[e], changed)) by {
                    assert forall|u: TypeId| #[trigger] changed.contains(u) implies w0.view()[e].contains_key(u) by {}
                }
                World::lemma_only_changed_write(w0, w1, e, ta, p, changed);
                assert(World::holds_all(w1.view()[e], changed));
                World::lemma_only_changed_write(w1, w2, e, tb, p, changed);
                assert(World::holds_all(w2.view()[e], changed));
                World::lemma_only_changed_write(w2, w3, e, tc, p, changed);
                assert(World::holds_all(w3.view()[e], changed));
                World::lemma_only_changed_write(w3, w4, e, ta, va, changed);
                assert(World::holds_all(w4.view()[e], changed));
                World::lemma_only_changed_write(w4, w5, e, tb, vb, changed);
                assert(World::holds_all(w5.view()[e], changed));
                World::lemma_only_changed_write(w5, *self, e, tc, vc, changed);
                World::lemma_only_changed_trans(w0, w1, w2, changed);
                World::lemma_only_changed_trans(w0, w2, w3, changed);
                World::lemma_only_changed_trans(w0, w3, w4, changed);
                World::lemma_only_changed_trans(w0, w4, w5, changed);
                World::lemma_only_changed_trans(w0, w5, *self, changed);
                World::lemma_only_changed_trans(w_in, w0, *self, changed);
                assert(self.view()[e][ta] == va);
                assert(self.view()[e][tb] == vb);
                assert(self.view()[e][tc] == vc);
                assert(self.view() == w0.view().insert(e, self.view()[e]));
                assert forall|j: int| #![trigger ents@[j]] k + 1 <= j < ents@.len() implies self.view()[ents@[j]] == w_in.view()[ents@[j]] by {
                    assert(ents@[j] != e);
                }
                assert forall|i: int| #![trigger ents@[i]] 0 <= i < k + 1 implies call_ensures(f,
                    (ents@[i], w_in.view()[ents@[i]][ta], w_in.view()[ents@[i]][tb], w_in.view()[ents@[i]][tc]),
                    (self.view()[ents@[i]][ta], self.view()[ents@[i]][tb], self.view()[ents@[i]][tc])) by {
                    if i < k {
                        assert(ents@[i] != e);
                    }
                }
            }
            k = k + 1;
        }
        proof {
            assert(ents@.take(ents@.len() as int) =~= ents@);
            assert(World::ran3(*old(self), *self, ta, tb, tc, f0, ents@));
        }
        Ok(())
    }
}


impl World {
    /// The two-type join keyed by type identity: every live entity holding
    /// values of `ta` and `tb` is visited once, in storage order; its two
    /// values are taken out, handed to `f` with the entity, and what `f`
    /// returns is stored in their place.
    ///
    /// Returns `Err(BorrowConflict)`, with the world untouched and `f` never
    /// called, exactly when the two identities are the same.
    pub fn query2_ids<F: FnMut(Entity, ComponentValue, ComponentValue) -> (ComponentValue, ComponentValue)>(
        &mut self, ta: TypeId, tb: TypeId, f: F,
    ) -> (r: WorldResult<()>)
        requires
            old(self).wf(),
            forall|e: Entity, a: ComponentValue, b: ComponentValue| call_requires(f, (e, a, b)),
        ensures
            final(self).wf(),
            (r matches Err(WorldError::BorrowConflict(_))) <==> ta == tb,
            ta == tb ==> *final(self) == *old(self),
            ta != tb ==> r is Ok && exists|s: Seq<Entity>| #[trigger] World::ran2(*old(self), *final(self), ta, tb, f, s),
    {
        let ghost f0 = f;
        let mut f = f;
        if same_type_id(&ta, &tb) {
            return Err(WorldError::BorrowConflict(NATIVE_NAME));
        }
        let ts = vec![ta, tb];
        let ents = self.entities_having(&ts);
        let ghost changed = set![ta, tb];
        let ghost w_in = *old(self);
        let mut k: usize = 0;
        proof {
            World::lemma_only_changed_refl(*self, changed);
            assert(ts@ =~= seq![ta, tb]);
            assert(ents@.take(0) =~= Seq::<Entity>::empty());
            assert(self.handed_out() =~= old(self).handed_out() + ents@.take(0));
        }
        while k < ents.len()
            invariant
                f == f0,
                w_in == *old(self),
                changed == set![ta, tb],
                self.wf(),
                0 <= k <= ents@.len(),
                forall|e: Entity, a: ComponentValue, b: ComponentValue| call_requires(f, (e, a, b)),
                World::only_changed(w_in, *self, changed),
                ta != tb,
                World::listing(w_in, seq![ta, tb], ents@),
                self.handed_out() == w_in.handed_out() + ents@.take(k as int),
                forall|j: int| #![trigger ents@[j]] k <= j < ents@.len() ==> self.view()[ents@[j]] == w_in.view()[ents@[j]],
                forall|i: int| #![trigger ents@[i]] 0 <= i < k ==> call_ensures(f,
                    (ents@[i], w_in.view()[ents@[i]][ta], w_in.view()[ents@[i]][tb]),
                    (self.view()[ents@[i]][ta], self.view()[ents@[i]][tb])),
            decreases ents@.len() - k,
        {
            let e = ents[k];
            proof {
                assert(ents@[k as int] == e);
                assert(ents@.contains(e));
                assert(seq![ta, tb][0] == ta && seq![ta, tb][1] == tb);
                assert(self.view()[e] == w_in.view()[e]);
                assert(self.view()[e].contains_key(ta) && self.view()[e].contains_key(tb));
                assert(ents@.take(k as int + 1) =~= ents@.take(k as int).push(e));
            }
            proof {
                self.handed@ = self.handed@.push(e);
            }
            let ghost w0 = *self;
            let mut sa = ComponentValue::Parent(Parent { parent: None });
            let mut sb = ComponentValue::Parent(Parent { parent: None });
            self.swap_value(e, &ta, &mut sa);
            let ghost w1 = *self;
            self.swap_value(e, &tb, &mut sb);
            let ghost w2 = *self;
            let (na, nb) = f(e, sa, sb);
            let mut na = na;
            let mut nb = nb;
            let ghost va = na;
            let ghost vb = nb;
            self.swap_value(e, &ta, &mut na);
            let ghost w3 = *self;
            self.swap_value(e, &tb, &mut nb);
            proof {
                let p = ComponentValue::Parent(Parent { parent: None });
                assert(World::holds_all(w0.view()[e], changed)) by {
                    assert forall|u: TypeId| #[trigger] changed.contains(u) implies w0.view()[e].contains_key(u) by {}
                }
                World::lemma_only_changed_write(w0, w1, e, ta, p, changed);
                assert(World::holds_all(w1.view()[e], changed));
                World::lemma_only_changed_write(w1, w2, e, tb, p, changed);
                assert(World::holds_all(w2.view()[e], changed));
                World::lemma_only_changed_write(w2, w3, e, ta, va, changed);
                assert(World::holds_all(w3.view()[e], changed));
                World::lemma_only_changed_write(w3, *self, e, tb, vb, changed);
                World::lemma_only_changed_trans(w0, w1, w2, changed);
                World::lemma_only_changed_trans(w0, w2, w3, changed);
                World::lemma_only_changed_trans(w0, w3, *self, changed);
                World::lemma_only_changed_trans(w_in, w0, *self, changed);
                assert(self.view()[e][ta] == va);
                assert(self.view()[e][tb] == vb);
                assert(self.view() == w0.view().insert(e, self.view()[e]));
                assert forall|j: int| #![trigger ents@[j]] k + 1 <= j < ents@.len() implies self.view()[ents@[j]] == w_in.view()[ents@[j]] by {
                    assert(ents@[j] != e);
                }
                assert forall|i: int| #![trigger ents@[i]] 0 <= i < k + 1 implies call_ensures(f,
                    (ents@[i], w_in.view()[ents@[i]][ta], w_in.view()[ents@[i]][tb]),
                    (self.view()[ents@[i]][ta], self.view()[ents@[i]][tb])) by {
                    if i < k {
                        assert(ents@[i] != e);
                    }
                }
            }
            k = k + 1;
        }
        proof {
            assert(ents@.take(ents@.len() as int) =~= ents@);
            assert(World::ran2(*old(self), *self, ta, tb, f0, ents@));
        }
        Ok(())
    }

    /// Visits every live entity holding a value of `t` once, in storage
    /// order, handing `f` the entity and that value. The world is not
    /// changed.
    pub fn iterate_ids<F: FnMut(Entity, &ComponentValue)>(&self, t: TypeId, f: F)
        requires
            self.wf(),
            forall|e: Entity, v: &ComponentValue| call_requires(f, (e, v)),
        ensures
            exists|s: Seq<Entity>| #[trigger] World::listing(*self, seq![t], s)
                && forall|i: int| #![trigger s[i]] 0 <= i < s.len() ==> call_ensures(f, (s[i], &self.view()[s[i]][t]), ()),
    {
        let ghost f0 = f;
        let mut f = f;
        let ts = vec![t];
        let ents = self.entities_having(&ts);
        let mut k: usize = 0;
        proof {
            assert(ts@ =~= seq![t]);
        }
        while k < ents.len()
            invariant
                f == f0,
                self.wf(),
                0 <= k <= ents@.len(),
                forall|e: Entity, v: &ComponentValue| call_requires(f, (e, v)),
                World::listing(*self, seq![t], ents@),
                forall|i: int| #![trigger ents@[i]] 0 <= i < k ==> call_ensures(f, (ents@[i], &self.view()[ents@[i]][t]), ()),
            decreases ents@.len() - k,
        {
            let e = ents[k];
            proof {
                assert(ents@[k as int] == e);
                assert(ents@.contains(e));
                assert(seq![t][0] == t);
            }
            match self.get_value(e, &t) {
                Ok(Some(v)) => {
                    f(e, v);
                },
                _ => {
                    assert(false);
                },
            }
            k = k + 1;
        }
        proof {
            assert(World::listing(*self, seq![t], ents@));
        }
    }
}


impl World {
    // ── commands ─────────────────────────────────────────────────────────

    /// Everything observable but the command queue is the same.
    pub open spec fn same_state(w0: World, w1: World) -> bool {
        &&& w1.view() == w0.view()
        &&& w1.registered() == w0.registered()
        &&& w1.descriptors() == w0.descriptors()
        &&& w1.events() == w0.events()
        &&& w1.context() == w0.context()
        &&& w1.issued() == w0.issued()
        &&& w1.resources() == w0.resources()
        &&& w1.parent_type() == w0.parent_type()
        &&& w1.children_type() == w0.children_type()
    }

    /// Only `c` was queued.
    pub open spec fn only_queued(w0: World, w1: World, c: Command) -> bool {
        &&& World::same_state(w0, w1)
        &&& w1.pending() == w0.pending().push(c)
    }

    /// A fresh handle `e` was reserved and `c` queued.
    pub open spec fn reserved_and_queued(w0: World, w1: World, e: Entity, c: Command) -> bool {
        &&& w1.view() == w0.view()
        &&& w1.registered() == w0.registered()
        &&& w1.descriptors() == w0.descriptors()
        &&& w1.events() == w0.events()
        &&& w1.context() == w0.context()
        &&& w1.resources() == w0.resources()
        &&& !w0.issued().contains(e)
        &&& w1.issued() == w0.issued().insert(e)
        &&& w1.holds_slot(e)
        &&& !w1.view().contains_key(e)
        &&& w1.pending() == w0.pending().push(c)
    }

    /// Queues a command for the next flush.
    pub(crate) fn push_command(&mut self, c: Command)
        requires
            old(self).wf(),
            c.wf(),
        ensures
            final(self).wf(),
            World::only_queued(*old(self), *final(self), c),
            forall|x: Entity| #[trigger] final(self).holds_slot(x) == old(self).holds_slot(x),
    {
        self.queue.push(c);
    }

    /// A value of type `T` as the world stores it, with its type identity
    /// and descriptor.
    pub(crate) fn encode_value<T: 'static>(&self, value: T) -> (r: (TypeId, ComponentDescriptor, ComponentValue))
        ensures
            r.1.size as nat == vstd::layout::size_of::<T>(),
            r.1.align as nat == vstd::layout::align_of::<T>(),
            !r.1.scriptable,
            r.1.drop_fn == Some(DropGlue),
            r.1.hooks.is_none(),
            r.2 is Parent ==> r.0 == self.parent_type(),
            r.2 is Children ==> r.0 == self.children_type() && r.0 != self.parent_type(),
            r.0 != self.parent_type() && r.0 != self.children_type() ==> r.2 is Other,
    {
        let t = type_id_of::<T>();
        let v = encode(&t, &self.parent_tid, &self.children_tid, value);
        (t, ComponentDescriptor::of::<T>(false), v)
    }

    /// Returns a deferred command builder for the current system.
    pub fn commands(&mut self) -> (c: Commands<'_>)
        ensures
            c.world() == *old(self),
    {
        Commands::new(self)
    }

    /// The component map and outcome of adding `vs[i]` under `ts[i]` in
    /// order to an entity holding `m`, stopping at the first type it
    /// already holds.
    pub open spec fn adds(m: Map<TypeId, ComponentValue>, ts: Seq<TypeId>, vs: Seq<ComponentValue>) -> (Map<TypeId, ComponentValue>, bool)
        decreases ts.len(),
    {
        if ts.len() == 0 || vs.len() == 0 {
            (m, true)
        } else {
            let (m1, ok) = World::adds(m, ts.drop_last(), vs.drop_last());
            if !ok || m1.contains_key(ts.last()) { (m1, false) } else { (m1.insert(ts.last(), vs.last()), true) }
        }
    }

    /// What a queued creation of `e` with `vs` under `ts` does.
    pub open spec fn create_step(w0: World, w1: World, e: Entity, ts: Seq<TypeId>, vs: Seq<ComponentValue>, r: WorldResult<()>) -> bool {
        let m = if w0.holds_slot(e) && !w0.view().contains_key(e) { w0.view().insert(e, Map::empty()) } else { w0.view() };
        &&& !m.contains_key(e) && ts.len() > 0 ==> r == Err::<(), WorldError>(WorldError::StaleEntity) && w1.view() == m
        &&& !m.contains_key(e) && ts.len() == 0 ==> r is Ok && w1.view() == m
        &&& m.contains_key(e) ==> {
            &&& w1.view() == m.insert(e, World::adds(m[e], ts, vs).0)
            &&& World::adds(m[e], ts, vs).1 ==> r is Ok
            &&& !World::adds(m[e], ts, vs).1 ==> r matches Err(WorldError::InsertAlreadyExists(_))
        }
    }

    /// What applying one command does.
    pub open spec fn step(w0: World, c: Command, w1: World, r: WorldResult<()>) -> bool {
        match c {
            Command::Create { entity, types, values, .. } => World::create_step(w0, w1, entity, types@, values@, r),
            Command::Add { entity, ty, desc, value } => World::add_outcome(w0, w1, entity, ty, desc, value, r),
            Command::Remove { entity, ty } => World::remove_outcome(w0, w1, entity, ty, r),
            Command::Destroy { entity } => r is Ok && w1.view() == w0.view().remove(entity),
            Command::InsertResource { ty, resource } => r is Ok && w1.view() == w0.view() && w1.resources() == w0.resources().insert(ty, resource),
            Command::Run(_) => r is Ok,
        }
    }

    /// The first error among `rs`, or `Ok`.
    pub open spec fn first_error(rs: Seq<WorldResult<()>>) -> WorldResult<()>
        decreases rs.len(),
    {
        if rs.len() == 0 {
            Ok(())
        } else if World::first_error(rs.drop_last()) is Err {
            World::first_error(rs.drop_last())
        } else {
            rs.last()
        }
    }

    /// The answer of a run of commands is `Ok` exactly when every command
    /// answered `Ok`; otherwise it is the answer of the first one that failed.
    pub proof fn lemma_first_error(rs: Seq<WorldResult<()>>)
        ensures
            World::first_error(rs) is Ok <==> forall|i: int| 0 <= i < rs.len() ==> #[trigger] rs[i] is Ok,
            World::first_error(rs) is Err ==> exists|i: int| 0 <= i < rs.len() && rs[i] == World::first_error(rs)
                && forall|j: int| 0 <= j < i ==> #[trigger] rs[j] is Ok,
        decreases rs.len(),
    {
        if rs.len() > 0 {
            let p = rs.drop_last();
            World::lemma_first_error(p);
            assert forall|i: int| 0 <= i < p.len() implies #[trigger] p[i] == rs[i] by {}
            if World::first_error(p) is Err {
                let i = choose|i: int| 0 <= i < p.len() && p[i] == World::first_error(p)
                    && forall|j: int| 0 <= j < i ==> #[trigger] p[j] is Ok;
                assert(rs[i] == World::first_error(rs));
                assert forall|j: int| 0 <= j < i implies #[trigger] rs[j] is Ok by {
                    assert(p[j] is Ok);
                }
                assert(!(rs[i] is Ok));
            } else {
                assert(forall|j: int| 0 <= j < p.len() ==> #[trigger] p[j] is Ok);
                if World::first_error(rs) is Err {
                    let i = rs.len() - 1;
                    assert forall|j: int| 0 <= j < i implies #[trigger] rs[j] is Ok by {
                        assert(p[j] is Ok);
                    }
                }
                assert forall|i: int| 0 <= i < rs.len() && World::first_error(rs) is Ok implies #[trigger] rs[i] is Ok by {
                    if i < p.len() { assert(p[i] is Ok); }
                }
            }
        }
    }

    /// Flushing an empty queue answers `Ok` and leaves the world's state as
    /// it was; so a flush right after one that emptied the queue does
    /// nothing.
    pub proof fn lemma_flush_empty_queue(w0: World, w1: World, ws: Seq<World>, rs: Seq<WorldResult<()>>, r: WorldResult<()>)
        requires
            World::flushed(w0, w1, ws, rs, r),
            w0.pending().len() == 0,
        ensures
            r is Ok,
            World::same_state(w0, w1),
    {
    }

    /// A flush of `w0`'s queue went through the worlds `ws`, the commands
    /// answering `rs`, and ended in `w1` answering `r`.
    pub open spec fn flushed(w0: World, w1: World, ws: Seq<World>, rs: Seq<WorldResult<()>>, r: WorldResult<()>) -> bool {
        &&& ws.len() == w0.pending().len() + 1
        &&& rs.len() == w0.pending().len()
        &&& World::same_state(w0, ws[0])
        &&& forall|i: int| 0 <= i < rs.len() ==> #[trigger] World::step(ws[i], w0.pending()[i], ws[i + 1], rs[i])
        &&& w1 == ws.last()
        &&& r == World::first_error(rs)
    }

    /// Adds `vs[i]` under `ts[i]` in order to `e`, stopping at the first
    /// error.
    fn add_each(&mut self, e: Entity, ts: Vec<TypeId>, ds: Vec<ComponentDescriptor>, vs: Vec<ComponentValue>) -> (r: WorldResult<()>)
        requires
            old(self).wf(),
            ts@.len() == ds@.len(),
            ts@.len() == vs@.len(),
        ensures
            final(self).wf(),
            !old(self).view().contains_key(e) && ts@.len() > 0 ==> r == Err::<(), WorldError>(WorldError::StaleEntity) && final(self).view() == old(self).view(),
            !old(self).view().contains_key(e) && ts@.len() == 0 ==> r is Ok && final(self).view() == old(self).view(),
            old(self).view().contains_key(e) ==> {
                &&& final(self).view() == old(self).view().insert(e, World::adds(old(self).view()[e], ts@, vs@).0)
                &&& World::adds(old(self).view()[e], ts@, vs@).1 ==> r is Ok
                &&& !World::adds(old(self).view()[e], ts@, vs@).1 ==> r matches Err(WorldError::InsertAlreadyExists(_))
            },
            final(self).pending() == old(self).pending(),
            final(self).context() == old(self).context(),
            final(self).resources() == old(self).resources(),
            forall|x: Entity| #[trigger] final(self).holds_slot(x) == old(self).holds_slot(x),
    {
        let ghost ts0 = ts@;
        let ghost vs0 = vs@;
        let ghost live = old(self).view().contains_key(e);
        let ghost m0 = old(self).view()[e];
        let mut vs = vs;
        let mut k: usize = 0;
        let mut res: WorldResult<()> = Ok(());
        proof {
            assert(ts0.take(0) =~= Seq::<TypeId>::empty());
            assert(vs0.take(0) =~= Seq::<ComponentValue>::empty());
            assert(vs@ =~= vs0.skip(0));
            if live {
                assert(old(self).view().insert(e, m0) =~= old(self).view());
            }
            if ts0.len() == 0 {
                assert(ts0.take(0) =~= ts0);
                assert(vs0.take(0) =~= vs0);
            }
        }
        while k < ts.len()
            invariant_except_break
                res is Ok,
            invariant
                self.wf(),
                ts@ == ts0,
                ds@.len() == ts0.len(),
                vs0.len() == ts0.len(),
                0 <= k <= ts0.len(),
                res is Ok ==> vs@ == vs0.skip(k as int),
                live == old(self).view().contains_key(e),
                m0 == old(self).view()[e],
                !live ==> self.view() == old(self).view() && k == 0,
                live && res is Ok ==> self.view() == old(self).view().insert(e, World::adds(m0, ts0.take(k as int), vs0.take(k as int)).0)
                    && World::adds(m0, ts0.take(k as int), vs0.take(k as int)).1,
                k == ts0.len() ==> ts0.take(k as int) == ts0 && vs0.take(k as int) == vs0,
                self.pending() == old(self).pending(),
                self.context() == old(self).context(),
                self.resources() == old(self).resources(),
                forall|x: Entity| #[trigger] self.holds_slot(x) == old(self).holds_slot(x),
            ensures
                self.wf(),
                !live && ts0.len() > 0 ==> res == Err::<(), WorldError>(WorldError::StaleEntity) && self.view() == old(self).view(),
                !live && ts0.len() == 0 ==> res is Ok && self.view() == old(self).view(),
                live ==> {
                    &&& self.view() == old(self).view().insert(e, World::adds(m0, ts0, vs0).0)
                    &&& World::adds(m0, ts0, vs0).1 ==> res is Ok
                    &&& !World::adds(m0, ts0, vs0).1 ==> res matches Err(WorldError::InsertAlreadyExists(_))
                },
                self.pending() == old(self).pending(),
                self.context() == old(self).context(),
                self.resources() == old(self).resources(),
                forall|x: Entity| #[trigger] self.holds_slot(x) == old(self).holds_slot(x),
            decreases ts0.len() - k,
        {
            let v = vs.remove(0);
            let ghost w = *self;
            let rr = self.add_value(e, ts[k], ds[k], v);
            proof {
                assert(v == vs0[k as int]);
                assert(ts0.take(k as int + 1).drop_last() =~= ts0.take(k as int));
                assert(vs0.take(k as int + 1).drop_last() =~= vs0.take(k as int));
                assert(ts0.take(k as int + 1).last() == ts0[k as int]);
                assert(vs0.take(k as int + 1).last() == vs0[k as int]);
                World::lemma_adds_stuck(m0, ts0, vs0, k as int + 1);
            }
            match rr {
                Ok(()) => {
                    proof {
                        assert(self.view() =~= old(self).view().insert(e, World::adds(m0, ts0.take(k as int + 1), vs0.take(k as int + 1)).0));
                        assert(vs@ =~= vs0.skip(k as int + 1));
                    }
                    k = k + 1;
                    proof {
                        if k == ts0.len() {
                            assert(ts0.take(k as int) =~= ts0);
                            assert(vs0.take(k as int) =~= vs0);
                        }
                    }
                },
                Err(x) => {
                    res = Err(x);
                    proof {
                        if live {
                            assert(w.view().contains_key(e));
                            assert(w.view()[e] == World::adds(m0, ts0.take(k as int), vs0.take(k as int)).0);
                            assert(w.view()[e].contains_key(ts0[k as int]));
                            assert(World::adds(m0, ts0.take(k as int + 1), vs0.take(k as int + 1)) == (w.view()[e], false));
                            assert(self.view() =~= old(self).view().insert(e, World::adds(m0, ts0.take(k as int + 1), vs0.take(k as int + 1)).0));
                        }
                        assert(ts0.take(ts0.len() as int) =~= ts0);
                        assert(vs0.take(vs0.len() as int) =~= vs0);
                    }
                    break;
                },
            }
        }
        res
    }

    /// Once adding stops, adding more changes nothing.
    proof fn lemma_adds_stuck(m: Map<TypeId, ComponentValue>, ts: Seq<TypeId>, vs: Seq<ComponentValue>, j: int)
        requires
            0 <= j <= ts.len(),
            ts.len() == vs.len(),
        ensures
            !World::adds(m, ts.take(j), vs.take(j)).1 ==> World::adds(m, ts, vs) == World::adds(m, ts.take(j), vs.take(j)),
        decreases ts.len() - j,
    {
        if j < ts.len() {
            World::lemma_adds_stuck(m, ts, vs, j + 1);
            assert(ts.take(j + 1).drop_last() =~= ts.take(j));
            assert(vs.take(j + 1).drop_last() =~= vs.take(j));
        } else {
            assert(ts.take(j) =~= ts);
            assert(vs.take(j) =~= vs);
        }
    }

    /// Applies one command.
    fn apply(&mut self, c: Command) -> (r: WorldResult<()>)
        requires
            old(self).wf(),
            c.wf(),
        ensures
            final(self).wf(),
            World::step(*old(self), c, *final(self), r),
            !(c is Run) ==> final(self).pending() == old(self).pending(),
    {
        match c {
            Command::Create { entity, types, descs, values } => {
                let ghost w0 = *self;
                self.create_into(entity);
                let r = self.add_each(entity, types, descs, values);
                r
            },
            Command::Add { entity, ty, desc, value } => self.add_value(entity, ty, desc, value),
            Command::Remove { entity, ty } => self.remove_id(entity, ty),
            Command::Destroy { entity } => self.destroy(entity),
            Command::InsertResource { ty, resource } => {
                self.insert_resource_value(ty, resource);
                Ok(())
            },
            Command::Run(d) => {
                d.call(self);
                Ok(())
            },
        }
    }

    /// Applies all queued commands in order (called at system boundaries).
    ///
    /// Every queued command runs once (order preserved); the FIRST error
    /// raised by any command is returned, matching the synchronous API
    /// semantics. The queue is empty afterwards unless a deferred closure
    /// queued new commands while it ran.
    pub fn flush_commands(&mut self) -> (r: WorldResult<()>)
        requires
            old(self).wf(),
        ensures
            final(self).wf(),
            exists|ws: Seq<World>, rs: Seq<WorldResult<()>>| #[trigger] World::flushed(*old(self), *final(self), ws, rs, r),
            (forall|i: int| 0 <= i < old(self).pending().len() ==> !(#[trigger] old(self).pending()[i] is Run))
                ==> final(self).pending() == Seq::<Command>::empty(),
    {
        let pending = self.queue.take();
        let ghost cs = pending@;
        let ghost mut ws: Seq<World> = seq![*self];
        let ghost mut rs: Seq<WorldResult<()>> = Seq::empty();
        let mut pending = pending;
        let mut first: WorldResult<()> = Ok(());
        let mut k: usize = 0;
        let n = pending.len();
        proof { assert(pending@ =~= cs.skip(0)); }
        while k < n
            invariant
                self.wf(),
                n == cs.len(),
                cs == old(self).pending(),
                0 <= k <= n,
                pending@ == cs.skip(k as int),
                forall|i: int| 0 <= i < cs.len() ==> #[trigger] cs[i].wf(),
                ws.len() == k + 1,
                rs.len() == k,
                World::same_state(*old(self), ws[0]),
                forall|i: int| 0 <= i < k ==> #[trigger] World::step(ws[i], cs[i], ws[i + 1], rs[i]),
                ws.last() == *self,
                first == World::first_error(rs),
                (forall|i: int| 0 <= i < k ==> !(#[trigger] cs[i] is Run)) ==> self.pending() == Seq::<Command>::empty(),
            decreases n - k,
        {
            let c = pending.remove(0);
            proof { assert(c == cs[k as int]); }
            let rr = self.apply(c);
            proof {
                let ws0 = ws;
                let rs0 = rs;
                ws = ws.push(*self);
                rs = rs.push(rr);
                assert(rs.drop_last() =~= rs0);
                assert forall|i: int| 0 <= i < k + 1 implies #[trigger] World::step(ws[i], cs[i], ws[i + 1], rs[i]) by {
                    if i < k {
                        assert(ws[i] == ws0[i]);
                        assert(ws[i + 1] == ws0[i + 1]);
                        assert(rs[i] == rs0[i]);
                    }
                }
                assert(pending@ =~= cs.skip(k as int + 1));
            }
            if first.is_ok() {
                first = rr;
            }
            k = k + 1;
        }
        assert(World::flushed(*old(self), *self, ws, rs, first));
        first
    }
}

impl Default for World {
    fn default() -> (w: Self)
        ensures
            w.wf(),
            w.view() == Map::<Entity, Map<TypeId, ComponentValue>>::empty(),
            w.registered() == Seq::<TypeId>::empty(),
            w.events() == Seq::<HookEvent>::empty(),
            w.context() is None,
            w.issued() == Set::<Entity>::empty(),
            w.resources() == Map::<TypeId, ErasedBox>::empty(),
            w.pending() == Seq::<Command>::empty(),
    {
        World::new()
    }
}

} // verus!

