//! Deferred world mutations: `Commands`.
//!
//! Commands are recorded as data and applied by [`World::flush_commands`] in
//! the order they were queued, each with the semantics of the synchronous
//! call it stands for; the first error is reported.
use vstd::prelude::*;
use std::any::TypeId;

use crate::entity::Entity;
use crate::erased::{type_id_of, ErasedBox};
use crate::registry::ComponentDescriptor;
use crate::storage::ComponentValue;
use crate::world::World;

verus! {

/// A deferred closure over the world.
///
/// A `Box<dyn FnOnce(&mut World)>`, kept opaque.
#[verifier::external_body]
pub struct Deferred {
    f: Box<dyn FnOnce(&mut World)>,
}

impl Deferred {
    /// Boxes a closure (`Box::new`). The closure must keep a consistent
    /// world consistent. Nothing is claimed of the opaque result.
    #[verifier::external_body]
    pub(crate) fn new<F: FnOnce(&mut World) + 'static>(f: F) -> Deferred
        requires
            forall|x: &mut World| (*x).wf() ==> call_requires(f, (x,)),
            forall|x: &mut World| #[trigger] call_ensures(f, (x,), ()) ==> (*final(x)).wf(),
    {
        Deferred { f: Box::new(f) }
    }

    /// Calls the boxed closure (`FnOnce::call_once`) on the world. Claimed:
    /// the world stays consistent, which is what [`Deferred::new`] required
    /// of every closure it boxed. Nothing else is claimed of what the
    /// closure does.
    #[verifier::external_body]
    pub(crate) fn call(self, world: &mut World)
        requires
            old(world).wf(),
        ensures
            final(world).wf(),
    {
        (self.f)(world)
    }
}

/// One deferred world mutation.
pub enum Command {
    /// Finalize a reserved entity, then add the values in order.
    Create { entity: Entity, types: Vec<TypeId>, descs: Vec<ComponentDescriptor>, values: Vec<ComponentValue> },
    /// Add one value.
    Add { entity: Entity, ty: TypeId, desc: ComponentDescriptor, value: ComponentValue },
    /// Remove one component type.
    Remove { entity: Entity, ty: TypeId },
    /// Destroy an entity.
    Destroy { entity: Entity },
    /// Insert (or replace) a resource.
    InsertResource { ty: TypeId, resource: ErasedBox },
    /// Run an arbitrary closure.
    Run(Deferred),
}

impl Command {
    /// The command's vectors line up.
    pub open spec fn wf(&self) -> bool {
        match self {
            Command::Create { types, descs, values, .. } => types@.len() == descs@.len() && types@.len() == values@.len(),
            _ => true,
        }
    }
}

/// Queue of deferred commands applied at the next flush point.
pub struct CommandQueue(Vec<Command>);

impl CommandQueue {
    /// The queued commands, oldest first.
    pub closed spec fn commands(&self) -> Seq<Command> {
        self.0@
    }

    /// An empty queue.
    pub fn new() -> (q: Self)
        ensures
            q.commands() == Seq::<Command>::empty(),
    {
        CommandQueue(Vec::new())
    }

    /// Appends a command.
    pub fn push(&mut self, c: Command)
        ensures
            final(self).commands() == old(self).commands().push(c),
    {
        self.0.push(c);
    }

    /// Takes every queued command out, oldest first, leaving the queue empty.
    pub fn take(&mut self) -> (cs: Vec<Command>)
        ensures
            cs@ == old(self).commands(),
            final(self).commands() == Seq::<Command>::empty(),
    {
        let mut out: Vec<Command> = Vec::new();
        std::mem::swap(&mut out, &mut self.0);
        out
    }
}

/// Deferred operations buffered during a system and flushed at the system
/// boundary. Ordering: FIFO; semantics identical to the synchronous API —
/// errors raised by queued operations are reported by `flush_commands`.
pub struct Commands<'a> {
    world: &'a mut World,
}

impl<'a> Commands<'a> {
    /// The world the commands are queued on.
    pub closed spec fn world(&self) -> World {
        *self.world
    }

    /// A command builder over a world.
    pub fn new(world: &'a mut World) -> (c: Self)
        ensures
            c.world() == *old(world),
    {
        Commands { world }
    }

    /// Reserves a handle and queues its creation with the given values.
    fn create_with(&mut self, types: Vec<TypeId>, descs: Vec<ComponentDescriptor>, values: Vec<ComponentValue>) -> (e: Entity)
        requires
            old(self).world().wf(),
            old(self).world().can_reserve(),
            types@.len() == descs@.len(),
            types@.len() == values@.len(),
        ensures
            final(self).world().wf(),
            World::reserved_and_queued(old(self).world(), final(self).world(), e,
                Command::Create { entity: e, types, descs, values }),
    {
        let e = self.world.reserve_entity();
        self.world.push_command(Command::Create { entity: e, types, descs, values });
        e
    }

    /// Queues entity creation with one initial component. The returned
    /// entity handle is reserved immediately and becomes valid at flush.
    pub fn create1<A: 'static>(&mut self, a: A) -> (e: Entity)
        requires
            old(self).world().wf(),
            old(self).world().can_reserve(),
        ensures
            final(self).world().wf(),
            exists|c: Command| {
                &&& #[trigger] World::reserved_and_queued(old(self).world(), final(self).world(), e, c)
                &&& c matches Command::Create { entity, types, .. } && entity == e && types@.len() == 1
            },
    {
        let (ta, da, va) = self.world.encode_value(a);
        self.create_with(vec![ta], vec![da], vec![va])
    }

    /// Queues entity creation with two initial components.
    pub fn create2<A: 'static, B: 'static>(&mut self, a: A, b: B) -> (e: Entity)
        requires
            old(self).world().wf(),
            old(self).world().can_reserve(),
        ensures
            final(self).world().wf(),
            exists|c: Command| {
                &&& #[trigger] World::reserved_and_queued(old(self).world(), final(self).world(), e, c)
                &&& c matches Command::Create { entity, types, .. } && entity == e && types@.len() == 2
            },
    {
        let (ta, da, va) = self.world.encode_value(a);
        let (tb, db, vb) = self.world.encode_value(b);
        self.create_with(vec![ta, tb], vec![da, db], vec![va, vb])
    }

    /// Queues entity creation with three initial components.
    pub fn create3<A: 'static, B: 'static, C: 'static>(&mut self, a: A, b: B, c: C) -> (e: Entity)
        requires
            old(self).world().wf(),
            old(self).world().can_reserve(),
        ensures
            final(self).world().wf(),
            exists|cmd: Command| {
                &&& #[trigger] World::reserved_and_queued(old(self).world(), final(self).world(), e, cmd)
                &&& cmd matches Command::Create { entity, types, .. } && entity == e && types@.len() == 3
            },
    {
        let (ta, da, va) = self.world.encode_value(a);
        let (tb, db, vb) = self.world.encode_value(b);
        let (tc, dc, vc) = self.world.encode_value(c);
        self.create_with(vec![ta, tb, tc], vec![da, db, dc], vec![va, vb, vc])
    }

    /// Queues entity creation with four initial components.
    pub fn create4<A: 'static, B: 'static, C: 'static, D: 'static>(&mut self, a: A, b: B, c: C, d: D) -> (e: Entity)
        requires
            old(self).world().wf(),
            old(self).world().can_reserve(),
        ensures
            final(self).world().wf(),
            exists|cmd: Command| {
                &&& #[trigger] World::reserved_and_queued(old(self).world(), final(self).world(), e, cmd)
                &&& cmd matches Command::Create { entity, types, .. } && entity == e && types@.len() == 4
            },
    {
        let (ta, da, va) = self.world.encode_value(a);
        let (tb, db, vb) = self.world.encode_value(b);
        let (tc, dc, vc) = self.world.encode_value(c);
        let (td, dd, vd) = self.world.encode_value(d);
        self.create_with(vec![ta, tb, tc, td], vec![da, db, dc, dd], vec![va, vb, vc, vd])
    }

    /// Queues adding a component.
    pub fn add<T: 'static>(&mut self, entity: Entity, value: T)
        requires
            old(self).world().wf(),
        ensures
            final(self).world().wf(),
            exists|c: Command| {
                &&& #[trigger] World::only_queued(old(self).world(), final(self).world(), c)
                &&& c matches Command::Add { entity: x, .. } && x == entity
            },
    {
        let (t, d, v) = self.world.encode_value(value);
        let c = Command::Add { entity, ty: t, desc: d, value: v };
        let ghost queued = c;
        self.world.push_command(c);
        assert(World::only_queued(old(self).world(), self.world(), queued));
    }

    /// Queues removing a component type.
    pub fn remove<T: 'static>(&mut self, entity: Entity)
        requires
            old(self).world().wf(),
        ensures
            final(self).world().wf(),
            exists|t: TypeId| #[trigger] World::only_queued(old(self).world(), final(self).world(), Command::Remove { entity, ty: t }),
    {
        let t = type_id_of::<T>();
        self.world.push_command(Command::Remove { entity, ty: t });
        assert(World::only_queued(old(self).world(), self.world(), Command::Remove { entity, ty: t }));
    }

    /// Queues entity destruction (idempotent).
    pub fn destroy(&mut self, entity: Entity)
        requires
            old(self).world().wf(),
        ensures
            final(self).world().wf(),
            World::only_queued(old(self).world(), final(self).world(), Command::Destroy { entity }),
    {
        self.world.push_command(Command::Destroy { entity });
    }

    /// Queues inserting a resource (replaces an existing one).
    pub fn insert_resource<T: 'static>(&mut self, value: T)
        requires
            old(self).world().wf(),
        ensures
            final(self).world().wf(),
            exists|t: TypeId, b: ErasedBox| #[trigger] World::only_queued(old(self).world(), final(self).world(), Command::InsertResource { ty: t, resource: b }),
    {
        let t = type_id_of::<T>();
        let b = ErasedBox::new(value);
        let ghost gb = b;
        self.world.push_command(Command::InsertResource { ty: t, resource: b });
        assert(World::only_queued(old(self).world(), self.world(), Command::InsertResource { ty: t, resource: gb }));
    }

    /// Queues an arbitrary deferred closure.
    pub fn push<F: FnOnce(&mut World) + 'static>(&mut self, f: F)
        requires
            old(self).world().wf(),
            forall|x: &mut World| (*x).wf() ==> call_requires(f, (x,)),
            forall|x: &mut World| #[trigger] call_ensures(f, (x,), ()) ==> (*final(x)).wf(),
        ensures
            final(self).world().wf(),
            exists|c: Command| #[trigger] World::only_queued(old(self).world(), final(self).world(), c) && c is Run,
    {
        let c = Command::Run(Deferred::new(f));
        let ghost queued = c;
        self.world.push_command(c);
        assert(World::only_queued(old(self).world(), self.world(), queued));
    }
}

impl Default for CommandQueue {
    fn default() -> (q: Self)
        ensures
            q.commands() == Seq::<Command>::empty(),
    {
        CommandQueue::new()
    }
}

} // verus!
