//! Runtime component type registry (type-id based, script-component ready).
use vstd::prelude::*;
use std::any::TypeId;

use crate::component::ComponentHooks;
use crate::erased::{same_type_id, type_id_of};
use crate::error::WorldError;

verus! {

/// Name recorded for natively registered types (raw registrations carry
/// their own name).
pub const NATIVE_NAME: &'static str = "";

/// Marker that instances are dropped through their own type's drop glue.
#[derive(Clone, Copy, Debug, PartialEq, Eq, Structural)]
pub struct DropGlue;

/// Layout and lifecycle descriptor of one registered component type.
#[derive(Clone, Copy, Debug)]
pub struct ComponentDescriptor {
    /// Size in bytes of the component type.
    pub size: usize,
    /// Alignment in bytes of the component type.
    pub align: usize,
    /// Whether the component was registered as scriptable (script payload).
    pub scriptable: bool,
    /// Typed drop glue (None for no-op drops).
    pub drop_fn: Option<DropGlue>,
    /// Optional lifecycle hooks (None for the default registration path).
    pub hooks: Option<ComponentHooks>,
}

impl ComponentDescriptor {
    /// Builds the descriptor for a concrete native type (no hooks).
    pub fn of<T>(scriptable: bool) -> (d: Self)
        ensures
            d.size as nat == vstd::layout::size_of::<T>(),
            d.align as nat == vstd::layout::align_of::<T>(),
            d.scriptable == scriptable,
            d.drop_fn == Some(DropGlue),
            d.hooks.is_none(),
    {
        ComponentDescriptor {
            size: core::mem::size_of::<T>(),
            align: core::mem::align_of::<T>(),
            scriptable,
            drop_fn: Some(DropGlue),
            hooks: None,
        }
    }

    /// Builds the descriptor for a concrete native type carrying hooks.
    pub fn of_with_hooks<T>(hooks: ComponentHooks) -> (d: Self)
        ensures
            d.size as nat == vstd::layout::size_of::<T>(),
            d.align as nat == vstd::layout::align_of::<T>(),
            !d.scriptable,
            d.drop_fn == Some(DropGlue),
            d.hooks == Some(hooks),
    {
        ComponentDescriptor {
            size: core::mem::size_of::<T>(),
            align: core::mem::align_of::<T>(),
            scriptable: false,
            drop_fn: Some(DropGlue),
            hooks: Some(hooks),
        }
    }

    /// Descriptor for a raw (type-erased) component instance.
    pub fn of_raw(scriptable: bool) -> (d: Self)
        ensures
            d.size == 0,
            d.align == 1,
            d.scriptable == scriptable,
            d.drop_fn.is_none(),
            d.hooks.is_none(),
    {
        ComponentDescriptor { size: 0, align: 1, scriptable, drop_fn: None, hooks: None }
    }
}

/// Registry of component types keyed by `TypeId`, plus the registration
/// order (deterministic drop order). No type occurs twice.
pub struct ComponentRegistry {
    ids: Vec<TypeId>,
    names: Vec<&'static str>,
    descs: Vec<ComponentDescriptor>,
}

impl ComponentRegistry {
    /// Registered type identities in registration order.
    pub closed spec fn ids(&self) -> Seq<TypeId> {
        self.ids@
    }

    /// Registered type names, parallel to [`Self::ids`].
    pub closed spec fn names(&self) -> Seq<&'static str> {
        self.names@
    }

    /// Descriptors, parallel to [`Self::ids`].
    pub closed spec fn descs(&self) -> Seq<ComponentDescriptor> {
        self.descs@
    }

    /// Internal consistency: parallel sequences, no identity twice.
    pub closed spec fn wf(&self) -> bool {
        &&& self.names@.len() == self.ids@.len()
        &&& self.descs@.len() == self.ids@.len()
        &&& self.ids@.no_duplicates()
    }

    /// Facts that hold of every consistent registry.
    pub proof fn lemma_wf_facts(&self)
        requires
            self.wf(),
        ensures
            self.ids().no_duplicates(),
            self.descs().len() == self.ids().len(),
    {
    }

    /// Creates an empty registry.
    pub fn new() -> (r: Self)
        ensures
            r.wf(),
            r.ids() == Seq::<TypeId>::empty(),
    {
        ComponentRegistry { ids: Vec::new(), names: Vec::new(), descs: Vec::new() }
    }

    /// Position of an identity in registration order.
    pub fn index_of(&self, id: &TypeId) -> (r: Option<usize>)
        requires
            self.wf(),
        ensures
            r matches Some(k) ==> k < self.ids().len() && self.ids()[k as int] == *id,
            r is None <==> !self.ids().contains(*id),
    {
        let mut k: usize = 0;
        while k < self.ids.len()
            invariant
                self.wf(),
                0 <= k <= self.ids@.len(),
                forall|j: int| 0 <= j < k ==> self.ids@[j] != *id,
            decreases self.ids@.len() - k,
        {
            if same_type_id(&self.ids[k], id) {
                return Some(k);
            }
            k = k + 1;
        }
        None
    }

    /// Runtime (raw) registration path: a self-describing descriptor.
    /// Duplicate registration is an error and leaves the registry unchanged.
    pub fn register_raw(&mut self, id: TypeId, name: &'static str, desc: ComponentDescriptor) -> (r: Result<(), WorldError>)
        requires
            old(self).wf(),
        ensures
            final(self).wf(),
            old(self).ids().contains(id) ==> {
                &&& r == Err::<(), WorldError>(WorldError::DuplicateRegistration(name))
                &&& final(self).ids() == old(self).ids()
                &&& final(self).descs() == old(self).descs()
            },
            !old(self).ids().contains(id) ==> {
                &&& r is Ok
                &&& final(self).ids() == old(self).ids().push(id)
                &&& final(self).descs() == old(self).descs().push(desc)
            },
    {
        if self.index_of(&id).is_some() {
            return Err(WorldError::DuplicateRegistration(name));
        }
        self.ids.push(id);
        self.names.push(name);
        self.descs.push(desc);
        proof {
            assert forall|a: int, b: int| 0 <= a < b < self.ids@.len() implies self.ids@[a] != self.ids@[b] by {
                if b == self.ids@.len() - 1 {
                    assert(old(self).ids@.contains(self.ids@[a]));
                }
            }
        }
        Ok(())
    }

    /// Registers a concrete component type. Duplicate registration returns
    /// an error and leaves the existing entry untouched.
    pub fn register<T: 'static>(&mut self, scriptable: bool) -> (r: Result<(), WorldError>)
        requires
            old(self).wf(),
        ensures
            final(self).wf(),
            exists|t: TypeId| {
                &&& (r is Err <==> old(self).ids().contains(t))
                &&& r matches Err(err) ==> err is DuplicateRegistration
                &&& r is Err ==> final(self).ids() == old(self).ids() && final(self).descs() == old(self).descs()
                &&& r is Ok ==> final(self).ids() == old(self).ids().push(t)
                    && final(self).descs().last().size as nat == vstd::layout::size_of::<T>()
                    && final(self).descs().last().align as nat == vstd::layout::align_of::<T>()
                    && final(self).descs().last().scriptable == scriptable
                    && final(self).descs().last().hooks.is_none()
                    && final(self).descs().drop_last() == old(self).descs()
            },
    {
        let id = type_id_of::<T>();
        let r = self.register_raw(id, NATIVE_NAME, ComponentDescriptor::of::<T>(scriptable));
        proof {
            assert(old(self).ids().contains(id) ==> r is Err);
        }
        r
    }

    /// Registers a concrete component type together with lifecycle hooks.
    /// Duplicate registration returns an error and leaves the existing entry
    /// (and its hooks) untouched.
    pub fn register_component_meta<T: 'static>(&mut self, hooks: ComponentHooks) -> (r: Result<(), WorldError>)
        requires
            old(self).wf(),
        ensures
            final(self).wf(),
            exists|t: TypeId| {
                &&& (r is Err <==> old(self).ids().contains(t))
                &&& r matches Err(err) ==> err is DuplicateRegistration
                &&& r is Err ==> final(self).ids() == old(self).ids() && final(self).descs() == old(self).descs()
                &&& r is Ok ==> final(self).ids() == old(self).ids().push(t)
                    && final(self).descs().last().hooks == Some(hooks)
                    && final(self).descs().drop_last() == old(self).descs()
            },
    {
        let id = type_id_of::<T>();
        let r = self.register_raw(id, NATIVE_NAME, ComponentDescriptor::of_with_hooks::<T>(hooks));
        proof {
            assert(old(self).ids().contains(id) ==> r is Err);
        }
        r
    }

    /// Registers the identity when absent (idempotent).
    pub fn ensure_registered_id(&mut self, id: TypeId, name: &'static str, desc: ComponentDescriptor)
        requires
            old(self).wf(),
        ensures
            final(self).wf(),
            old(self).ids().contains(id) ==> final(self).ids() == old(self).ids() && final(self).descs() == old(self).descs(),
            !old(self).ids().contains(id) ==> final(self).ids() == old(self).ids().push(id) && final(self).descs() == old(self).descs().push(desc),
    {
        if self.index_of(&id).is_none() {
            let _ = self.register_raw(id, name, desc);
        }
    }

    /// Idempotent auto-registration used by world operations.
    pub fn ensure_registered<T: 'static>(&mut self)
        requires
            old(self).wf(),
        ensures
            final(self).wf(),
            exists|t: TypeId| {
                &&& old(self).ids().contains(t) ==> final(self).ids() == old(self).ids() && final(self).descs() == old(self).descs()
                &&& !old(self).ids().contains(t) ==> final(self).ids() == old(self).ids().push(t)
                    && final(self).descs().drop_last() == old(self).descs()
                    && final(self).descs().last().size as nat == vstd::layout::size_of::<T>()
                    && final(self).descs().last().align as nat == vstd::layout::align_of::<T>()
                    && !final(self).descs().last().scriptable
                    && final(self).descs().last().drop_fn == Some(DropGlue)
                    && final(self).descs().last().hooks.is_none()
            },
    {
        let id = type_id_of::<T>();
        self.ensure_registered_id(id, NATIVE_NAME, ComponentDescriptor::of::<T>(false));
    }

    /// Returns the descriptor for an id, if registered.
    pub fn descriptor(&self, id: &TypeId) -> (r: Option<ComponentDescriptor>)
        requires
            self.wf(),
        ensures
            r is None <==> !self.ids().contains(*id),
            r matches Some(d) ==> exists|k: int| 0 <= k < self.ids().len() && self.ids()[k] == *id && self.descs()[k] == d,
    {
        match self.index_of(id) {
            Some(k) => Some(self.descs[k]),
            None => None,
        }
    }

    /// Returns the descriptor for a concrete type, if registered.
    pub fn descriptor_of<T: 'static>(&self) -> (r: Option<ComponentDescriptor>)
        requires
            self.wf(),
        ensures
            exists|t: TypeId| {
                &&& r is None <==> !self.ids().contains(t)
                &&& r matches Some(d) ==> exists|k: int| 0 <= k < self.ids().len() && self.ids()[k] == t && self.descs()[k] == d
            },
    {
        let id = type_id_of::<T>();
        self.descriptor(&id)
    }

    /// Descriptor at a registration position.
    pub fn descriptor_at(&self, k: usize) -> (d: ComponentDescriptor)
        requires
            self.wf(),
            k < self.ids().len(),
        ensures
            d == self.descs()[k as int],
    {
        self.descs[k]
    }

    /// Type name registered at a position.
    pub fn name_at(&self, k: usize) -> (n: &'static str)
        requires
            self.wf(),
            k < self.ids().len(),
        ensures
            n == self.names()[k as int],
    {
        self.names[k]
    }

    /// Identity registered at a position.
    pub fn id_at(&self, k: usize) -> (t: TypeId)
        requires
            self.wf(),
            k < self.ids().len(),
        ensures
            t == self.ids()[k as int],
    {
        self.ids[k]
    }

    /// Number of registered types.
    pub fn len(&self) -> (n: usize)
        requires
            self.wf(),
        ensures
            n == self.ids().len(),
    {
        self.ids.len()
    }

    /// Registration order as TypeIds (deterministic drop order).
    pub fn order(&self) -> (o: &[TypeId])
        ensures
            o@ == self.ids(),
    {
        self.ids.as_slice()
    }
}

impl Default for ComponentRegistry {
    fn default() -> (r: Self)
        ensures
            r.wf(),
            r.ids() == Seq::<TypeId>::empty(),
    {
        ComponentRegistry::new()
    }
}

} // verus!
