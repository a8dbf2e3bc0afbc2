//! The verified entity/component store behind [`crate::world::World`]:
//! slots, archetypes, rows and the hook event log.
use vstd::prelude::*;
use std::any::TypeId;

use crate::archetype::Archetype;
use crate::component::{HookEvent, HookKind};
use crate::entity::{Entity, EntityAllocator};
use crate::error::WorldError;
use crate::model::{lemma_seq_map_ext, lemma_seq_map_index, lemma_seq_map_insert, lemma_seq_map_remove, seq_map};
use crate::registry::{ComponentDescriptor, ComponentRegistry};
use crate::storage::{swapped, ComponentValue};

verus! {

/// Per-entity slot: generation + archetype membership.
#[derive(Clone, Copy)]
pub struct Slot {
    generation: u32,
    archetype: Option<usize>,
    row: usize,
}

/// Entity/component store.
pub struct Store {
    registry: ComponentRegistry,
    allocator: EntityAllocator,
    archetypes: Vec<Archetype>,
    slots: Vec<Slot>,
    hook_context: Option<u64>,
    hook_events: Vec<HookEvent>,
}

/// Whether a sequence of registry positions is strictly increasing.
pub open spec fn strictly_sorted(keys: Seq<usize>) -> bool {
    forall|a: int, b: int| 0 <= a < b < keys.len() ==> keys[a] < keys[b]
}

/// Element-wise equality of two key lists.
pub fn same_keys(a: &Vec<usize>, b: &Vec<usize>) -> (r: bool)
    ensures
        r == (a@ == b@),
{
    if a.len() != b.len() {
        return false;
    }
    let mut k: usize = 0;
    while k < a.len()
        invariant
            a@.len() == b@.len(),
            k <= a@.len(),
            forall|j: int| 0 <= j < k ==> a@[j] == b@[j],
        decreases a@.len() - k,
    {
        if a[k] != b[k] {
            return false;
        }
        k = k + 1;
    }
    assert(a@ =~= b@);
    true
}

/// Inserts a registry position into a strictly increasing key list,
/// returning the new list and the insertion position.
pub fn insert_key(keys: &Vec<usize>, key: usize) -> (r: (Vec<usize>, usize))
    requires
        strictly_sorted(keys@),
        !keys@.contains(key),
    ensures
        r.1 <= keys@.len(),
        r.0@ == keys@.insert(r.1 as int, key),
        strictly_sorted(r.0@),
        forall|j: int| 0 <= j < r.1 ==> keys@[j] < key,
        forall|j: int| r.1 <= j < keys@.len() ==> key < keys@[j],
{
    let mut p: usize = 0;
    while p < keys.len() && keys[p] < key
        invariant
            p <= keys@.len(),
            forall|j: int| 0 <= j < p ==> keys@[j] < key,
        decreases keys@.len() - p,
    {
        p = p + 1;
    }
    let mut out: Vec<usize> = Vec::new();
    let mut k: usize = 0;
    while k < keys.len()
        invariant
            k <= keys@.len(),
            p <= keys@.len(),
            out@ == (if k <= p { keys@.subrange(0, k as int) } else { keys@.subrange(0, p as int).push(key) + keys@.subrange(p as int, k as int) }),
        decreases keys@.len() - k,
    {
        if k == p {
            out.push(key);
        }
        out.push(keys[k]);
        k = k + 1;
        proof {
            if k <= p {
                assert(out@ =~= keys@.subrange(0, k as int));
            } else {
                assert(out@ =~= keys@.subrange(0, p as int).push(key) + keys@.subrange(p as int, k as int));
            }
        }
    }
    if p == keys.len() {
        out.push(key);
    }
    proof {
        assert(out@ =~= keys@.insert(p as int, key));
        assert forall|j: int| p <= j < keys@.len() implies key < keys@[j] by {
            if p < keys@.len() {
                assert(!(keys@[p as int] < key));
                assert(keys@[p as int] != key) by { assert(keys@.contains(keys@[p as int])); }
                if j > p {
                    assert(keys@[p as int] < keys@[j]);
                }
            }
        }
        keys@.insert_ensures(p as int, key);
        assert forall|a: int, b: int| 0 <= a < b < out@.len() implies out@[a] < out@[b] by {
            if a < p && b < p {
            } else if a < p && b == p {
            } else if a < p {
                assert(out@[b] == keys@[b - 1]);
            } else if a == p {
                assert(out@[b] == keys@[b - 1]);
            } else {
                assert(out@[a] == keys@[a - 1]);
                assert(out@[b] == keys@[b - 1]);
            }
        }
    }
    (out, p)
}

/// Removes the key at position `p` from a strictly increasing key list.
pub fn remove_key(keys: &Vec<usize>, p: usize) -> (r: Vec<usize>)
    requires
        strictly_sorted(keys@),
        p < keys@.len(),
    ensures
        r@ == keys@.remove(p as int),
        strictly_sorted(r@),
{
    let mut out: Vec<usize> = Vec::new();
    let mut k: usize = 0;
    while k < keys.len()
        invariant
            k <= keys@.len(),
            p < keys@.len(),
            out@ == (if k <= p { keys@.subrange(0, k as int) } else { keys@.subrange(0, p as int) + keys@.subrange(p + 1, k as int) }),
        decreases keys@.len() - k,
    {
        if k != p {
            out.push(keys[k]);
        }
        k = k + 1;
        proof {
            if k <= p {
                assert(out@ =~= keys@.subrange(0, k as int));
            } else {
                assert(out@ =~= keys@.subrange(0, p as int) + keys@.subrange(p + 1, k as int));
            }
        }
    }
    proof {
        assert(out@ =~= keys@.remove(p as int));
        keys@.remove_ensures(p as int);
        assert forall|a: int, b: int| 0 <= a < b < out@.len() implies out@[a] < out@[b] by {
            let oa = if a < p { a } else { a + 1 };
            let ob = if b < p { b } else { b + 1 };
            assert(out@[a] == keys@[oa]);
            assert(out@[b] == keys@[ob]);
        }
    }
    out
}

impl Store {
    // ── model ────────────────────────────────────────────────────────────

    /// Registered component type identities, in registration order.
    pub closed spec fn ids(&self) -> Seq<TypeId> {
        self.registry.ids()
    }

    /// Registered descriptors, parallel to [`Self::ids`].
    pub closed spec fn descs(&self) -> Seq<ComponentDescriptor> {
        self.registry.descs()
    }

    /// The hook event log.
    pub closed spec fn events(&self) -> Seq<HookEvent> {
        self.hook_events@
    }

    /// The bound hook context, if any.
    pub closed spec fn context(&self) -> Option<u64> {
        self.hook_context
    }

    /// Every entity handle ever handed out.
    pub closed spec fn issued(&self) -> Set<Entity> {
        self.allocator.issued()
    }

    /// Whether handing out one more handle is possible.
    pub closed spec fn can_reserve(&self) -> bool {
        self.allocator.can_allocate()
    }

    /// The handle currently owns its slot (reserved or live).
    pub closed spec fn holds_slot(&self, e: Entity) -> bool {
        &&& e.idx() < self.slots@.len()
        &&& self.slots@[e.idx() as int].generation == e.gen()
        &&& !self.allocator.free_list().contains(e.idx())
    }

    /// The handle names a live entity.
    pub closed spec fn live(&self, e: Entity) -> bool {
        &&& self.holds_slot(e)
        &&& self.slots@[e.idx() as int].archetype is Some
    }

    /// The components of the row `r` of archetype `a`.
    pub closed spec fn comps_at(&self, a: int, r: int) -> Map<TypeId, ComponentValue> {
        seq_map(self.archetypes@[a].type_ids(), self.archetypes@[a].row(r))
    }

    /// The components of the entity in slot `i`.
    pub closed spec fn slot_comps(&self, i: int) -> Map<TypeId, ComponentValue> {
        self.comps_at(self.slots@[i].archetype.unwrap() as int, self.slots@[i].row as int)
    }

    /// Live entities and their components, keyed by component type.
    pub closed spec fn view(&self) -> Map<Entity, Map<TypeId, ComponentValue>> {
        Map::new(|e: Entity| self.live(e), |e: Entity| self.slot_comps(e.idx() as int))
    }

    // ── invariant ────────────────────────────────────────────────────────

    pub closed spec fn arch_ok(&self, a: int) -> bool {
        let arch = self.archetypes@[a];
        &&& arch.wf()
        &&& arch.id_spec() == a
        &&& strictly_sorted(arch.keys())
        &&& arch.type_ids().no_duplicates()
        &&& forall|c: int| 0 <= c < arch.width() ==> {
            &&& #[trigger] arch.keys()[c] < self.registry.ids().len()
            &&& arch.type_ids()[c] == self.registry.ids()[arch.keys()[c] as int]
            &&& arch.col_desc(c) == self.registry.descs()[arch.keys()[c] as int]
        }
    }

    pub closed spec fn row_ok(&self, a: int, r: int) -> bool {
        let i = self.archetypes@[a].rows()[r] as int;
        &&& 0 <= i < self.slots@.len()
        &&& self.slots@[i].archetype == Some(a as usize)
        &&& self.slots@[i].row == r
    }

    pub closed spec fn slot_ok(&self, i: int) -> bool {
        let s = self.slots@[i];
        &&& s.archetype matches Some(a) ==> {
            &&& a < self.archetypes@.len()
            &&& s.row < self.archetypes@[a as int].rows().len()
            &&& self.archetypes@[a as int].rows()[s.row as int] == i
        }
        &&& self.allocator.issued().contains(Entity::spec_from_parts(i as u32, s.generation))
    }

    pub closed spec fn wf(&self) -> bool {
        &&& self.registry.wf()
        &&& self.allocator.wf()
        &&& self.slots@.len() == self.allocator.slot_count()
        &&& forall|a: int| 0 <= a < self.archetypes@.len() ==> #[trigger] self.arch_ok(a)
        &&& forall|a: int, r: int| 0 <= a < self.archetypes@.len() && 0 <= r < self.archetypes@[a].rows().len()
            ==> #[trigger] self.row_ok(a, r)
        &&& forall|i: int| 0 <= i < self.slots@.len() ==> #[trigger] self.slot_ok(i)
        &&& forall|k: int| 0 <= k < self.allocator.free_list().len()
            ==> #[trigger] self.slots@[self.allocator.free_list()[k] as int].archetype is None
    }

    // ── construction ─────────────────────────────────────────────────────

    /// Creates an empty store.
    pub fn new() -> (s: Self)
        ensures
            s.wf(),
            s.view() == Map::<Entity, Map<TypeId, ComponentValue>>::empty(),
            s.ids() == Seq::<TypeId>::empty(),
            s.events() == Seq::<HookEvent>::empty(),
            s.context() is None,
            s.issued() == Set::<Entity>::empty(),
            s.can_reserve(),
    {
        let s = Store {
            registry: ComponentRegistry::new(),
            allocator: EntityAllocator::new(),
            archetypes: Vec::new(),
            slots: Vec::new(),
            hook_context: None,
            hook_events: Vec::new(),
        };
        assert(s.view() =~= Map::<Entity, Map<TypeId, ComponentValue>>::empty());
        s
    }

    /// Binds the hook context events are addressed to.
    pub fn bind_hook_context(&mut self, ctx: u64)
        requires
            old(self).wf(),
        ensures
            final(self).wf(),
            final(self).view() == old(self).view(),
            final(self).ids() == old(self).ids(),
            final(self).descs() == old(self).descs(),
            final(self).events() == old(self).events(),
            final(self).issued() == old(self).issued(),
            final(self).context() == Some(ctx),
            final(self).can_reserve() == old(self).can_reserve(),
    {
        self.hook_context = Some(ctx);
        proof {
            assert forall|a: int| 0 <= a < self.archetypes@.len() implies #[trigger] self.arch_ok(a) by {
                assert(old(self).arch_ok(a));
            }
            assert forall|a: int, r: int| 0 <= a < self.archetypes@.len() && 0 <= r < self.archetypes@[a].rows().len()
                implies #[trigger] self.row_ok(a, r) by {
                assert(old(self).row_ok(a, r));
            }
            assert forall|i: int| 0 <= i < self.slots@.len() implies #[trigger] self.slot_ok(i) by {
                assert(old(self).slot_ok(i));
            }
            assert(self.view() =~= old(self).view());
        }
    }

    /// Drains the hook event log.
    pub fn take_hook_events(&mut self) -> (evs: Vec<HookEvent>)
        requires
            old(self).wf(),
        ensures
            final(self).wf(),
            evs@ == old(self).events(),
            final(self).events() == Seq::<HookEvent>::empty(),
            final(self).view() == old(self).view(),
            final(self).ids() == old(self).ids(),
            final(self).descs() == old(self).descs(),
            final(self).issued() == old(self).issued(),
            final(self).context() == old(self).context(),
    {
        let mut evs: Vec<HookEvent> = Vec::new();
        std::mem::swap(&mut evs, &mut self.hook_events);
        proof {
            assert forall|a: int| 0 <= a < self.archetypes@.len() implies #[trigger] self.arch_ok(a) by {
                assert(old(self).arch_ok(a));
            }
            assert forall|a: int, r: int| 0 <= a < self.archetypes@.len() && 0 <= r < self.archetypes@[a].rows().len()
                implies #[trigger] self.row_ok(a, r) by {
                assert(old(self).row_ok(a, r));
            }
            assert forall|i: int| 0 <= i < self.slots@.len() implies #[trigger] self.slot_ok(i) by {
                assert(old(self).slot_ok(i));
            }
            assert(self.view() =~= old(self).view());
        }
        evs
    }


    // ── lifecycle ────────────────────────────────────────────────────────

    /// Hands out a fresh handle that owns its slot but is not yet live.
    pub fn reserve_entity(&mut self) -> (e: Entity)
        requires
            old(self).wf(),
            old(self).can_reserve(),
        ensures
            final(self).wf(),
            !old(self).issued().contains(e),
            final(self).issued() == old(self).issued().insert(e),
            final(self).holds_slot(e),
            !final(self).live(e),
            final(self).view() == old(self).view(),
            final(self).ids() == old(self).ids(),
            final(self).descs() == old(self).descs(),
            final(self).events() == old(self).events(),
            final(self).context() == old(self).context(),
    {
        let e = self.allocator.allocate();
        let i = e.index() as usize;
        let slot = Slot { generation: e.generation(), archetype: None, row: 0 };
        proof {
            if old(self).allocator.free_list().len() > 0 {
                let k = old(self).allocator.free_list().len() - 1;
                assert(old(self).slots@[old(self).allocator.free_list()[k] as int].archetype is None);
            }
        }
        if i >= self.slots.len() {
            self.slots.push(slot);
        } else {
            self.slots.set(i, slot);
        }
        proof {
            Entity::lemma_from_parts(e.idx(), e.gen());
            assert(old(self).slots@.len() <= i ==> i == old(self).slots@.len());
            assert(i < old(self).slots@.len() ==> old(self).slots@[i as int].archetype is None);
            assert forall|a: int| 0 <= a < self.archetypes@.len() implies #[trigger] self.arch_ok(a) by {
                assert(old(self).arch_ok(a));
            }
            assert forall|a: int, r: int| 0 <= a < self.archetypes@.len() && 0 <= r < self.archetypes@[a].rows().len()
                implies #[trigger] self.row_ok(a, r) by {
                assert(old(self).row_ok(a, r));
            }
            assert forall|j: int| 0 <= j < self.slots@.len() implies #[trigger] self.slot_ok(j) by {
                if j != i {
                    assert(old(self).slot_ok(j));
                }
            }
            old(self).allocator.lemma_wf_facts();
            assert forall|k: int| 0 <= k < self.allocator.free_list().len()
                implies #[trigger] self.slots@[self.allocator.free_list()[k] as int].archetype is None by {
                let of = old(self).allocator.free_list();
                assert(self.allocator.free_list()[k] == of[k]);
                assert(old(self).slots@[of[k] as int].archetype is None);
                if of.len() > 0 {
                    assert(of[k] != of[of.len() - 1]);
                }
            }
            assert(!self.allocator.free_list().contains(e.idx())) by {
                let of = old(self).allocator.free_list();
                if of.len() > 0 {
                    assert(self.allocator.free_list() == of.drop_last());
                    if self.allocator.free_list().contains(e.idx()) {
                        let k = choose|k: int| 0 <= k < self.allocator.free_list().len() && self.allocator.free_list()[k] == e.idx();
                        assert(of[k] == of[of.len() - 1]);
                    }
                } else {
                    assert(self.allocator.free_list() == of);
                }
            }
            assert forall|x: Entity| #[trigger] self.live(x) <==> old(self).live(x) by {
                if x.idx() == i {
                    if old(self).live(x) {
                        assert(old(self).slots@[i as int].archetype is Some);
                    }
                } else if old(self).live(x) {
                    assert(old(self).slots@[x.idx() as int].archetype is Some);
                    if self.allocator.free_list().contains(x.idx()) {
                        let k = choose|k: int| 0 <= k < self.allocator.free_list().len() && self.allocator.free_list()[k] == x.idx();
                        assert(self.slots@[self.allocator.free_list()[k] as int].archetype is None);
                    }
                } else if self.live(x) {
                    if old(self).allocator.free_list().contains(x.idx()) {
                        let k = choose|k: int| 0 <= k < old(self).allocator.free_list().len() && old(self).allocator.free_list()[k] == x.idx();
                        assert(old(self).slots@[old(self).allocator.free_list()[k] as int].archetype is None);
                    }
                }
            }
            assert forall|x: Entity| self.live(x) implies #[trigger] self.slot_comps(x.idx() as int) == old(self).slot_comps(x.idx() as int) by {
            }
            assert(self.view() =~= old(self).view());
        }
        e
    }


    /// Rows with the same types and pointwise-equal values hold the same
    /// components.
    proof fn lemma_comps_same(s1: &Store, a1: int, r1: int, s2: &Store, a2: int, r2: int)
        requires
            0 <= a1 < s1.archetypes@.len(),
            0 <= a2 < s2.archetypes@.len(),
            s1.archetypes@[a1].wf(),
            s2.archetypes@[a2].wf(),
            s1.archetypes@[a1].type_ids() == s2.archetypes@[a2].type_ids(),
            s1.archetypes@[a1].width() == s2.archetypes@[a2].width(),
            forall|c: int| 0 <= c < s1.archetypes@[a1].width() ==>
                #[trigger] s1.archetypes@[a1].cell(c, r1) == s2.archetypes@[a2].cell(c, r2),
        ensures
            s1.comps_at(a1, r1) == s2.comps_at(a2, r2),
    {
        let x1 = s1.archetypes@[a1];
        let x2 = s2.archetypes@[a2];
        x1.lemma_wf_facts();
        assert(x1.row(r1) =~= x2.row(r2));
    }

    /// Makes a reserved handle live with no components. No-op when the
    /// entity is already live.
    pub fn create_into(&mut self, e: Entity)
        requires
            old(self).wf(),
            old(self).holds_slot(e),
        ensures
            final(self).wf(),
            final(self).live(e),
            old(self).live(e) ==> final(self).view() == old(self).view(),
            !old(self).live(e) ==> final(self).view() == old(self).view().insert(e, Map::<TypeId, ComponentValue>::empty()),
            final(self).ids() == old(self).ids(),
            final(self).descs() == old(self).descs(),
            final(self).events() == old(self).events(),
            final(self).context() == old(self).context(),
            final(self).issued() == old(self).issued(),
            forall|x: Entity| #[trigger] final(self).holds_slot(x) == old(self).holds_slot(x),
    {
        if self.valid(e) {
            return;
        }
        let id = self.archetype_for(Vec::new());
        let ghost mid = *self;
        let row = self.archetypes[id].len();
        proof {
            assert(mid.arch_ok(id as int));
            mid.archetypes@[id as int].lemma_wf_facts();
        }
        self.archetypes[id].push_row(e.index(), Vec::new());
        let i = e.index() as usize;
        self.slots.set(i, Slot { generation: e.generation(), archetype: Some(id), row });
        proof {
            let ia = id as int;
            Entity::lemma_from_parts(e.idx(), e.gen());
            assert(mid.slot_ok(i as int));
            assert forall|a: int| 0 <= a < self.archetypes@.len() implies #[trigger] self.arch_ok(a) by {
                assert(mid.arch_ok(a));
                if a == ia {
                    self.archetypes@[a].lemma_wf_facts();
                }
            }
            assert forall|a: int, r: int| 0 <= a < self.archetypes@.len() && 0 <= r < self.archetypes@[a].rows().len()
                implies #[trigger] self.row_ok(a, r) by {
                if a == ia && r == row {
                } else {
                    assert(mid.row_ok(a, r));
                    let j = mid.archetypes@[a].rows()[r] as int;
                    assert(j != i);
                }
            }
            assert forall|j: int| 0 <= j < self.slots@.len() implies #[trigger] self.slot_ok(j) by {
                assert(mid.slot_ok(j));
            }
            assert forall|k: int| 0 <= k < self.allocator.free_list().len()
                implies #[trigger] self.slots@[self.allocator.free_list()[k] as int].archetype is None by {
                mid.allocator.lemma_wf_facts();
                assert(mid.slots@[mid.allocator.free_list()[k] as int].archetype is None);
                if mid.allocator.free_list()[k] == e.idx() {
                    assert(mid.allocator.free_list().contains(e.idx()));
                }
            }
            assert forall|x: Entity| self.live(x) && x != e implies #[trigger] self.slot_comps(x.idx() as int) == old(self).slot_comps(x.idx() as int) by {
                let j = x.idx() as int;
                Entity::lemma_eq_parts(x, e);
                assert(j != i);
                assert(mid.slot_ok(j));
                let a = self.slots@[j].archetype.unwrap() as int;
                let r = self.slots@[j].row as int;
                assert(mid.arch_ok(a));
                Self::lemma_comps_same(&mid, a, r, self, a, r);
            }
            assert(self.slot_comps(i as int) =~= Map::<TypeId, ComponentValue>::empty()) by {
                assert(self.archetypes@[ia].type_ids() =~= Seq::<TypeId>::empty());
            }
            assert forall|x: Entity| #[trigger] self.live(x) <==> (old(self).live(x) || x == e) by {
                Entity::lemma_eq_parts(x, e);
            }
            assert(self.view() =~= old(self).view().insert(e, Map::<TypeId, ComponentValue>::empty()));
        }
    }


    /// The `on_add` firing for a value of a type with descriptor `d`.
    pub open spec fn add_events(d: ComponentDescriptor, e: Entity, t: TypeId, ctx: Option<u64>) -> Seq<HookEvent> {
        match (ctx, d.hooks) {
            (Some(c), Some(h)) => match h.on_add {
                Some(id) => seq![HookEvent { kind: HookKind::Add, hook: id, entity: e, component: t, context: c }],
                None => Seq::empty(),
            },
            _ => Seq::empty(),
        }
    }

    /// The `on_remove` firing for a value of a type with descriptor `d`.
    pub open spec fn remove_events(d: ComponentDescriptor, e: Entity, t: TypeId, ctx: Option<u64>) -> Seq<HookEvent> {
        match (ctx, d.hooks) {
            (Some(c), Some(h)) => match h.on_remove {
                Some(id) => seq![HookEvent { kind: HookKind::Remove, hook: id, entity: e, component: t, context: c }],
                None => Seq::empty(),
            },
            _ => Seq::empty(),
        }
    }

    /// The descriptor registered for a type identity.
    pub open spec fn desc_of(&self, t: TypeId) -> ComponentDescriptor {
        self.descs()[self.ids().index_of(t)]
    }

    /// Registers the type when absent and returns its registry position.
    fn ensure_type(&mut self, tid: TypeId, name: &'static str, desc: ComponentDescriptor) -> (cid: usize)
        requires
            old(self).wf(),
        ensures
            final(self).wf(),
            cid < final(self).ids().len(),
            final(self).ids()[cid as int] == tid,
            old(self).ids().contains(tid) ==> final(self).ids() == old(self).ids() && final(self).descs() == old(self).descs(),
            !old(self).ids().contains(tid) ==> final(self).ids() == old(self).ids().push(tid) && final(self).descs() == old(self).descs().push(desc),
            final(self).archetypes@ == old(self).archetypes@,
            final(self).slots@ == old(self).slots@,
            final(self).allocator == old(self).allocator,
            final(self).hook_events@ == old(self).hook_events@,
            final(self).hook_context == old(self).hook_context,
            final(self).view() == old(self).view(),
    {
        self.registry.ensure_registered_id(tid, name, desc);
        proof {
            if !old(self).registry.ids().contains(tid) {
                assert(self.registry.ids()[old(self).registry.ids().len() as int] == tid);
            }
            assert(self.registry.ids().contains(tid));
        }
        let cid = self.registry.index_of(&tid).unwrap();
        proof {
            old(self).registry.lemma_wf_facts();
            self.registry.lemma_wf_facts();
            assert forall|a: int| 0 <= a < self.archetypes@.len() implies #[trigger] self.arch_ok(a) by {
                assert(old(self).arch_ok(a));
                let arch = self.archetypes@[a];
                assert forall|c: int| 0 <= c < arch.width() implies {
                    &&& #[trigger] arch.keys()[c] < self.registry.ids().len()
                    &&& arch.type_ids()[c] == self.registry.ids()[arch.keys()[c] as int]
                    &&& arch.col_desc(c) == self.registry.descs()[arch.keys()[c] as int]
                } by {
                }
            }
            assert forall|a: int, r: int| 0 <= a < self.archetypes@.len() && 0 <= r < self.archetypes@[a].rows().len()
                implies #[trigger] self.row_ok(a, r) by {
                assert(old(self).row_ok(a, r));
            }
            assert forall|j: int| 0 <= j < self.slots@.len() implies #[trigger] self.slot_ok(j) by {
                assert(old(self).slot_ok(j));
            }
            assert forall|x: Entity| self.live(x) implies #[trigger] self.slot_comps(x.idx() as int) == old(self).slot_comps(x.idx() as int) by {
            }
            assert(self.view() =~= old(self).view());
        }
        cid
    }

    /// Registers a type identity with its descriptor. A duplicate is an
    /// error and leaves the registry unchanged.
    pub fn register_type(&mut self, tid: TypeId, name: &'static str, desc: ComponentDescriptor) -> (r: Result<(), WorldError>)
        requires
            old(self).wf(),
        ensures
            final(self).wf(),
            old(self).ids().contains(tid) ==> {
                &&& r == Err::<(), WorldError>(WorldError::DuplicateRegistration(name))
                &&& final(self).ids() == old(self).ids()
                &&& final(self).descs() == old(self).descs()
            },
            !old(self).ids().contains(tid) ==> {
                &&& r is Ok
                &&& final(self).ids() == old(self).ids().push(tid)
                &&& final(self).descs() == old(self).descs().push(desc)
            },
            final(self).view() == old(self).view(),
            final(self).events() == old(self).events(),
            final(self).context() == old(self).context(),
            final(self).issued() == old(self).issued(),
            forall|x: Entity| #[trigger] final(self).holds_slot(x) == old(self).holds_slot(x),
    {
        let r = self.registry.register_raw(tid, name, desc);
        proof {
            old(self).registry.lemma_wf_facts();
            self.registry.lemma_wf_facts();
            assert forall|a: int| 0 <= a < self.archetypes@.len() implies #[trigger] self.arch_ok(a) by {
                assert(old(self).arch_ok(a));
                let arch = self.archetypes@[a];
                assert forall|c: int| 0 <= c < arch.width() implies {
                    &&& #[trigger] arch.keys()[c] < self.registry.ids().len()
                    &&& arch.type_ids()[c] == self.registry.ids()[arch.keys()[c] as int]
                    &&& arch.col_desc(c) == self.registry.descs()[arch.keys()[c] as int]
                } by {
                }
            }
            assert forall|a: int, r2: int| 0 <= a < self.archetypes@.len() && 0 <= r2 < self.archetypes@[a].rows().len()
                implies #[trigger] self.row_ok(a, r2) by {
                assert(old(self).row_ok(a, r2));
            }
            assert forall|j: int| 0 <= j < self.slots@.len() implies #[trigger] self.slot_ok(j) by {
                assert(old(self).slot_ok(j));
            }
            assert forall|x: Entity| self.live(x) implies #[trigger] self.slot_comps(x.idx() as int) == old(self).slot_comps(x.idx() as int) by {
            }
            assert(self.view() =~= old(self).view());
        }
        r
    }

    /// Whether the handle owns its slot (reserved or live).
    pub fn holds(&self, e: Entity) -> (b: bool)
        requires
            self.wf(),
        ensures
            b == self.holds_slot(e),
    {
        let i = e.index() as usize;
        i < self.slots.len() && self.slots[i].generation == e.generation() && !self.allocator.is_free(e.index())
    }

    proof fn lemma_live_below_finite(&self, i: int)
        requires
            self.wf(),
            0 <= i <= self.slots@.len(),
        ensures
            self.live_below(i).finite(),
        decreases i,
    {
        if i == 0 {
            assert(self.live_below(0) =~= Set::<Entity>::empty());
        } else {
            self.lemma_live_below_finite(i - 1);
            self.lemma_live_below_step(i - 1);
        }
    }

    /// Finitely many entities are live.
    pub proof fn lemma_view_finite(&self)
        requires
            self.wf(),
        ensures
            self.view().dom().finite(),
    {
        self.lemma_live_below_finite(self.slots@.len() as int);
        assert(self.live_below(self.slots@.len() as int) =~= self.view().dom());
    }

    /// Fewer than `u32::MAX` handles handed out leaves room for one more.
    pub proof fn lemma_room(&self)
        requires
            self.wf(),
        ensures
            self.issued().finite(),
            self.issued().len() < u32::MAX ==> self.can_reserve(),
    {
        self.allocator.lemma_room();
    }

    /// Whether one more handle can be handed out.
    pub fn has_room(&self) -> (b: bool)
        requires
            self.wf(),
        ensures
            b == self.can_reserve(),
    {
        self.allocator.has_room()
    }

    /// Every live handle was handed out.
    pub proof fn lemma_live_issued(&self, e: Entity)
        requires
            self.wf(),
            self.view().contains_key(e),
        ensures
            self.issued().contains(e),
    {
        let i = e.idx() as int;
        assert(self.slot_ok(i));
        Entity::lemma_from_parts(e.idx(), e.gen());
    }

    /// The model's domain is exactly the live handles.
    pub proof fn lemma_view_dom(&self)
        ensures
            forall|e: Entity| #[trigger] self.view().contains_key(e) == self.live(e),
    {
    }

    /// Whether a type identity is registered.
    pub fn is_registered(&self, tid: &TypeId) -> (b: bool)
        requires
            self.wf(),
        ensures
            b == self.ids().contains(*tid),
    {
        self.registry.index_of(tid).is_some()
    }

    /// Adds a component value of type `tid` to a live entity.
    ///
    /// The type is registered first (with `desc`) when absent. A stale
    /// handle is an error, and so is a type the entity already has; both
    /// leave the entity untouched. On success the entity's components gain
    /// exactly the new value, every other entity keeps its components, and
    /// the type's `on_add` hook is recorded when a context is bound.
    pub fn add_value(&mut self, e: Entity, tid: TypeId, name: &'static str, desc: ComponentDescriptor, value: ComponentValue) -> (r: Result<(), WorldError>)
        requires
            old(self).wf(),
        ensures
            final(self).wf(),
            old(self).ids().contains(tid) ==> final(self).ids() == old(self).ids() && final(self).descs() == old(self).descs(),
            !old(self).ids().contains(tid) ==> final(self).ids() == old(self).ids().push(tid) && final(self).descs() == old(self).descs().push(desc),
            !old(self).live(e) ==> {
                &&& r == Err::<(), WorldError>(WorldError::StaleEntity)
                &&& final(self).view() == old(self).view()
                &&& final(self).events() == old(self).events()
            },
            old(self).live(e) && old(self).view()[e].contains_key(tid) ==> {
                &&& r matches Err(WorldError::InsertAlreadyExists(_))
                &&& final(self).view() == old(self).view()
                &&& final(self).events() == old(self).events()
            },
            old(self).live(e) && !old(self).view()[e].contains_key(tid) ==> {
                &&& r is Ok
                &&& final(self).view() == old(self).view().insert(e, old(self).view()[e].insert(tid, value))
                &&& final(self).events() == old(self).events() + Self::add_events(final(self).desc_of(tid), e, tid, old(self).context())
            },
            final(self).context() == old(self).context(),
            final(self).issued() == old(self).issued(),
            forall|x: Entity| #[trigger] final(self).holds_slot(x) == old(self).holds_slot(x),
    {
        let cid = self.ensure_type(tid, name, desc);
        if !self.valid(e) {
            return Err(WorldError::StaleEntity);
        }
        let i = e.index() as usize;
        let at = self.slots[i].archetype.unwrap();
        let row = self.slots[i].row;
        proof {
            assert(self.slot_ok(i as int));
            assert(self.arch_ok(at as int));
            self.registry.lemma_wf_facts();
            self.archetypes@[at as int].lemma_wf_facts();
        }
        if self.archetypes[at].has(&tid) {
            proof {
                let arch = self.archetypes@[at as int];
                let c = choose|c: int| 0 <= c < arch.type_ids().len() && arch.type_ids()[c] == tid;
                lemma_seq_map_index(arch.type_ids(), arch.row(row as int), c);
            }
            return Err(WorldError::InsertAlreadyExists(self.registry.name_at(cid)));
        }
        let ghost s1 = *self;
        let ghost old_types = self.archetypes@[at as int].type_ids();
        let ghost old_row = self.archetypes@[at as int].row(row as int);
        let (new_keys, p) = insert_key(self.archetypes[at].key_list(), cid);
        proof {
            let ok = s1.archetypes@[at as int].keys();
            assert(!ok.contains(cid)) by {
                if ok.contains(cid) {
                    let c = choose|c: int| 0 <= c < ok.len() && ok[c] == cid;
                    assert(old_types[c] == tid);
                    assert(old_types.contains(tid));
                }
            }
        }
        let nid = self.archetype_for(new_keys);
        let ghost s2 = *self;
        proof {
            assert(nid != at) by {
                if nid == at {
                    assert(s2.archetypes@[at as int].keys().len() == s1.archetypes@[at as int].keys().len());
                }
            }
        }
        let (vals, moved) = self.archetypes[at].take_row(row);
        let mut vals = vals;
        vals.insert(p, value);
        let target_row = self.archetypes[nid].len();
        proof {
            assert(s2.arch_ok(nid as int));
            s2.archetypes@[nid as int].lemma_wf_facts();
        }
        self.archetypes[nid].push_row(e.index(), vals);
        let ghost s3 = *self;
        proof {
            if row + 1 < s2.archetypes@[at as int].rows().len() {
                assert(s2.row_ok(at as int, s2.archetypes@[at as int].rows().len() - 1));
            }
        }
        match moved {
            Some(m) => {
                let mi = m as usize;
                let ms = self.slots[mi];
                self.slots.set(mi, Slot { generation: ms.generation, archetype: ms.archetype, row });
            },
            None => {},
        }
        let gen = self.slots[i].generation;
        self.slots.set(i, Slot { generation: gen, archetype: Some(nid), row: target_row });
        let ghost s4 = *self;
        proof {
            let a0 = s2.archetypes@[at as int];
            let n0 = s2.archetypes@[nid as int];
            let new_row = a0.row(row as int).insert(p as int, value);
            a0.lemma_wf_facts();
            self.lemma_migration(&s1, &s2, e, new_row, at as int, nid as int, row as int, target_row as int, moved);
            assert(n0.type_ids() =~= a0.type_ids().insert(p as int, tid)) by {
                a0.keys().insert_ensures(p as int, cid);
                a0.type_ids().insert_ensures(p as int, tid);
                assert forall|c: int| 0 <= c < n0.type_ids().len() implies n0.type_ids()[c] == a0.type_ids().insert(p as int, tid)[c] by {
                    if c < p {
                        assert(n0.keys()[c] == a0.keys()[c]);
                    } else if c > p {
                        assert(n0.keys()[c] == a0.keys()[c - 1]);
                    }
                }
            }
            assert(s1.arch_ok(at as int));
            lemma_seq_map_insert(a0.type_ids(), a0.row(row as int), p as int, tid, value);
            assert(s1.view()[e] == s1.comps_at(at as int, row as int));
        }
        let d = self.registry.descriptor_at(cid);
        match (self.hook_context, d.hooks) {
            (Some(c), Some(h)) => match h.on_add {
                Some(id) => {
                    self.hook_events.push(HookEvent { kind: HookKind::Add, hook: id, entity: e, component: tid, context: c });
                },
                None => {},
            },
            _ => {},
        }
        proof {
            self.lemma_events_only(&s4);
            assert(self.desc_of(tid) == d) by {
                self.registry.lemma_wf_facts();
                let j = self.ids().index_of(tid);
                assert(self.ids().contains(tid)) by { assert(self.ids()[cid as int] == tid); }
                assert(self.ids()[j] == tid);
            }
            assert(self.events() =~= old(self).events() + Self::add_events(self.desc_of(tid), e, tid, old(self).context()));
        }
        Ok(())
    }



    /// Removes the component of type `tid` from an entity.
    ///
    /// An unregistered type cannot be present, so that is a no-op even for
    /// a stale handle; otherwise a stale handle is an error. A registered
    /// type the entity lacks is a no-op. On removal only the entity's
    /// components lose the value, the type's `on_remove` hook is recorded
    /// (when a context is bound) and the value is dropped.
    pub fn remove_value(&mut self, e: Entity, tid: TypeId) -> (r: Result<(), WorldError>)
        requires
            old(self).wf(),
        ensures
            final(self).wf(),
            final(self).ids() == old(self).ids(),
            final(self).descs() == old(self).descs(),
            !old(self).live(e) ==> {
                &&& r == Err::<(), WorldError>(WorldError::StaleEntity)
                &&& final(self).view() == old(self).view()
                &&& final(self).events() == old(self).events()
            },
            old(self).live(e) && !old(self).view()[e].contains_key(tid) ==> {
                &&& r is Ok
                &&& final(self).view() == old(self).view()
                &&& final(self).events() == old(self).events()
            },
            old(self).live(e) && old(self).view()[e].contains_key(tid) ==> {
                &&& r is Ok
                &&& final(self).view() == old(self).view().insert(e, old(self).view()[e].remove(tid))
                &&& final(self).events() == old(self).events() + Self::remove_events(old(self).desc_of(tid), e, tid, old(self).context())
            },
            final(self).context() == old(self).context(),
            final(self).issued() == old(self).issued(),
            forall|x: Entity| #[trigger] final(self).holds_slot(x) == old(self).holds_slot(x),
    {
        if !self.valid(e) {
            return Err(WorldError::StaleEntity);
        }
        let cid = match self.registry.index_of(&tid) {
            Some(k) => k,
            None => {
                proof {
                    self.lemma_types_of(e);
                    if self.view()[e].contains_key(tid) {
                        assert(self.types_of(e).contains(tid));
                    }
                }
                return Ok(());
            },
        };
        let i = e.index() as usize;
        let at = self.slots[i].archetype.unwrap();
        let row = self.slots[i].row;
        proof {
            assert(self.slot_ok(i as int));
            assert(self.arch_ok(at as int));
            self.registry.lemma_wf_facts();
            self.archetypes@[at as int].lemma_wf_facts();
        }
        let p = match self.archetypes[at].column_index(&tid) {
            Some(c) => c,
            None => {
                proof {
                    let arch = self.archetypes@[at as int];
                    assert(!seq_map(arch.type_ids(), arch.row(row as int)).contains_key(tid));
                }
                return Ok(());
            },
        };
        let ghost s1 = *self;
        let ghost a0 = self.archetypes@[at as int];
        proof {
            assert(a0.keys()[p as int] == cid) by {
                assert(a0.type_ids()[p as int] == self.registry.ids()[a0.keys()[p as int] as int]);
            }
        }
        let new_keys = remove_key(self.archetypes[at].key_list(), p);
        let nid = self.archetype_for(new_keys);
        let ghost s2 = *self;
        proof {
            assert(nid != at) by {
                if nid == at {
                    assert(s2.archetypes@[at as int].keys().len() == s1.archetypes@[at as int].keys().len());
                }
            }
        }
        let (vals, moved) = self.archetypes[at].take_row(row);
        let mut vals = vals;
        let d = self.registry.descriptor_at(cid);
        match (self.hook_context, d.hooks) {
            (Some(c), Some(h)) => match h.on_remove {
                Some(id) => {
                    self.hook_events.push(HookEvent { kind: HookKind::Remove, hook: id, entity: e, component: tid, context: c });
                },
                None => {},
            },
            _ => {},
        }
        let _dropped = vals.remove(p);
        let target_row = self.archetypes[nid].len();
        proof {
            assert(s2.arch_ok(nid as int));
            s2.archetypes@[nid as int].lemma_wf_facts();
        }
        self.archetypes[nid].push_row(e.index(), vals);
        proof {
            if row + 1 < s2.archetypes@[at as int].rows().len() {
                assert(s2.row_ok(at as int, s2.archetypes@[at as int].rows().len() - 1));
            }
        }
        match moved {
            Some(m) => {
                let mi = m as usize;
                let ms = self.slots[mi];
                self.slots.set(mi, Slot { generation: ms.generation, archetype: ms.archetype, row });
            },
            None => {},
        }
        let gen = self.slots[i].generation;
        self.slots.set(i, Slot { generation: gen, archetype: Some(nid), row: target_row });
        proof {
            let n0 = s2.archetypes@[nid as int];
            let new_row = a0.row(row as int).remove(p as int);
            a0.lemma_wf_facts();
            let ghost evs = self.hook_events@;
            let ghost mut probe = *self;
            probe.hook_events = s2.hook_events;
            probe.lemma_migration(&s1, &s2, e, new_row, at as int, nid as int, row as int, target_row as int, moved);
            self.lemma_events_only(&probe);
            assert(n0.type_ids() =~= a0.type_ids().remove(p as int)) by {
                a0.keys().remove_ensures(p as int);
                a0.type_ids().remove_ensures(p as int);
                assert forall|c: int| 0 <= c < n0.type_ids().len() implies n0.type_ids()[c] == a0.type_ids().remove(p as int)[c] by {
                    if c < p {
                        assert(n0.keys()[c] == a0.keys()[c]);
                    } else {
                        assert(n0.keys()[c] == a0.keys()[c + 1]);
                    }
                }
            }
            lemma_seq_map_remove(a0.type_ids(), a0.row(row as int), p as int);
            assert(s1.view()[e] == s1.comps_at(at as int, row as int));
            lemma_seq_map_index(a0.type_ids(), a0.row(row as int), p as int);
            assert(old(self).desc_of(tid) == d) by {
                let j = old(self).ids().index_of(tid);
                assert(old(self).ids()[cid as int] == tid);
                assert(old(self).ids().contains(tid));
            }
            assert(self.events() =~= old(self).events() + Self::remove_events(old(self).desc_of(tid), e, tid, old(self).context()));
        }
        Ok(())
    }


    /// The component types of a live entity, in column (registration) order.
    pub closed spec fn types_of(&self, e: Entity) -> Seq<TypeId> {
        self.archetypes@[self.slots@[e.idx() as int].archetype.unwrap() as int].type_ids()
    }

    /// The `on_remove` firings for dropping values of the types `ts`, in order.
    pub open spec fn removal_events(ids: Seq<TypeId>, descs: Seq<ComponentDescriptor>, ts: Seq<TypeId>, e: Entity, ctx: Option<u64>) -> Seq<HookEvent>
        decreases ts.len(),
    {
        if ts.len() == 0 {
            Seq::empty()
        } else {
            Self::removal_events(ids, descs, ts.drop_last(), e, ctx)
                + Self::remove_events(descs[ids.index_of(ts.last())], e, ts.last(), ctx)
        }
    }

    /// The component types of a live entity are exactly its components,
    /// listed once each in registration order.
    pub proof fn lemma_types_of(&self, e: Entity)
        requires
            self.wf(),
            self.live(e),
        ensures
            self.types_of(e).no_duplicates(),
            forall|t: TypeId| #[trigger] self.types_of(e).contains(t) <==> self.view()[e].contains_key(t),
            forall|a: int, b: int| 0 <= a < b < self.types_of(e).len() ==>
                self.ids().index_of(#[trigger] self.types_of(e)[a]) < self.ids().index_of(#[trigger] self.types_of(e)[b]),
            forall|t: TypeId| #[trigger] self.types_of(e).contains(t) ==> self.ids().contains(t),
    {
        let i = e.idx() as int;
        assert(self.slot_ok(i));
        let a = self.slots@[i].archetype.unwrap() as int;
        assert(self.arch_ok(a));
        let arch = self.archetypes@[a];
        arch.lemma_wf_facts();
        self.registry.lemma_wf_facts();
        assert forall|x: int, y: int| 0 <= x < y < arch.type_ids().len() implies
            self.ids().index_of(#[trigger] arch.type_ids()[x]) < self.ids().index_of(#[trigger] arch.type_ids()[y]) by {
            let kx = arch.keys()[x] as int;
            let ky = arch.keys()[y] as int;
            assert(self.ids().contains(self.ids()[kx]));
            assert(self.ids().contains(self.ids()[ky]));
            assert(self.ids().index_of(self.ids()[kx]) == kx);
            assert(self.ids().index_of(self.ids()[ky]) == ky);
        }
        assert forall|t: TypeId| #[trigger] arch.type_ids().contains(t) implies self.ids().contains(t) by {
            let c = choose|c: int| 0 <= c < arch.type_ids().len() && arch.type_ids()[c] == t;
            assert(self.ids()[arch.keys()[c] as int] == t);
        }
    }

    /// Destroys an entity: its values are dropped in column (registration)
    /// order after their `on_remove` hooks are recorded, and its slot is
    /// freed for reuse. No-op for a stale handle.
    pub fn destroy(&mut self, e: Entity) -> (r: Result<(), WorldError>)
        requires
            old(self).wf(),
        ensures
            final(self).wf(),
            r is Ok,
            final(self).ids() == old(self).ids(),
            final(self).descs() == old(self).descs(),
            final(self).context() == old(self).context(),
            final(self).issued() == old(self).issued(),
            !old(self).live(e) ==> {
                &&& final(self).view() == old(self).view()
                &&& final(self).events() == old(self).events()
                &&& forall|x: Entity| #[trigger] final(self).holds_slot(x) == old(self).holds_slot(x)
            },
            old(self).live(e) ==> {
                &&& final(self).view() == old(self).view().remove(e)
                &&& final(self).events() == old(self).events()
                    + Self::removal_events(old(self).ids(), old(self).descs(), old(self).types_of(e), e, old(self).context())
                &&& !final(self).live(e)
                &&& forall|x: Entity| x.idx() != e.idx() ==> #[trigger] final(self).holds_slot(x) == old(self).holds_slot(x)
            },
    {
        if !self.valid(e) {
            return Ok(());
        }
        let i = e.index() as usize;
        let at = self.slots[i].archetype.unwrap();
        let row = self.slots[i].row;
        proof {
            assert(self.slot_ok(i as int));
            assert(self.arch_ok(at as int));
            self.registry.lemma_wf_facts();
            self.archetypes@[at as int].lemma_wf_facts();
        }
        let ghost types = self.archetypes@[at as int].type_ids();
        let ghost s0 = *self;
        match self.hook_context {
            Some(c) => {
                let n = self.archetypes[at].types().len();
                let mut ci: usize = 0;
                while ci < n
                    invariant
                        s0.wf(),
                        s0.arch_ok(at as int),
                        at < s0.archetypes@.len(),
                        n == types.len(),
                        types == s0.archetypes@[at as int].type_ids(),
                        ci <= n,
                        self.registry == s0.registry,
                        self.allocator == s0.allocator,
                        self.archetypes@ == s0.archetypes@,
                        self.slots@ == s0.slots@,
                        self.hook_context == Some(c),
                        self.hook_events@ == s0.hook_events@ + Self::removal_events(s0.ids(), s0.descs(), types.take(ci as int), e, Some(c)),
                    decreases n - ci,
                {
                    proof {
                        s0.archetypes@[at as int].lemma_wf_facts();
                    }
                    let d = self.archetypes[at].column(ci).descriptor();
                    let t = self.archetypes[at].types()[ci];
                    proof {
                        s0.registry.lemma_wf_facts();
                        let k = s0.archetypes@[at as int].keys()[ci as int] as int;
                        assert(s0.ids()[k] == t);
                        assert(s0.ids().contains(t));
                        assert(s0.ids().index_of(t) == k);
                        assert(types.take(ci as int + 1).drop_last() =~= types.take(ci as int));
                        assert(types.take(ci as int + 1).last() == t);
                    }
                    match d.hooks {
                        Some(h) => match h.on_remove {
                            Some(id) => {
                                self.hook_events.push(HookEvent { kind: HookKind::Remove, hook: id, entity: e, component: t, context: c });
                            },
                            None => {},
                        },
                        None => {},
                    }
                    ci = ci + 1;
                    proof {
                        assert(self.hook_events@ =~= s0.hook_events@ + Self::removal_events(s0.ids(), s0.descs(), types.take(ci as int), e, Some(c)));
                    }
                }
                proof {
                    assert(types.take(n as int) =~= types);
                }
            },
            None => {
                proof {
                    Self::lemma_no_context_no_events(s0.ids(), s0.descs(), types, e);
                    assert(self.hook_events@ =~= s0.hook_events@ + Self::removal_events(s0.ids(), s0.descs(), types, e, None));
                }
            },
        }
        let ghost s1 = *self;
        proof {
            self.lemma_events_only(&s0);
            if row + 1 < s1.archetypes@[at as int].rows().len() {
                assert(s1.row_ok(at as int, s1.archetypes@[at as int].rows().len() - 1));
            }
        }
        let moved = self.archetypes[at].remove_row(row);
        match moved {
            Some(m) => {
                let mi = m as usize;
                let ms = self.slots[mi];
                self.slots.set(mi, Slot { generation: ms.generation, archetype: ms.archetype, row });
            },
            None => {},
        }
        self.allocator.release(i as u32);
        let gen = self.slots[i].generation;
        self.slots.set(i, Slot { generation: gen, archetype: None, row: 0 });
        proof {
            self.lemma_removal(&s1, e, at as int, row as int, moved);
        }
        Ok(())
    }

    /// Without a bound context no removal is recorded.
    proof fn lemma_no_context_no_events(ids: Seq<TypeId>, descs: Seq<ComponentDescriptor>, ts: Seq<TypeId>, e: Entity)
        ensures
            Self::removal_events(ids, descs, ts, e, None) == Seq::<HookEvent>::empty(),
        decreases ts.len(),
    {
        if ts.len() > 0 {
            Self::lemma_no_context_no_events(ids, descs, ts.drop_last(), e);
        }
    }

    /// The state after dropping entity `e`'s row `row` of archetype `at`
    /// and freeing its slot is consistent, and only `e` left the view.
    proof fn lemma_removal(&self, s1: &Store, e: Entity, at: int, row: int, moved: Option<u32>)
        requires
            s1.wf(),
            s1.live(e),
            0 <= at < s1.archetypes@.len(),
            at <= usize::MAX,
            0 <= row <= usize::MAX,
            s1.slots@[e.idx() as int].archetype == Some(at as usize),
            s1.slots@[e.idx() as int].row == row,
            self.registry == s1.registry,
            self.allocator.wf(),
            self.allocator.slot_count() == s1.allocator.slot_count(),
            self.allocator.issued() == s1.allocator.issued(),
            self.allocator.free_list() == (if s1.allocator.is_retired(e.idx() as int) { s1.allocator.free_list() } else { s1.allocator.free_list().push(e.idx()) }),
            forall|k: int| 0 <= k < s1.allocator.slot_count() ==> {
                &&& #[trigger] self.allocator.next_gen(k) == s1.allocator.next_gen(k)
                &&& self.allocator.is_retired(k) == s1.allocator.is_retired(k)
            },
            moved == (if row + 1 < s1.archetypes@[at].rows().len() { Some(s1.archetypes@[at].rows().last()) } else { None::<u32> }),
            self.archetypes@.len() == s1.archetypes@.len(),
            forall|a: int| 0 <= a < self.archetypes@.len() && a != at ==> #[trigger] self.archetypes@[a] == s1.archetypes@[a],
            ({
                let a0 = s1.archetypes@[at];
                let a1 = self.archetypes@[at];
                &&& a1.wf()
                &&& a1.id_spec() == a0.id_spec()
                &&& a1.keys() == a0.keys()
                &&& a1.type_ids() == a0.type_ids()
                &&& a1.width() == a0.width()
                &&& a1.rows() == swapped(a0.rows(), row)
                &&& forall|c: int| 0 <= c < a0.width() ==> #[trigger] a1.col_desc(c) == a0.col_desc(c)
                &&& forall|c: int| 0 <= c < a0.width() ==> #[trigger] a1.col_cells(c) == swapped(a0.col_cells(c), row)
            }),
            ({
                let s_after_move = match moved {
                    Some(m) => s1.slots@.update(m as int, Slot { generation: s1.slots@[m as int].generation, archetype: s1.slots@[m as int].archetype, row: row as usize }),
                    None => s1.slots@,
                };
                self.slots@ == s_after_move.update(e.idx() as int, Slot { generation: s_after_move[e.idx() as int].generation, archetype: None, row: 0 })
            }),
        ensures
            self.wf(),
            self.view() == s1.view().remove(e),
            !self.live(e),
            forall|x: Entity| x.idx() != e.idx() ==> #[trigger] self.holds_slot(x) == s1.holds_slot(x),
    {
        let i = e.idx() as int;
        let a0 = s1.archetypes@[at];
        let a1 = self.archetypes@[at];
        assert(s1.slot_ok(i));
        assert(s1.arch_ok(at));
        a0.lemma_wf_facts();
        a1.lemma_wf_facts();
        s1.allocator.lemma_wf_facts();
        let last = a0.rows().len() - 1;
        assert(0 <= row <= last);
        assert(a0.rows()[row] == i as u32);
        let mi: int = if row < last { a0.rows()[last] as int } else { -1 };
        if row < last {
            assert(s1.row_ok(at, last));
            assert(s1.row_ok(at, row));
            assert(mi != i);
        }
        assert forall|j: int| 0 <= j < self.slots@.len() && j != i && j != mi implies #[trigger] self.slots@[j] == s1.slots@[j] by {
        }
        assert forall|a: int| 0 <= a < self.archetypes@.len() implies #[trigger] self.arch_ok(a) by {
            assert(s1.arch_ok(a));
        }
        assert forall|a: int, r: int| 0 <= a < self.archetypes@.len() && 0 <= r < self.archetypes@[a].rows().len()
            implies #[trigger] self.row_ok(a, r) by {
            if a == at {
                if r == row {
                    assert(a1.rows()[r] == a0.rows()[last]);
                    assert(s1.row_ok(at, last));
                } else {
                    assert(a1.rows()[r] == a0.rows()[r]);
                    assert(s1.row_ok(at, r));
                    let j = a0.rows()[r] as int;
                    assert(j != i);
                    if row < last {
                        assert(s1.row_ok(at, last));
                        assert(j != mi);
                    }
                    assert(self.slots@[j] == s1.slots@[j]);
                }
            } else {
                assert(s1.row_ok(a, r));
                assert(s1.arch_ok(a));
                let j = s1.archetypes@[a].rows()[r] as int;
                assert(j != i);
                if row < last {
                    assert(s1.row_ok(at, last));
                    assert(s1.slots@[mi].archetype == Some(at as usize));
                    assert(j != mi);
                }
                assert(self.slots@[j] == s1.slots@[j]);
            }
        }
        assert forall|j: int| 0 <= j < self.slots@.len() implies #[trigger] self.slot_ok(j) by {
            assert(s1.slot_ok(j));
            if j != i && j != mi {
                match s1.slots@[j].archetype {
                    Some(a) => {
                        let r = s1.slots@[j].row as int;
                        if a as int == at {
                            assert(r != row);
                            if row < last {
                                assert(r != last);
                            }
                            assert(a1.rows()[r] == a0.rows()[r]);
                        }
                    },
                    None => {},
                }
            }
        }
        assert forall|k: int| 0 <= k < self.allocator.free_list().len()
            implies #[trigger] self.slots@[self.allocator.free_list()[k] as int].archetype is None by {
            if k < s1.allocator.free_list().len() {
                let f = s1.allocator.free_list()[k] as int;
                assert(s1.slots@[f].archetype is None);
                if row < last {
                    assert(s1.row_ok(at, last));
                }
                assert(f != i);
                assert(f != mi);
            }
        }
        assert forall|x: Entity| #[trigger] self.live(x) <==> (s1.live(x) && x != e) by {
            Entity::lemma_eq_parts(x, e);
            if x.idx() as int == i {
                assert(self.slots@[i].archetype is None);
            } else if s1.live(x) {
                assert(!self.allocator.free_list().contains(x.idx())) by {
                    if self.allocator.free_list().contains(x.idx()) {
                        let k = choose|k: int| 0 <= k < self.allocator.free_list().len() && self.allocator.free_list()[k] == x.idx();
                        if k < s1.allocator.free_list().len() {
                            assert(s1.slots@[s1.allocator.free_list()[k] as int].archetype is None);
                        }
                    }
                }
            } else if self.live(x) {
                if s1.allocator.free_list().contains(x.idx()) {
                    let k = choose|k: int| 0 <= k < s1.allocator.free_list().len() && s1.allocator.free_list()[k] == x.idx();
                    assert(self.allocator.free_list()[k] == x.idx());
                }
            }
        }
        assert forall|x: Entity| self.live(x) implies #[trigger] self.slot_comps(x.idx() as int) == s1.slot_comps(x.idx() as int) by {
            let j = x.idx() as int;
            Entity::lemma_eq_parts(x, e);
            assert(j != i);
            assert(s1.slot_ok(j));
            let a = s1.slots@[j].archetype.unwrap() as int;
            let r = s1.slots@[j].row as int;
            if j == mi {
                assert(s1.row_ok(at, last));
                Self::lemma_comps_same(s1, at, last, self, at, row);
            } else if a == at {
                assert(r != row);
                assert(r != last);
                Self::lemma_comps_same(s1, at, r, self, at, r);
            } else {
                assert(s1.arch_ok(a));
                Self::lemma_comps_same(s1, a, r, self, a, r);
            }
        }
        assert(self.view() =~= s1.view().remove(e));
        assert forall|x: Entity| x.idx() != e.idx() implies #[trigger] self.holds_slot(x) == s1.holds_slot(x) by {
            if self.allocator.free_list().contains(x.idx()) {
                let k = choose|k: int| 0 <= k < self.allocator.free_list().len() && self.allocator.free_list()[k] == x.idx();
                if k < s1.allocator.free_list().len() {
                    assert(s1.allocator.free_list()[k] == x.idx());
                }
            }
            if s1.allocator.free_list().contains(x.idx()) {
                let k = choose|k: int| 0 <= k < s1.allocator.free_list().len() && s1.allocator.free_list()[k] == x.idx();
                assert(self.allocator.free_list()[k] == x.idx());
            }
        }
    }


    // ── access ───────────────────────────────────────────────────────────

    /// The value of type `tid` of an entity: an error for a stale handle,
    /// `None` when the entity lacks the type.
    pub fn get_value(&self, e: Entity, tid: &TypeId) -> (r: Result<Option<&ComponentValue>, WorldError>)
        requires
            self.wf(),
        ensures
            !self.live(e) ==> r == Err::<Option<&ComponentValue>, WorldError>(WorldError::StaleEntity),
            self.live(e) ==> (r matches Ok(o) && (o is None <==> !self.view()[e].contains_key(*tid))
                && (o matches Some(v) ==> *v == self.view()[e][*tid])),
    {
        if !self.valid(e) {
            return Err(WorldError::StaleEntity);
        }
        let i = e.index() as usize;
        let a = self.slots[i].archetype.unwrap();
        let row = self.slots[i].row;
        proof {
            assert(self.slot_ok(i as int));
            assert(self.arch_ok(a as int));
            self.archetypes@[a as int].lemma_wf_facts();
        }
        match self.archetypes[a].column_index(tid) {
            Some(c) => {
                proof {
                    let arch = self.archetypes@[a as int];
                    lemma_seq_map_index(arch.type_ids(), arch.row(row as int), c as int);
                }
                Ok(Some(self.archetypes[a].cell_ref(c, row)))
            },
            None => Ok(None),
        }
    }

    /// Whether the entity has a component of type `tid`; an error for a
    /// stale handle.
    pub fn contains_type(&self, e: Entity, tid: &TypeId) -> (r: Result<bool, WorldError>)
        requires
            self.wf(),
        ensures
            !self.live(e) ==> r == Err::<bool, WorldError>(WorldError::StaleEntity),
            self.live(e) ==> r == Ok::<bool, WorldError>(self.view()[e].contains_key(*tid)),
    {
        match self.get_value(e, tid) {
            Ok(o) => Ok(o.is_some()),
            Err(err) => Err(err),
        }
    }

    /// Mutable access to the value of type `tid` of a live entity that has
    /// it. Whatever is written through the reference becomes the entity's
    /// value of that type; nothing else changes.
    pub fn value_mut(&mut self, e: Entity, tid: &TypeId) -> (v: &mut ComponentValue)
        requires
            old(self).wf(),
            old(self).live(e),
            old(self).view()[e].contains_key(*tid),
        ensures
            *v == old(self).view()[e][*tid],
            final(self).wf(),
            final(self).view() == old(self).view().insert(e, old(self).view()[e].insert(*tid, *final(v))),
            final(self).ids() == old(self).ids(),
            final(self).descs() == old(self).descs(),
            final(self).events() == old(self).events(),
            final(self).context() == old(self).context(),
            final(self).issued() == old(self).issued(),
            forall|x: Entity| #[trigger] final(self).holds_slot(x) == old(self).holds_slot(x),
    {
        let i = e.index() as usize;
        let a = self.slots[i].archetype.unwrap();
        let row = self.slots[i].row;
        proof {
            assert(self.slot_ok(i as int));
            assert(self.arch_ok(a as int));
            self.archetypes@[a as int].lemma_wf_facts();
        }
        let c = self.archetypes[a].column_index(tid).unwrap();
        proof {
            let arch = self.archetypes@[a as int];
            lemma_seq_map_index(arch.type_ids(), arch.row(row as int), c as int);
        }
        proof {
            Self::lemma_cell_write_any(&*self, e, a as int, c as int, row as int);
        }
        let arch = &mut self.archetypes[a];
        arch.cell_mut(c, row)
    }

    /// Whether `s` is `s0` with only the cell `(a, c, row)` overwritten.
    spec fn cell_written(s0: &Store, s: &Store, a: int, c: int, row: int) -> bool {
        &&& s.registry == s0.registry
        &&& s.allocator == s0.allocator
        &&& s.slots@ == s0.slots@
        &&& s.hook_events@ == s0.hook_events@
        &&& s.hook_context == s0.hook_context
        &&& s.archetypes@.len() == s0.archetypes@.len()
        &&& forall|b: int| 0 <= b < s.archetypes@.len() && b != a ==> #[trigger] s.archetypes@[b] == s0.archetypes@[b]
        &&& ({
            let x0 = s0.archetypes@[a];
            let x1 = s.archetypes@[a];
            &&& x1.wf()
            &&& x1.id_spec() == x0.id_spec()
            &&& x1.keys() == x0.keys()
            &&& x1.type_ids() == x0.type_ids()
            &&& x1.rows() == x0.rows()
            &&& x1.width() == x0.width()
            &&& forall|c2: int| 0 <= c2 < x0.width() ==> #[trigger] x1.col_desc(c2) == x0.col_desc(c2)
            &&& forall|c2: int, r2: int| 0 <= c2 < x0.width() && 0 <= r2 < x0.rows().len() ==>
                #[trigger] x1.cell(c2, r2) == if c2 == c && r2 == row { x1.cell(c, row) } else { x0.cell(c2, r2) }
        })
    }

    /// Every state that overwrites only the cell `(a, c, row)` of live
    /// entity `e` is consistent and changes exactly that component.
    proof fn lemma_cell_write_any(s0: &Store, e: Entity, a: int, c: int, row: int)
        requires
            s0.wf(),
            s0.live(e),
            0 <= a < s0.archetypes@.len(),
            s0.slots@[e.idx() as int].archetype.unwrap() as int == a,
            s0.slots@[e.idx() as int].row as int == row,
            0 <= c < s0.archetypes@[a].width(),
        ensures
            forall|s: Store| #![trigger s.view()] #![trigger s.wf()] Self::cell_written(s0, &s, a, c, row) ==> {
                &&& s.wf()
                &&& s.view() == s0.view().insert(e, s0.view()[e].insert(s0.archetypes@[a].type_ids()[c], s.archetypes@[a].cell(c, row)))
                &&& forall|x: Entity| #[trigger] s.holds_slot(x) == s0.holds_slot(x)
            },
    {
        assert forall|s: Store| #![trigger s.view()] #![trigger s.wf()] Self::cell_written(s0, &s, a, c, row) implies {
            &&& s.wf()
            &&& s.view() == s0.view().insert(e, s0.view()[e].insert(s0.archetypes@[a].type_ids()[c], s.archetypes@[a].cell(c, row)))
            &&& forall|x: Entity| #[trigger] s.holds_slot(x) == s0.holds_slot(x)
        } by {
            s.lemma_cell_write(s0, e, a, c, row, s.archetypes@[a].cell(c, row));
        }
    }

    /// Overwriting one cell of a live entity's row changes exactly that
    /// component of that entity.
    proof fn lemma_cell_write(&self, s0: &Store, e: Entity, a: int, c: int, row: int, nv: ComponentValue)
        requires
            s0.wf(),
            s0.live(e),
            0 <= a < s0.archetypes@.len(),
            s0.slots@[e.idx() as int].archetype.unwrap() as int == a,
            s0.slots@[e.idx() as int].row as int == row,
            0 <= c < s0.archetypes@[a].width(),
            self.registry == s0.registry,
            self.allocator == s0.allocator,
            self.slots@ == s0.slots@,
            self.hook_events@ == s0.hook_events@,
            self.hook_context == s0.hook_context,
            self.archetypes@.len() == s0.archetypes@.len(),
            forall|b: int| 0 <= b < self.archetypes@.len() && b != a ==> #[trigger] self.archetypes@[b] == s0.archetypes@[b],
            ({
                let x0 = s0.archetypes@[a];
                let x1 = self.archetypes@[a];
                &&& x1.wf()
                &&& x1.id_spec() == x0.id_spec()
                &&& x1.keys() == x0.keys()
                &&& x1.type_ids() == x0.type_ids()
                &&& x1.rows() == x0.rows()
                &&& x1.width() == x0.width()
                &&& forall|c2: int| 0 <= c2 < x0.width() ==> #[trigger] x1.col_desc(c2) == x0.col_desc(c2)
                &&& forall|c2: int, r2: int| 0 <= c2 < x0.width() && 0 <= r2 < x0.rows().len() ==>
                    #[trigger] x1.cell(c2, r2) == if c2 == c && r2 == row { nv } else { x0.cell(c2, r2) }
            }),
        ensures
            self.wf(),
            self.view() == s0.view().insert(e, s0.view()[e].insert(s0.archetypes@[a].type_ids()[c], nv)),
            forall|x: Entity| #[trigger] self.holds_slot(x) == s0.holds_slot(x),
    {
        let i = e.idx() as int;
        let x0 = s0.archetypes@[a];
        let x1 = self.archetypes@[a];
        assert(s0.slot_ok(i));
        assert(s0.arch_ok(a));
        x0.lemma_wf_facts();
        x1.lemma_wf_facts();
        assert forall|b: int| 0 <= b < self.archetypes@.len() implies #[trigger] self.arch_ok(b) by {
            assert(s0.arch_ok(b));
        }
        assert forall|b: int, r: int| 0 <= b < self.archetypes@.len() && 0 <= r < self.archetypes@[b].rows().len()
            implies #[trigger] self.row_ok(b, r) by {
            assert(s0.row_ok(b, r));
        }
        assert forall|j: int| 0 <= j < self.slots@.len() implies #[trigger] self.slot_ok(j) by {
            assert(s0.slot_ok(j));
        }
        assert(x1.row(row) =~= x0.row(row).update(c, nv));
        assert(x0.row(row).update(c, nv) =~= x0.row(row).remove(c).insert(c, nv));
        x0.type_ids().remove_ensures(c);
        lemma_seq_map_remove(x0.type_ids(), x0.row(row), c);
        assert(x0.type_ids() =~= x0.type_ids().remove(c).insert(c, x0.type_ids()[c]));
        assert(!x0.type_ids().remove(c).contains(x0.type_ids()[c])) by {
            if x0.type_ids().remove(c).contains(x0.type_ids()[c]) {
                let k = choose|k: int| 0 <= k < x0.type_ids().remove(c).len() && x0.type_ids().remove(c)[k] == x0.type_ids()[c];
                let ok = if k < c { k } else { k + 1 };
                assert(x0.type_ids()[ok] == x0.type_ids()[c]);
            }
        }
        lemma_seq_map_insert(x0.type_ids().remove(c), x0.row(row).remove(c), c, x0.type_ids()[c], nv);
        assert forall|x: Entity| self.live(x) && x != e implies #[trigger] self.slot_comps(x.idx() as int) == s0.slot_comps(x.idx() as int) by {
            let j = x.idx() as int;
            Entity::lemma_eq_parts(x, e);
            assert(s0.slot_ok(j));
            let b = s0.slots@[j].archetype.unwrap() as int;
            let r = s0.slots@[j].row as int;
            assert(s0.arch_ok(b));
            if b == a {
                assert(r != row);
            }
            Self::lemma_comps_same(s0, b, r, self, b, r);
        }
        assert forall|x: Entity| #[trigger] self.live(x) == s0.live(x) by {}
        let t = x0.type_ids()[c];
        let m0 = seq_map(x0.type_ids(), x0.row(row));
        assert(seq_map(x0.type_ids().remove(c), x0.row(row).remove(c)) == m0.remove(t));
        assert(seq_map(x0.type_ids(), x1.row(row)) == m0.remove(t).insert(t, nv));
        assert(m0.remove(t).insert(t, nv) =~= m0.insert(t, nv));
        assert(self.slot_comps(i) == s0.slot_comps(i).insert(t, nv));
        assert(self.view() =~= s0.view().insert(e, s0.view()[e].insert(s0.archetypes@[a].type_ids()[c], nv)));
    }

    /// The archetype and row of a live entity.
    pub fn location_of(&self, e: Entity) -> (r: Option<(usize, usize)>)
        requires
            self.wf(),
        ensures
            r is None <==> !self.live(e),
            r matches Some(loc) ==> loc == self.location(e),
    {
        if !self.valid(e) {
            return None;
        }
        let i = e.index() as usize;
        Some((self.slots[i].archetype.unwrap(), self.slots[i].row))
    }

    /// The archetype and row of a live entity (spec form).
    pub closed spec fn location(&self, e: Entity) -> (usize, usize) {
        (self.slots@[e.idx() as int].archetype.unwrap(), self.slots@[e.idx() as int].row)
    }

    /// The generation recorded in the entity's slot, if the slot exists.
    pub fn live_generation(&self, e: Entity) -> (r: Option<u32>)
        requires
            self.wf(),
        ensures
            r is None <==> e.idx() >= self.slot_total(),
            self.live(e) ==> r == Some(e.gen()),
            r matches Some(g) ==> g == self.slot_generation(e.idx() as int),
    {
        let i = e.index() as usize;
        if i >= self.slots.len() {
            return None;
        }
        Some(self.slots[i].generation)
    }

    /// Number of slots ever created.
    pub closed spec fn slot_total(&self) -> nat {
        self.slots@.len()
    }

    /// The generation recorded in slot `i`.
    pub closed spec fn slot_generation(&self, i: int) -> u32 {
        self.slots@[i].generation
    }

    /// The value of type `tid` at an exact location, without a slot lookup.
    pub fn get_at(&self, arch: usize, row: usize, tid: &TypeId) -> (r: Option<&ComponentValue>)
        requires
            self.wf(),
        ensures
            forall|e: Entity| self.live(e) && self.location(e) == (arch, row) ==>
                (r is None <==> !self.view()[e].contains_key(*tid))
                && (r matches Some(v) ==> *v == self.view()[e][*tid]),
    {
        if arch >= self.archetypes.len() {
            proof {
                assert forall|e: Entity| self.live(e) && self.location(e) == (arch, row) implies false by {
                    assert(self.slot_ok(e.idx() as int));
                }
            }
            return None;
        }
        proof {
            assert(self.arch_ok(arch as int));
            self.archetypes@[arch as int].lemma_wf_facts();
        }
        let c = match self.archetypes[arch].column_index(tid) {
            Some(c) => c,
            None => return None,
        };
        if row >= self.archetypes[arch].len() {
            proof {
                assert forall|e: Entity| self.live(e) && self.location(e) == (arch, row) implies false by {
                    assert(self.slot_ok(e.idx() as int));
                }
            }
            return None;
        }
        proof {
            let x = self.archetypes@[arch as int];
            lemma_seq_map_index(x.type_ids(), x.row(row as int), c as int);
            assert forall|e: Entity| self.live(e) && self.location(e) == (arch, row) implies
                self.view()[e][*tid] == x.cell(c as int, row as int) by {
                assert(self.slot_ok(e.idx() as int));
            }
        }
        Some(self.archetypes[arch].cell_ref(c, row))
    }

    /// Number of live entities.
    pub fn entity_count(&self) -> (n: usize)
        requires
            self.wf(),
        ensures
            n == self.view().dom().len(),
            n <= u32::MAX,
    {
        let mut n: usize = 0;
        let mut i: usize = 0;
        proof {
            assert(self.live_below(0) =~= Set::<Entity>::empty());
            self.allocator.lemma_wf_facts();
        }
        while i < self.slots.len()
            invariant
                self.wf(),
                i <= self.slots@.len(),
                n == self.live_below(i as int).len(),
                self.live_below(i as int).finite(),
                n <= i,
            decreases self.slots@.len() - i,
        {
            proof {
                self.lemma_live_below_step(i as int);
            }
            if self.slots[i].archetype.is_some() {
                n = n + 1;
            }
            i = i + 1;
        }
        proof {
            assert(self.live_below(self.slots@.len() as int) =~= self.view().dom());
        }
        n
    }

    /// Live entities whose slot index is below `i`.
    pub closed spec fn live_below(&self, i: int) -> Set<Entity> {
        Set::new(|e: Entity| self.live(e) && e.idx() < i)
    }

    proof fn lemma_live_below_step(&self, i: int)
        requires
            self.wf(),
            0 <= i < self.slots@.len(),
            self.live_below(i).finite(),
        ensures
            self.slots@[i].archetype is Some ==> self.live_below(i + 1) == self.live_below(i).insert(Entity::spec_from_parts(i as u32, self.slots@[i].generation))
                && !self.live_below(i).contains(Entity::spec_from_parts(i as u32, self.slots@[i].generation)),
            self.slots@[i].archetype is None ==> self.live_below(i + 1) == self.live_below(i),
            self.live_below(i + 1).finite(),
    {
        let g = self.slots@[i].generation;
        let ne = Entity::spec_from_parts(i as u32, g);
        Entity::lemma_from_parts(i as u32, g);
        assert(self.slot_ok(i));
        if self.slots@[i].archetype is Some {
            assert(!self.allocator.free_list().contains(i as u32)) by {
                if self.allocator.free_list().contains(i as u32) {
                    let k = choose|k: int| 0 <= k < self.allocator.free_list().len() && self.allocator.free_list()[k] == i as u32;
                    assert(self.slots@[self.allocator.free_list()[k] as int].archetype is None);
                }
            }
            assert(self.live(ne));
            assert forall|x: Entity| #[trigger] self.live_below(i + 1).contains(x) <==> self.live_below(i).insert(ne).contains(x) by {
                if self.live(x) && x.idx() == i {
                    Entity::lemma_eq_parts(x, ne);
                }
            }
            assert(self.live_below(i + 1) =~= self.live_below(i).insert(ne));
        } else {
            assert(self.live_below(i + 1) =~= self.live_below(i));
        }
    }


    /// Whether location `l1` comes before `l2` (archetype, then row).
    pub open spec fn loc_before(l1: (usize, usize), l2: (usize, usize)) -> bool {
        l1.0 < l2.0 || (l1.0 == l2.0 && l1.1 < l2.1)
    }

    /// Every live entity handle, each once, ordered by archetype then row.
    pub fn entities(&self) -> (out: Vec<Entity>)
        requires
            self.wf(),
        ensures
            out@.no_duplicates(),
            forall|x: Entity| #[trigger] out@.contains(x) <==> self.live(x),
            forall|k1: int, k2: int| 0 <= k1 < k2 < out@.len() ==>
                Self::loc_before(self.location(#[trigger] out@[k1]), self.location(#[trigger] out@[k2])),
    {
        let mut out: Vec<Entity> = Vec::new();
        let mut a: usize = 0;
        while a < self.archetypes.len()
            invariant
                self.wf(),
                a <= self.archetypes@.len(),
                out@.no_duplicates(),
                forall|k: int| 0 <= k < out@.len() ==> self.live(#[trigger] out@[k]) && self.location(out@[k]).0 < a,
                forall|x: Entity| self.live(x) && (self.location(x).0 as int) < a ==> #[trigger] out@.contains(x),
                forall|k1: int, k2: int| 0 <= k1 < k2 < out@.len() ==>
                    Self::loc_before(self.location(#[trigger] out@[k1]), self.location(#[trigger] out@[k2])),
            decreases self.archetypes@.len() - a,
        {
            let n = self.archetypes[a].len();
            let mut r: usize = 0;
            while r < n
                invariant
                    self.wf(),
                    a < self.archetypes@.len(),
                    n == self.archetypes@[a as int].rows().len(),
                    r <= n,
                    out@.no_duplicates(),
                    forall|k: int| 0 <= k < out@.len() ==> self.live(#[trigger] out@[k])
                        && Self::loc_before(self.location(out@[k]), (a, r)),
                    forall|x: Entity| self.live(x) && Self::loc_before(self.location(x), (a, r)) ==> #[trigger] out@.contains(x),
                    forall|k1: int, k2: int| 0 <= k1 < k2 < out@.len() ==>
                        Self::loc_before(self.location(#[trigger] out@[k1]), self.location(#[trigger] out@[k2])),
                decreases n - r,
            {
                let eidx = self.archetypes[a].entity_at(r);
                proof {
                    assert(self.row_ok(a as int, r as int));
                }
                let g = self.slots[eidx as usize].generation;
                let x = Entity::from_parts(eidx, g);
                proof {
                    Entity::lemma_from_parts(eidx, g);
                    assert(self.slots@[eidx as int].archetype is Some);
                    assert(!self.allocator.free_list().contains(eidx)) by {
                        if self.allocator.free_list().contains(eidx) {
                            let k = choose|k: int| 0 <= k < self.allocator.free_list().len() && self.allocator.free_list()[k] == eidx;
                            assert(self.slots@[self.allocator.free_list()[k] as int].archetype is None);
                        }
                    }
                    assert(self.live(x));
                    assert(self.location(x) == (a, r));
                    assert(!out@.contains(x)) by {
                        if out@.contains(x) {
                            let k = choose|k: int| 0 <= k < out@.len() && out@[k] == x;
                            assert(Self::loc_before(self.location(out@[k]), (a, r)));
                        }
                    }
                }
                let ghost prev = out@;
                out.push(x);
                r = r + 1;
                proof {
                    assert forall|y: Entity| self.live(y) && Self::loc_before(self.location(y), (a, r)) implies #[trigger] out@.contains(y) by {
                        if self.location(y) == (a, (r - 1) as usize) {
                            assert(self.slot_ok(y.idx() as int));
                            Entity::lemma_eq_parts(y, x);
                            assert(out@[out@.len() - 1] == x);
                        } else {
                            assert(Self::loc_before(self.location(y), (a, (r - 1) as usize)));
                            assert(prev.contains(y));
                            let k = choose|k: int| 0 <= k < prev.len() && prev[k] == y;
                            assert(out@[k] == y);
                        }
                    }
                    assert forall|k1: int, k2: int| 0 <= k1 < k2 < out@.len() implies
                        Self::loc_before(self.location(#[trigger] out@[k1]), self.location(#[trigger] out@[k2])) by {
                    }
                }
            }
            a = a + 1;
            proof {
                assert forall|y: Entity| self.live(y) && (self.location(y).0 as int) < a implies #[trigger] out@.contains(y) by {
                    assert(self.slot_ok(y.idx() as int));
                    if self.location(y).0 as int == a - 1 {
                        assert(Self::loc_before(self.location(y), ((a - 1) as usize, n)));
                    } else {
                        assert(Self::loc_before(self.location(y), ((a - 1) as usize, 0)));
                    }
                }
            }
        }
        proof {
            assert forall|x: Entity| #[trigger] out@.contains(x) <==> self.live(x) by {
                if self.live(x) {
                    assert(self.slot_ok(x.idx() as int));
                }
                if out@.contains(x) {
                    let k = choose|k: int| 0 <= k < out@.len() && out@[k] == x;
                    assert(self.live(out@[k]));
                }
            }
        }
        out
    }

    /// Creates an empty, live entity.
    pub fn create_empty(&mut self) -> (e: Entity)
        requires
            old(self).wf(),
            old(self).can_reserve(),
        ensures
            final(self).wf(),
            !old(self).issued().contains(e),
            final(self).issued() == old(self).issued().insert(e),
            !old(self).view().contains_key(e),
            final(self).view() == old(self).view().insert(e, Map::<TypeId, ComponentValue>::empty()),
            final(self).ids() == old(self).ids(),
            final(self).descs() == old(self).descs(),
            final(self).events() == old(self).events(),
            final(self).context() == old(self).context(),
    {
        let e = self.reserve_entity();
        self.create_into(e);
        proof {
            assert(!old(self).view().contains_key(e)) by {
                if old(self).live(e) {
                    assert(old(self).slot_ok(e.idx() as int));
                    Entity::lemma_from_parts(e.idx(), e.gen());
                }
            }
        }
        e
    }


    /// The `on_remove` firings for dropping a whole column of type `t`,
    /// one per entity in row order.
    pub open spec fn column_removal(d: ComponentDescriptor, t: TypeId, ents: Seq<Entity>, ctx: Option<u64>) -> Seq<HookEvent> {
        match (ctx, d.hooks) {
            (Some(c), Some(h)) => match h.on_remove {
                Some(id) => Seq::new(ents.len(), |r: int| HookEvent { kind: HookKind::Remove, hook: id, entity: ents[r], component: t, context: c }),
                None => Seq::empty(),
            },
            _ => Seq::empty(),
        }
    }

    /// The `on_remove` firings for dropping a whole archetype: its columns in
    /// order, each column's entities in row order.
    pub open spec fn table_removal(ids: Seq<TypeId>, descs: Seq<ComponentDescriptor>, ts: Seq<TypeId>, ents: Seq<Entity>, ctx: Option<u64>) -> Seq<HookEvent>
        decreases ts.len(),
    {
        if ts.len() == 0 {
            Seq::empty()
        } else {
            Self::table_removal(ids, descs, ts.drop_last(), ents, ctx)
                + Self::column_removal(descs[ids.index_of(ts.last())], ts.last(), ents, ctx)
        }
    }

    /// The live entities of archetype `a`, in row order.
    pub closed spec fn arch_entities(&self, a: int) -> Seq<Entity> {
        let rows = self.archetypes@[a].rows();
        Seq::new(rows.len(), |r: int| Entity::spec_from_parts(rows[r], self.slots@[rows[r] as int].generation))
    }

    /// The firings `clear` records for the first `n` archetypes.
    pub closed spec fn clear_events_upto(&self, n: int) -> Seq<HookEvent>
        decreases n,
    {
        if n <= 0 {
            Seq::empty()
        } else {
            self.clear_events_upto(n - 1)
                + Self::table_removal(self.ids(), self.descs(), self.archetypes@[n - 1].type_ids(), self.arch_entities(n - 1), self.context())
        }
    }

    /// The firings `clear` records: archetype by archetype (creation order),
    /// column by column (registration order), one per entity in row order.
    pub closed spec fn clear_events(&self) -> Seq<HookEvent> {
        self.clear_events_upto(self.archetypes@.len() as int)
    }

    /// Without a bound context a dropped table records nothing.
    proof fn lemma_no_context_no_table_events(ids: Seq<TypeId>, descs: Seq<ComponentDescriptor>, ts: Seq<TypeId>, ents: Seq<Entity>)
        ensures
            Self::table_removal(ids, descs, ts, ents, None) == Seq::<HookEvent>::empty(),
        decreases ts.len(),
    {
        if ts.len() > 0 {
            Self::lemma_no_context_no_table_events(ids, descs, ts.drop_last(), ents);
        }
    }

    /// Without a bound context `clear` records nothing.
    pub proof fn lemma_clear_records_nothing_unbound(&self)
        requires
            self.context() is None,
        ensures
            self.clear_events() == Seq::<HookEvent>::empty(),
    {
        self.lemma_clear_events_without_context(self.archetypes@.len() as int);
    }

    proof fn lemma_clear_events_without_context(&self, n: int)
        requires
            self.context() is None,
        ensures
            self.clear_events_upto(n) == Seq::<HookEvent>::empty(),
        decreases n,
    {
        if n > 0 {
            self.lemma_clear_events_without_context(n - 1);
            Self::lemma_no_context_no_table_events(self.ids(), self.descs(), self.archetypes@[n - 1].type_ids(), self.arch_entities(n - 1));
        }
    }

    /// Destroys every entity, keeping the archetypes and the registry.
    /// Every value is dropped (archetype by archetype, column by column)
    /// after its `on_remove` hook is recorded, and every live slot is freed
    /// in index order.
    pub fn clear(&mut self)
        requires
            old(self).wf(),
        ensures
            final(self).wf(),
            final(self).view() == Map::<Entity, Map<TypeId, ComponentValue>>::empty(),
            final(self).ids() == old(self).ids(),
            final(self).descs() == old(self).descs(),
            final(self).context() == old(self).context(),
            final(self).issued() == old(self).issued(),
            final(self).events() == old(self).events() + old(self).clear_events(),
    {
        let ghost s0 = *self;
        proof {
            self.allocator.lemma_wf_facts();
        }
        // Live slot indices, in increasing order.
        let mut released: Vec<u32> = Vec::new();
        let mut i: usize = 0;
        while i < self.slots.len()
            invariant
                *self == s0,
                s0.wf(),
                s0.slots@.len() <= u32::MAX,
                i <= self.slots@.len(),
                forall|k: int| 0 <= k < released@.len() ==> (#[trigger] released@[k] as int) < i && s0.slots@[released@[k] as int].archetype is Some,
                forall|j: int| 0 <= j < i && s0.slots@[j].archetype is Some ==> #[trigger] released@.contains(j as u32),
                forall|k1: int, k2: int| 0 <= k1 < k2 < released@.len() ==> #[trigger] released@[k1] < #[trigger] released@[k2],
            decreases self.slots@.len() - i,
        {
            if self.slots[i].archetype.is_some() {
                let ghost prev = released@;
                released.push(i as u32);
                proof {
                    assert forall|j: int| 0 <= j < i + 1 && s0.slots@[j].archetype is Some implies #[trigger] released@.contains(j as u32) by {
                        if j == i {
                            assert(released@[released@.len() - 1] == j as u32);
                        } else {
                            assert(prev.contains(j as u32));
                            let k = choose|k: int| 0 <= k < prev.len() && prev[k] == j as u32;
                            assert(released@[k] == j as u32);
                        }
                    }
                }
            }
            i = i + 1;
        }
        // Record removal hooks and drop every archetype's values.
        let ctx = self.hook_context;
        let mut a: usize = 0;
        while a < self.archetypes.len()
            invariant
                s0.wf(),
                a <= self.archetypes@.len(),
                self.archetypes@.len() == s0.archetypes@.len(),
                self.registry == s0.registry,
                self.allocator == s0.allocator,
                self.slots@ == s0.slots@,
                self.hook_context == s0.hook_context,
                ctx == s0.hook_context,
                forall|b: int| a <= b < self.archetypes@.len() ==> #[trigger] self.archetypes@[b] == s0.archetypes@[b],
                forall|b: int| 0 <= b < a ==> {
                    let x0 = s0.archetypes@[b];
                    let x1 = #[trigger] self.archetypes@[b];
                    &&& x1.wf()
                    &&& x1.id_spec() == x0.id_spec()
                    &&& x1.keys() == x0.keys()
                    &&& x1.type_ids() == x0.type_ids()
                    &&& x1.width() == x0.width()
                    &&& x1.rows() == Seq::<u32>::empty()
                    &&& forall|c: int| 0 <= c < x0.width() ==> #[trigger] x1.col_desc(c) == x0.col_desc(c)
                },
                self.hook_events@ == s0.hook_events@ + s0.clear_events_upto(a as int),
            decreases self.archetypes@.len() - a,
        {
            proof {
                assert(s0.arch_ok(a as int));
                s0.archetypes@[a as int].lemma_wf_facts();
                s0.registry.lemma_wf_facts();
            }
            let ghost x0 = s0.archetypes@[a as int];
            let ghost ents = s0.arch_entities(a as int);
            let ghost base = self.hook_events@;
            let ghost snap = *self;
            match ctx {
                Some(c) => {
                    let width = self.archetypes[a].types().len();
                    let n = self.archetypes[a].len();
                    let mut ci: usize = 0;
                    while ci < width
                        invariant
                            s0.wf(),
                            s0.arch_ok(a as int),
                            a < s0.archetypes@.len(),
                            self.archetypes@ == snap.archetypes@,
                            self.registry == snap.registry,
                            self.allocator == snap.allocator,
                            self.hook_context == snap.hook_context,
                            snap.archetypes@.len() == s0.archetypes@.len(),
                            self.archetypes@[a as int] == x0,
                            x0 == s0.archetypes@[a as int],
                            width == x0.type_ids().len(),
                            width == x0.width(),
                            n == x0.rows().len(),
                            ents == s0.arch_entities(a as int),
                            self.slots@ == s0.slots@,
                            ctx == Some(c),
                            s0.hook_context == Some(c),
                            ci <= width,
                            self.hook_events@ == base + Self::table_removal(s0.ids(), s0.descs(), x0.type_ids().take(ci as int), ents, Some(c)),
                        decreases width - ci,
                    {
                        let d = self.archetypes[a].column(ci).descriptor();
                        let t = self.archetypes[a].types()[ci];
                        let ghost before = self.hook_events@;
                        proof {
                            s0.registry.lemma_wf_facts();
                            let k = x0.keys()[ci as int] as int;
                            assert(s0.ids()[k] == t);
                            assert(s0.ids().contains(t));
                            assert(s0.ids().index_of(t) == k);
                            assert(d == s0.descs()[s0.ids().index_of(t)]);
                            assert(x0.type_ids().take(ci as int + 1).drop_last() =~= x0.type_ids().take(ci as int));
                            assert(x0.type_ids().take(ci as int + 1).last() == t);
                        }
                        match d.hooks {
                            Some(h) => match h.on_remove {
                                Some(id) => {
                                    let mut r: usize = 0;
                                    while r < n
                                        invariant
                                            s0.wf(),
                                            a < s0.archetypes@.len(),
                                            self.archetypes@ == snap.archetypes@,
                                            self.registry == snap.registry,
                                            self.allocator == snap.allocator,
                                            self.hook_context == snap.hook_context,
                                            snap.archetypes@.len() == s0.archetypes@.len(),
                                            self.archetypes@[a as int] == x0,
                                            x0 == s0.archetypes@[a as int],
                                            n == x0.rows().len(),
                                            ents == s0.arch_entities(a as int),
                                            self.slots@ == s0.slots@,
                                            r <= n,
                                            self.hook_events@ == before + Seq::new(r as nat, |q: int| HookEvent { kind: HookKind::Remove, hook: id, entity: ents[q], component: t, context: c }),
                                        decreases n - r,
                                    {
                                        let eidx = self.archetypes[a].entity_at(r);
                                        proof {
                                            assert(s0.row_ok(a as int, r as int));
                                        }
                                        let g = self.slots[eidx as usize].generation;
                                        self.hook_events.push(HookEvent { kind: HookKind::Remove, hook: id, entity: Entity::from_parts(eidx, g), component: t, context: c });
                                        r = r + 1;
                                        proof {
                                            assert(self.hook_events@ =~= before + Seq::new(r as nat, |q: int| HookEvent { kind: HookKind::Remove, hook: id, entity: ents[q], component: t, context: c }));
                                        }
                                    }
                                    proof {
                                        assert(Self::column_removal(d, t, ents, Some(c)) =~= Seq::new(n as nat, |q: int| HookEvent { kind: HookKind::Remove, hook: id, entity: ents[q], component: t, context: c }));
                                    }
                                },
                                None => {},
                            },
                            None => {},
                        }
                        ci = ci + 1;
                        proof {
                            assert(self.hook_events@ =~= base + Self::table_removal(s0.ids(), s0.descs(), x0.type_ids().take(ci as int), ents, Some(c)));
                        }
                    }
                    proof {
                        assert(x0.type_ids().take(width as int) =~= x0.type_ids());
                    }
                },
                None => {
                    proof {
                        Self::lemma_no_context_no_table_events(s0.ids(), s0.descs(), x0.type_ids(), ents);
                    }
                },
            }
            proof {
                assert(self.hook_events@ =~= s0.hook_events@ + s0.clear_events_upto(a as int + 1));
                assert(self.archetypes@[a as int] == x0);
            }
            self.archetypes[a].drop_all();
            a = a + 1;
        }
        // Every slot leaves its archetype.
        let ghost snap2 = *self;
        let mut j: usize = 0;
        while j < self.slots.len()
            invariant
                self.archetypes@ == snap2.archetypes@,
                self.registry == snap2.registry,
                self.allocator == snap2.allocator,
                self.hook_context == snap2.hook_context,
                self.hook_events@ == snap2.hook_events@,
                j <= self.slots@.len(),
                self.slots@.len() == s0.slots@.len(),
                forall|k: int| 0 <= k < self.slots@.len() ==> #[trigger] self.slots@[k].generation == s0.slots@[k].generation,
                forall|k: int| 0 <= k < j ==> #[trigger] self.slots@[k].archetype is None,
            decreases self.slots@.len() - j,
        {
            let g = self.slots[j].generation;
            self.slots.set(j, Slot { generation: g, archetype: None, row: 0 });
            j = j + 1;
        }
        // Free every released slot.
        let ghost snap3 = *self;
        let mut k: usize = 0;
        while k < released.len()
            invariant
                self.archetypes@ == snap3.archetypes@,
                self.registry == snap3.registry,
                self.slots@ == snap3.slots@,
                self.hook_context == snap3.hook_context,
                self.hook_events@ == snap3.hook_events@,
                k <= released@.len(),
                self.allocator.wf(),
                self.allocator.slot_count() == s0.allocator.slot_count(),
                self.allocator.issued() == s0.allocator.issued(),
                forall|q: int| 0 <= q < s0.allocator.slot_count() ==> {
                    &&& #[trigger] self.allocator.next_gen(q) == s0.allocator.next_gen(q)
                    &&& self.allocator.is_retired(q) == s0.allocator.is_retired(q)
                },
                forall|q: int| 0 <= q < released@.len() ==> (#[trigger] released@[q] as int) < s0.allocator.slot_count(),
            decreases released@.len() - k,
        {
            self.allocator.release(released[k]);
            k = k + 1;
        }
        proof {
            assert forall|b: int| 0 <= b < self.archetypes@.len() implies #[trigger] self.arch_ok(b) by {
                assert(s0.arch_ok(b));
            }
            assert forall|q: int| 0 <= q < self.slots@.len() implies #[trigger] self.slot_ok(q) by {
                assert(s0.slot_ok(q));
            }
            self.allocator.lemma_wf_facts();
            assert forall|x: Entity| !self.live(x) by {}
            assert(self.view() =~= Map::<Entity, Map<TypeId, ComponentValue>>::empty());
        }
    }

    /// Only the event log differs from `prev`.
    proof fn lemma_events_only(&self, prev: &Store)
        requires
            prev.wf(),
            self.registry == prev.registry,
            self.allocator == prev.allocator,
            self.archetypes@ == prev.archetypes@,
            self.slots@ == prev.slots@,
        ensures
            self.wf(),
            self.view() == prev.view(),
            forall|x: Entity| #[trigger] self.holds_slot(x) == prev.holds_slot(x),
    {
        assert forall|a: int| 0 <= a < self.archetypes@.len() implies #[trigger] self.arch_ok(a) by {
            assert(prev.arch_ok(a));
        }
        assert forall|a: int, r: int| 0 <= a < self.archetypes@.len() && 0 <= r < self.archetypes@[a].rows().len()
            implies #[trigger] self.row_ok(a, r) by {
            assert(prev.row_ok(a, r));
        }
        assert forall|j: int| 0 <= j < self.slots@.len() implies #[trigger] self.slot_ok(j) by {
            assert(prev.slot_ok(j));
        }
        assert forall|x: Entity| self.live(x) implies #[trigger] self.slot_comps(x.idx() as int) == prev.slot_comps(x.idx() as int) by {
        }
        assert(self.view() =~= prev.view());
    }

    /// The state after moving entity `e`'s row from archetype `at` to the
    /// archetype `nid` with the extra type `tid` (value `value`) inserted
    /// at column `p` is consistent, and only `e`'s components changed.
    proof fn lemma_migration(&self, s1: &Store, s2: &Store, e: Entity, new_row: Seq<ComponentValue>,
        at: int, nid: int, row: int, target: int, moved: Option<u32>)
        requires
            s1.wf(),
            s2.wf(),
            s1.live(e),
            s1.slots@[e.idx() as int].archetype == Some(at as usize),
            s1.slots@[e.idx() as int].row == row,
            0 <= at < s1.archetypes@.len(),
            at <= usize::MAX,
            nid <= usize::MAX,
            0 <= row <= usize::MAX,
            target <= usize::MAX,
            s2.registry == s1.registry,
            s2.allocator == s1.allocator,
            s2.slots@ == s1.slots@,
            s2.archetypes@.len() >= s1.archetypes@.len(),
            forall|a: int| 0 <= a < s1.archetypes@.len() ==> #[trigger] s2.archetypes@[a] == s1.archetypes@[a],
            0 <= nid < s2.archetypes@.len(),
            nid != at,
            new_row.len() == s2.archetypes@[nid].width(),
            target == s2.archetypes@[nid].rows().len(),
            moved == (if row + 1 < s2.archetypes@[at].rows().len() { Some(s2.archetypes@[at].rows().last()) } else { None::<u32> }),
            self.registry == s2.registry,
            self.allocator == s2.allocator,
            self.archetypes@.len() == s2.archetypes@.len(),
            forall|a: int| 0 <= a < self.archetypes@.len() && a != at && a != nid ==> #[trigger] self.archetypes@[a] == s2.archetypes@[a],
            ({
                let a0 = s2.archetypes@[at];
                let a1 = self.archetypes@[at];
                &&& a1.wf()
                &&& a1.id_spec() == a0.id_spec()
                &&& a1.keys() == a0.keys()
                &&& a1.type_ids() == a0.type_ids()
                &&& a1.width() == a0.width()
                &&& a1.rows() == swapped(a0.rows(), row)
                &&& forall|c: int| 0 <= c < a0.width() ==> #[trigger] a1.col_desc(c) == a0.col_desc(c)
                &&& forall|c: int| 0 <= c < a0.width() ==> #[trigger] a1.col_cells(c) == swapped(a0.col_cells(c), row)
            }),
            ({
                let n0 = s2.archetypes@[nid];
                let n1 = self.archetypes@[nid];
                &&& n1.wf()
                &&& n1.id_spec() == n0.id_spec()
                &&& n1.keys() == n0.keys()
                &&& n1.type_ids() == n0.type_ids()
                &&& n1.width() == n0.width()
                &&& n1.rows() == n0.rows().push(e.idx())
                &&& forall|c: int| 0 <= c < n0.width() ==> #[trigger] n1.col_desc(c) == n0.col_desc(c)
                &&& forall|c: int, r: int| 0 <= c < n0.width() && 0 <= r < n0.rows().len() ==> #[trigger] n1.cell(c, r) == n0.cell(c, r)
                &&& forall|c: int| 0 <= c < n0.width() ==> #[trigger] n1.cell(c, target) == new_row[c]
            }),
            ({
                let s_after_move = match moved {
                    Some(m) => s2.slots@.update(m as int, Slot { generation: s2.slots@[m as int].generation, archetype: s2.slots@[m as int].archetype, row: row as usize }),
                    None => s2.slots@,
                };
                self.slots@ == s_after_move.update(e.idx() as int, Slot { generation: s_after_move[e.idx() as int].generation, archetype: Some(nid as usize), row: target as usize })
            }),
        ensures
            self.wf(),
            self.view() == s1.view().insert(e, seq_map(s2.archetypes@[nid].type_ids(), new_row)),
            forall|x: Entity| #[trigger] self.holds_slot(x) == s1.holds_slot(x),
    {
        let i = e.idx() as int;
        let a0 = s2.archetypes@[at];
        let a1 = self.archetypes@[at];
        let n0 = s2.archetypes@[nid];
        let n1 = self.archetypes@[nid];
        assert(s1.slot_ok(i));
        assert(s2.slot_ok(i));
        assert(s1.arch_ok(at));
        assert(s2.arch_ok(at));
        assert(s2.arch_ok(nid));
        a0.lemma_wf_facts();
        a1.lemma_wf_facts();
        n0.lemma_wf_facts();
        n1.lemma_wf_facts();
        s1.registry.lemma_wf_facts();
        let last = a0.rows().len() - 1;
        assert(0 <= row <= last);
        assert(a0.rows()[row] == i as u32);
        let mi: int = if row < last { a0.rows()[last] as int } else { -1 };
        if row < last {
            assert(s2.row_ok(at, last));
            assert(s2.row_ok(at, row));
            assert(mi != i);
        }
        // Slot facts.
        assert forall|j: int| 0 <= j < self.slots@.len() && j != i && j != mi implies #[trigger] self.slots@[j] == s2.slots@[j] by {
        }
        assert(self.slots@[i] == (Slot { generation: s2.slots@[i].generation, archetype: Some(nid as usize), row: target as usize }));
        if row < last {
            assert(self.slots@[mi] == (Slot { generation: s2.slots@[mi].generation, archetype: Some(at as usize), row: row as usize }));
        }
        // arch_ok
        assert forall|a: int| 0 <= a < self.archetypes@.len() implies #[trigger] self.arch_ok(a) by {
            assert(s2.arch_ok(a));
        }
        // row_ok
        assert forall|a: int, r: int| 0 <= a < self.archetypes@.len() && 0 <= r < self.archetypes@[a].rows().len()
            implies #[trigger] self.row_ok(a, r) by {
            if a == at {
                if r == row {
                    assert(r < last);
                    assert(a1.rows()[r] == a0.rows()[last]);
                    assert(s2.row_ok(at, last));
                    assert(self.row_ok(a, r));
                } else {
                    assert(a1.rows()[r] == a0.rows()[r]);
                    assert(s2.row_ok(at, r));
                    let j = a0.rows()[r] as int;
                    assert(j != i);
                    if row < last {
                        assert(s2.row_ok(at, last));
                        assert(j != mi);
                    }
                    assert(self.slots@[j] == s2.slots@[j]);
                    assert(self.row_ok(a, r));
                }
            } else if a == nid {
                if r < n0.rows().len() {
                    assert(n1.rows()[r] == n0.rows()[r]);
                    assert(s2.row_ok(nid, r));
                    let j = n0.rows()[r] as int;
                    assert(j != i);
                    if row < last {
                        assert(s2.row_ok(at, last));
                        assert(j != mi);
                    }
                    assert(self.slots@[j] == s2.slots@[j]);
                    assert(self.row_ok(a, r));
                } else {
                    assert(n1.rows()[r] == i as u32);
                    assert(self.row_ok(a, r));
                }
            } else {
                assert(s2.row_ok(a, r));
                assert(s2.arch_ok(a));
                let j = s2.archetypes@[a].rows()[r] as int;
                assert(j != i);
                if row < last {
                    assert(s2.row_ok(at, last));
                    assert(s2.slots@[mi].archetype == Some(at as usize));
                    assert(s2.slots@[j].archetype == Some(a as usize));
                    assert(a as usize != at as usize);
                    assert(j != mi);
                }
                assert(self.slots@[j] == s2.slots@[j]);
                assert(self.row_ok(a, r));
            }
        }
        // slot_ok
        assert forall|j: int| 0 <= j < self.slots@.len() implies #[trigger] self.slot_ok(j) by {
            assert(s2.slot_ok(j));
            if j != i && j != mi {
                match s2.slots@[j].archetype {
                    Some(a) => {
                        let r = s2.slots@[j].row as int;
                        if a as int == at {
                            assert(r != row);
                            if row < last {
                                assert(r != last);
                            }
                            assert(a1.rows()[r] == a0.rows()[r]);
                        } else if a as int == nid {
                            assert(n1.rows()[r] == n0.rows()[r]);
                        }
                    },
                    None => {},
                }
            }
        }
        // free list
        assert forall|k: int| 0 <= k < self.allocator.free_list().len()
            implies #[trigger] self.slots@[self.allocator.free_list()[k] as int].archetype is None by {
            s2.allocator.lemma_wf_facts();
            let f = s2.allocator.free_list()[k] as int;
            assert(s2.slots@[f].archetype is None);
            if row < last {
                assert(s2.row_ok(at, last));
            }
            assert(f != i);
            assert(f != mi);
        }
        // components
        assert(n1.row(target) =~= new_row);
        assert forall|x: Entity| #[trigger] self.live(x) <==> s1.live(x) by {
        }
        assert forall|x: Entity| self.live(x) && x != e implies #[trigger] self.slot_comps(x.idx() as int) == s1.slot_comps(x.idx() as int) by {
            let j = x.idx() as int;
            Entity::lemma_eq_parts(x, e);
            assert(j != i);
            assert(s2.slot_ok(j));
            let a = s2.slots@[j].archetype.unwrap() as int;
            let r = s2.slots@[j].row as int;
            if j == mi {
                assert(s2.row_ok(at, last));
                Self::lemma_comps_same(s1, at, last, self, at, row);
            } else if a == at {
                assert(r != row);
                assert(r != last);
                Self::lemma_comps_same(s1, at, r, self, at, r);
            } else if a == nid {
                assert(s2.row_ok(nid, r));
                assert(nid >= s1.archetypes@.len() ==> n0.rows().len() == 0) by {
                    if nid >= s1.archetypes@.len() {
                        assert(s1.slot_ok(j));
                    }
                };
                assert(s1.slot_ok(j));
                assert(s1.archetypes@[nid] == n0);
                Self::lemma_comps_same(s1, nid, r, self, nid, r);
            } else {
                assert(s1.slot_ok(j));
                assert(s1.arch_ok(a));
                assert(s2.arch_ok(a));
                Self::lemma_comps_same(s1, a, r, self, a, r);
            }
        }
        assert(self.view() =~= s1.view().insert(e, seq_map(s2.archetypes@[nid].type_ids(), new_row)));
        assert forall|x: Entity| #[trigger] self.holds_slot(x) == s1.holds_slot(x) by {
        }
    }

    /// Index of the archetype with exactly the given registry positions,
    /// creating an empty one when there is none.
    fn archetype_for(&mut self, keys: Vec<usize>) -> (id: usize)
        requires
            old(self).wf(),
            strictly_sorted(keys@),
            forall|c: int| 0 <= c < keys@.len() ==> #[trigger] keys@[c] < old(self).ids().len(),
        ensures
            final(self).wf(),
            id < final(self).archetypes@.len(),
            final(self).archetypes@[id as int].keys() == keys@,
            final(self).archetypes@.len() >= old(self).archetypes@.len(),
            id < old(self).archetypes@.len() ==> final(self).archetypes@ == old(self).archetypes@,
            id >= old(self).archetypes@.len() ==> {
                &&& id == old(self).archetypes@.len()
                &&& final(self).archetypes@.drop_last() == old(self).archetypes@
                &&& final(self).archetypes@[id as int].rows() == Seq::<u32>::empty()
            },
            final(self).slots@ == old(self).slots@,
            final(self).registry == old(self).registry,
            final(self).allocator == old(self).allocator,
            final(self).hook_events@ == old(self).hook_events@,
            final(self).hook_context == old(self).hook_context,
            final(self).view() == old(self).view(),
    {
        let mut a: usize = 0;
        while a < self.archetypes.len()
            invariant
                a <= self.archetypes@.len(),
                *self == *old(self),
                old(self).wf(),
                forall|b: int| 0 <= b < a ==> self.archetypes@[b].keys() != keys@,
            decreases self.archetypes@.len() - a,
        {
            if same_keys(self.archetypes[a].key_list(), &keys) {
                return a;
            }
            a = a + 1;
        }
        let id = self.archetypes.len();
        let mut types: Vec<TypeId> = Vec::new();
        let mut descs: Vec<ComponentDescriptor> = Vec::new();
        let mut c: usize = 0;
        while c < keys.len()
            invariant
                *self == *old(self),
                self.registry.wf(),
                c <= keys@.len(),
                types@.len() == c,
                descs@.len() == c,
                forall|j: int| 0 <= j < keys@.len() ==> #[trigger] keys@[j] < self.registry.ids().len(),
                forall|j: int| 0 <= j < c ==> #[trigger] types@[j] == self.registry.ids()[keys@[j] as int],
                forall|j: int| 0 <= j < c ==> #[trigger] descs@[j] == self.registry.descs()[keys@[j] as int],
            decreases keys@.len() - c,
        {
            types.push(self.registry.id_at(keys[c]));
            descs.push(self.registry.descriptor_at(keys[c]));
            c = c + 1;
        }
        let ghost tys = types@;
        let arch = Archetype::with_keys(id, keys, types, descs.as_slice());
        self.archetypes.push(arch);
        proof {
            self.registry.lemma_wf_facts();
            assert(tys.no_duplicates()) by {
                assert forall|x: int, y: int| 0 <= x < y < tys.len() implies tys[x] != tys[y] by {
                    assert(keys@[x] < keys@[y]);
                    assert(self.registry.ids().no_duplicates());
                }
            }
            assert forall|b: int| 0 <= b < self.archetypes@.len() implies #[trigger] self.arch_ok(b) by {
                if b < id {
                    assert(old(self).arch_ok(b));
                    assert(self.archetypes@[b] == old(self).archetypes@[b]);
                } else {
                    let na = self.archetypes@[b];
                    na.lemma_wf_facts();
                    assert forall|c: int| 0 <= c < na.width() implies {
                        &&& #[trigger] na.keys()[c] < self.registry.ids().len()
                        &&& na.type_ids()[c] == self.registry.ids()[na.keys()[c] as int]
                        &&& na.col_desc(c) == self.registry.descs()[na.keys()[c] as int]
                    } by {
                        assert(na.keys()[c] == keys@[c]);
                    }
                }
            }
            assert forall|b: int, r: int| 0 <= b < self.archetypes@.len() && 0 <= r < self.archetypes@[b].rows().len()
                implies #[trigger] self.row_ok(b, r) by {
                assert(b < id);
                assert(old(self).row_ok(b, r));
            }
            assert forall|j: int| 0 <= j < self.slots@.len() implies #[trigger] self.slot_ok(j) by {
                assert(old(self).slot_ok(j));
            }
            assert forall|x: Entity| self.live(x) implies #[trigger] self.slot_comps(x.idx() as int) == old(self).slot_comps(x.idx() as int) by {
                assert(old(self).slot_ok(x.idx() as int));
            }
            assert(self.view() =~= old(self).view());
        }
        id
    }

    // ── validity ─────────────────────────────────────────────────────────

    /// Whether the handle names a live entity.
    pub fn valid(&self, e: Entity) -> (b: bool)
        requires
            self.wf(),
        ensures
            b == self.live(e),
            b == self.view().contains_key(e),
    {
        let i = e.index() as usize;
        i < self.slots.len() && self.slots[i].generation == e.generation() && self.slots[i].archetype.is_some()
    }
}

} // verus!
