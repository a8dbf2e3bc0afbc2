//! Generational entity handles and their allocator.
use vstd::prelude::*;

verus! {

/// A generational entity handle: `(index, generation)`.
///
/// The index addresses a slot; the generation detects reuse after destroy.
#[derive(Clone, Copy, PartialEq, Eq, Hash, Debug, Structural)]
pub struct Entity {
    index: u32,
    generation: u32,
}

impl Entity {
    /// The slot index of this handle (spec form).
    pub closed spec fn idx(self) -> u32 {
        self.index
    }

    /// The generation of this handle (spec form).
    pub closed spec fn gen(self) -> u32 {
        self.generation
    }

    /// The handle with the given parts (spec form of [`Entity::from_parts`]).
    pub closed spec fn spec_from_parts(index: u32, generation: u32) -> Entity {
        Entity { index, generation }
    }

    /// The parts of a handle built from parts.
    pub proof fn lemma_from_parts(index: u32, generation: u32)
        ensures
            Entity::spec_from_parts(index, generation).idx() == index,
            Entity::spec_from_parts(index, generation).gen() == generation,
            forall|e: Entity| e.idx() == index && e.gen() == generation ==> e == Entity::spec_from_parts(index, generation),
    {
    }

    /// Two handles are equal exactly when index and generation agree.
    pub proof fn lemma_eq_parts(a: Entity, b: Entity)
        ensures
            (a == b) <==> (a.idx() == b.idx() && a.gen() == b.gen()),
    {
    }

    /// Creates a handle from raw parts.
    pub fn from_parts(index: u32, generation: u32) -> (e: Self)
        ensures
            e.idx() == index,
            e.gen() == generation,
            e == Entity::spec_from_parts(index, generation),
    {
        Self { index, generation }
    }

    /// The slot index (address) of this handle.
    pub fn index(&self) -> (i: u32)
        ensures
            i == self.idx(),
    {
        self.index
    }

    /// The generation of this handle.
    pub fn generation(&self) -> (g: u32)
        ensures
            g == self.gen(),
    {
        self.generation
    }
}

/// Allocates entity indices with generations and a reuse list.
///
/// A destroyed entity's index returns to the free list; on reuse the
/// generation is incremented so old handles become stale. When the
/// generation would wrap to zero the slot is retired permanently.
pub struct EntityAllocator {
    /// Next generation to hand out per index.
    generations: Vec<u32>,
    /// `true` once an index is retired after generation overflow.
    retired: Vec<bool>,
    /// Indices available for reuse.
    free: Vec<u32>,
    /// First never-allocated index.
    next: u32,
    /// Every handle handed out so far.
    issued: Ghost<Set<Entity>>,
}

impl EntityAllocator {
    /// Number of slots ever created.
    pub closed spec fn slot_count(&self) -> nat {
        self.next as nat
    }

    /// The generation the slot will hand out next.
    pub closed spec fn next_gen(&self, i: int) -> u32 {
        self.generations@[i]
    }

    /// Whether the slot is retired for good.
    pub closed spec fn is_retired(&self, i: int) -> bool {
        self.retired@[i]
    }

    /// The reuse list, most recently released last.
    pub closed spec fn free_list(&self) -> Seq<u32> {
        self.free@
    }

    /// Every handle handed out so far.
    pub closed spec fn issued(&self) -> Set<Entity> {
        self.issued@
    }

    /// Internal consistency of the allocator.
    pub closed spec fn wf(&self) -> bool {
        &&& self.generations@.len() == self.next as nat
        &&& self.retired@.len() == self.next as nat
        &&& self.free@.no_duplicates()
        &&& forall|k: int| 0 <= k < self.free@.len() ==> {
            &&& #[trigger] self.free@[k] < self.next
            &&& !self.retired@[self.free@[k] as int]
        }
        &&& forall|e: Entity| #[trigger] self.issued@.contains(e) ==> {
            &&& e.idx() < self.next
            &&& (self.retired@[e.idx() as int] || e.gen() < self.generations@[e.idx() as int])
        }
        &&& forall|i: int| 0 <= i < self.next && #[trigger] self.retired@[i] ==> self.generations@[i] == 0
        &&& self.issued@.finite()
        &&& self.next as nat <= self.issued@.len()
    }

    /// Facts that hold of every consistent allocator.
    pub proof fn lemma_wf_facts(&self)
        requires
            self.wf(),
        ensures
            self.slot_count() <= u32::MAX,
            self.free_list().no_duplicates(),
            forall|k: int| 0 <= k < self.free_list().len() ==> {
                &&& #[trigger] self.free_list()[k] < self.slot_count()
                &&& !self.is_retired(self.free_list()[k] as int)
            },
            forall|e: Entity| #[trigger] self.issued().contains(e) ==> {
                &&& e.idx() < self.slot_count()
                &&& (self.is_retired(e.idx() as int) || e.gen() < self.next_gen(e.idx() as int))
            },
            self.issued().finite(),
            self.slot_count() <= self.issued().len(),
    {
    }

    /// Fewer than `u32::MAX` handles handed out leaves room for one more:
    /// every slot ever opened handed out at least one handle.
    pub proof fn lemma_room(&self)
        requires
            self.wf(),
        ensures
            self.issued().finite(),
            self.issued().len() < u32::MAX ==> self.can_allocate(),
    {
    }

    /// Whether one more handle can be handed out.
    pub fn has_room(&self) -> (b: bool)
        requires
            self.wf(),
        ensures
            b == self.can_allocate(),
    {
        self.free.len() > 0 || self.next < u32::MAX
    }

    /// Creates an empty allocator.
    pub fn new() -> (a: Self)
        ensures
            a.wf(),
            a.slot_count() == 0,
            a.free_list() == Seq::<u32>::empty(),
            a.issued() == Set::<Entity>::empty(),
    {
        EntityAllocator {
            generations: Vec::new(),
            retired: Vec::new(),
            free: Vec::new(),
            next: 0,
            issued: Ghost(Set::empty()),
        }
    }

    /// Whether `allocate` can run without exhausting the index space.
    pub open spec fn can_allocate(&self) -> bool {
        self.free_list().len() > 0 || self.slot_count() < u32::MAX
    }

    /// Allocates a fresh entity handle.
    ///
    /// Reuses the most recently released index when there is one, otherwise
    /// opens a new slot. The handle carries the slot's current generation;
    /// the slot's next generation is bumped (wrapping) and a slot whose
    /// generation wraps to zero is retired.
    pub fn allocate(&mut self) -> (e: Entity)
        requires
            old(self).wf(),
            old(self).can_allocate(),
        ensures
            final(self).wf(),
            old(self).free_list().len() > 0 ==> {
                &&& e.idx() == old(self).free_list().last()
                &&& final(self).free_list() == old(self).free_list().drop_last()
                &&& final(self).slot_count() == old(self).slot_count()
            },
            old(self).free_list().len() == 0 ==> {
                &&& e.idx() == old(self).slot_count()
                &&& final(self).free_list() == old(self).free_list()
                &&& final(self).slot_count() == old(self).slot_count() + 1
            },
            e.idx() < final(self).slot_count(),
            e.gen() == (if e.idx() < old(self).slot_count() { old(self).next_gen(e.idx() as int) } else { 0 }),
            e.gen() == u32::MAX ==> final(self).is_retired(e.idx() as int) && final(self).next_gen(e.idx() as int) == 0,
            e.gen() < u32::MAX ==> !final(self).is_retired(e.idx() as int) && final(self).next_gen(e.idx() as int) == e.gen() + 1,
            forall|i: int| 0 <= i < old(self).slot_count() && i != e.idx() ==> {
                &&& final(self).next_gen(i) == old(self).next_gen(i)
                &&& final(self).is_retired(i) == old(self).is_retired(i)
            },
            !old(self).issued().contains(e),
            final(self).issued() == old(self).issued().insert(e),
    {
        let index = if self.free.len() > 0 {
            let reused = self.free.pop().unwrap();
            proof {
                assert(old(self).free@[old(self).free@.len() - 1] == reused);
            }
            reused
        } else {
            let idx = self.next;
            self.next = self.next + 1;
            self.generations.push(0);
            self.retired.push(false);
            idx
        };
        proof {
            assert(self.free@.no_duplicates()) by {
                assert forall|a: int, b: int| 0 <= a < b < self.free@.len() implies self.free@[a] != self.free@[b] by {
                    assert(self.free@[a] == old(self).free@[a]);
                    assert(self.free@[b] == old(self).free@[b]);
                }
            }
        }
        let generation = self.generations[index as usize];
        let next_gen = generation.wrapping_add(1);
        self.generations.set(index as usize, next_gen);
        if next_gen == 0 {
            self.retired.set(index as usize, true);
        }
        let e = Entity::from_parts(index, generation);
        proof {
            if old(self).free@.len() > 0 {
                let k = old(self).free@.len() - 1;
                assert(old(self).free@[k] == index);
            }
            assert forall|k: int| 0 <= k < self.free@.len() implies {
                &&& #[trigger] self.free@[k] < self.next
                &&& !self.retired@[self.free@[k] as int]
            } by {
                if old(self).free@.len() > 0 {
                    assert(self.free@[k] == old(self).free@[k]);
                    assert(old(self).free@[k] != old(self).free@[old(self).free@.len() - 1]);
                } else {
                    assert(self.free@[k] == old(self).free@[k]);
                }
            }
            if old(self).issued@.contains(e) {
                assert(false);
            }
            self.issued@ = self.issued@.insert(e);
        }
        e
    }

    /// Returns the index to the free list for reuse. Out-of-range and
    /// retired indices are ignored; an index already in the list is not
    /// added twice.
    pub fn release(&mut self, index: u32)
        requires
            old(self).wf(),
        ensures
            final(self).wf(),
            final(self).slot_count() == old(self).slot_count(),
            forall|i: int| 0 <= i < old(self).slot_count() ==> {
                &&& final(self).next_gen(i) == old(self).next_gen(i)
                &&& final(self).is_retired(i) == old(self).is_retired(i)
            },
            final(self).issued() == old(self).issued(),
            (index >= old(self).slot_count() || old(self).is_retired(index as int)
                || old(self).free_list().contains(index)) ==> final(self).free_list() == old(self).free_list(),
            !(index >= old(self).slot_count() || old(self).is_retired(index as int)
                || old(self).free_list().contains(index)) ==> final(self).free_list() == old(self).free_list().push(index),
    {
        if index >= self.retired.len() as u32 {
            return;
        }
        if self.retired[index as usize] {
            return;
        }
        let mut found = false;
        let mut k: usize = 0;
        while k < self.free.len()
            invariant
                0 <= k <= self.free@.len(),
                found <==> exists|j: int| 0 <= j < k && self.free@[j] == index,
            decreases self.free@.len() - k,
        {
            if self.free[k] == index {
                found = true;
            }
            k = k + 1;
        }
        if !found {
            self.free.push(index);
            proof {
                assert(!old(self).free@.contains(index));
                assert forall|a: int, b: int| 0 <= a < b < self.free@.len() implies self.free@[a] != self.free@[b] by {
                    if b == self.free@.len() - 1 {
                        assert(self.free@[a] == old(self).free@[a]);
                    }
                }
                assert forall|k: int| 0 <= k < self.free@.len() implies {
                    &&& #[trigger] self.free@[k] < self.next
                    &&& !self.retired@[self.free@[k] as int]
                } by {
                    if k < old(self).free@.len() {
                        assert(self.free@[k] == old(self).free@[k]);
                    }
                }
            }
        } else {
            proof {
                let j = choose|j: int| 0 <= j < old(self).free@.len() && old(self).free@[j] == index;
                assert(old(self).free@.contains(index));
            }
        }
    }

    /// Current generation counter for an index: `None` for an index never
    /// created or retired.
    pub fn generation_of(&self, index: u32) -> (r: Option<u32>)
        requires
            self.wf(),
        ensures
            r == (if index >= self.slot_count() || self.is_retired(index as int) {
                None
            } else {
                Some(self.next_gen(index as int))
            }),
    {
        if index >= self.generations.len() as u32 || self.retired[index as usize] {
            None
        } else {
            Some(self.generations[index as usize])
        }
    }

    /// Whether an index is waiting on the reuse list.
    pub fn is_free(&self, index: u32) -> (b: bool)
        ensures
            b == self.free_list().contains(index),
    {
        let mut k: usize = 0;
        while k < self.free.len()
            invariant
                0 <= k <= self.free@.len(),
                forall|j: int| 0 <= j < k ==> self.free@[j] != index,
            decreases self.free@.len() - k,
        {
            if self.free[k] == index {
                return true;
            }
            k = k + 1;
        }
        false
    }

    /// Raises the next generation a live slot will hand out (the slot keeps
    /// every earlier generation stale).
    pub fn advance_generation(&mut self, index: u32, generation: u32)
        requires
            old(self).wf(),
            index < old(self).slot_count(),
            !old(self).is_retired(index as int),
            old(self).next_gen(index as int) <= generation,
        ensures
            final(self).wf(),
            final(self).slot_count() == old(self).slot_count(),
            final(self).next_gen(index as int) == generation,
            final(self).is_retired(index as int) == old(self).is_retired(index as int),
            forall|i: int| 0 <= i < old(self).slot_count() && i != index ==> {
                &&& final(self).next_gen(i) == old(self).next_gen(i)
                &&& final(self).is_retired(i) == old(self).is_retired(i)
            },
            final(self).free_list() == old(self).free_list(),
            final(self).issued() == old(self).issued(),
    {
        self.generations.set(index as usize, generation);
    }
}

impl Default for EntityAllocator {
    fn default() -> (a: Self)
        ensures
            a.wf(),
            a.slot_count() == 0,
            a.free_list() == Seq::<u32>::empty(),
            a.issued() == Set::<Entity>::empty(),
    {
        EntityAllocator::new()
    }
}

} // verus!
