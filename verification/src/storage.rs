//! Column storage: one component type's values, one per archetype row.
use vstd::prelude::*;

use crate::erased::ErasedBox;
use crate::go::hierarchy::{Children, Parent};
use crate::registry::ComponentDescriptor;

verus! {

/// A stored component value. Hierarchy edges are kept in the clear so the
/// game-object layer can reason about them; every other type is erased.
pub enum ComponentValue {
    Parent(Parent),
    Children(Children),
    Other(ErasedBox),
}

/// The sequence after `Vec::swap_remove(i)`: the last element moves to `i`.
pub open spec fn swapped<A>(s: Seq<A>, i: int) -> Seq<A> {
    s.update(i, s.last()).drop_last()
}

/// Column of one component type. Values are tightly packed by row.
pub struct Column {
    values: Vec<ComponentValue>,
    desc: ComponentDescriptor,
}

impl Column {
    /// The stored values, by row.
    pub closed spec fn cells(&self) -> Seq<ComponentValue> {
        self.values@
    }

    /// The column's descriptor.
    pub closed spec fn desc(&self) -> ComponentDescriptor {
        self.desc
    }

    /// Creates an empty column for a descriptor.
    pub fn new(desc: ComponentDescriptor) -> (c: Self)
        ensures
            c.cells() == Seq::<ComponentValue>::empty(),
            c.desc() == desc,
    {
        Column { values: Vec::new(), desc }
    }

    pub fn len(&self) -> (n: usize)
        ensures
            n == self.cells().len(),
    {
        self.values.len()
    }

    pub fn is_empty(&self) -> (b: bool)
        ensures
            b <==> self.cells().len() == 0,
    {
        self.values.len() == 0
    }

    /// The column's descriptor.
    pub fn descriptor(&self) -> (d: ComponentDescriptor)
        ensures
            d == self.desc(),
    {
        self.desc
    }

    /// Appends a value.
    pub fn push(&mut self, value: ComponentValue)
        ensures
            final(self).cells() == old(self).cells().push(value),
            final(self).desc() == old(self).desc(),
    {
        self.values.push(value);
    }

    /// The value at row `i`.
    pub fn get(&self, i: usize) -> (v: &ComponentValue)
        requires
            i < self.cells().len(),
        ensures
            *v == self.cells()[i as int],
    {
        &self.values[i]
    }

    /// Mutable access to the value at row `i`.
    pub fn get_mut(&mut self, i: usize) -> (v: &mut ComponentValue)
        requires
            i < old(self).cells().len(),
        ensures
            *v == old(self).cells()[i as int],
            final(self).cells() == old(self).cells().update(i as int, *final(v)),
            final(self).desc() == old(self).desc(),
    {
        &mut self.values[i]
    }

    /// Takes the value at row `i` out, moving the last value into its place.
    pub fn take_swap(&mut self, i: usize) -> (v: ComponentValue)
        requires
            i < old(self).cells().len(),
        ensures
            v == old(self).cells()[i as int],
            final(self).cells() == swapped(old(self).cells(), i as int),
            final(self).desc() == old(self).desc(),
    {
        self.values.swap_remove(i)
    }

    /// Drops the value at row `i`, moving the last value into its place.
    pub fn remove_swap(&mut self, i: usize)
        requires
            i < old(self).cells().len(),
        ensures
            final(self).cells() == swapped(old(self).cells(), i as int),
            final(self).desc() == old(self).desc(),
    {
        let _dropped = self.values.swap_remove(i);
    }

    /// Drops every value, first row first.
    pub fn clear(&mut self)
        ensures
            final(self).cells() == Seq::<ComponentValue>::empty(),
            final(self).desc() == old(self).desc(),
    {
        let mut rest: Vec<ComponentValue> = Vec::new();
        std::mem::swap(&mut rest, &mut self.values);
        let mut k: usize = rest.len();
        let mut front: Vec<ComponentValue> = Vec::new();
        // Reverse so values can be popped (and dropped) in row order.
        while k > 0
            invariant
                k == rest@.len(),
            decreases k,
        {
            let v = rest.pop().unwrap();
            front.push(v);
            k = k - 1;
        }
        while front.len() > 0
            decreases front@.len(),
        {
            let _dropped = front.pop();
        }
    }
}

} // verus!
