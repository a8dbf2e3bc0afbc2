//! Archetype: a group of entities sharing the exact same component type set.
use vstd::prelude::*;
use std::any::TypeId;

use crate::erased::same_type_id;
use crate::registry::ComponentDescriptor;
use crate::storage::{swapped, Column, ComponentValue};

verus! {

/// One archetype: same component type set, one column per type, and the
/// entity slot index of every row. `keys` are the registry positions of the
/// types (strictly increasing in a world), `types` their identities.
pub struct Archetype {
    id: usize,
    keys: Vec<usize>,
    types: Vec<TypeId>,
    columns: Vec<Column>,
    entities: Vec<u32>,
}

impl Archetype {
    pub closed spec fn id_spec(&self) -> usize {
        self.id
    }

    /// Registry positions of the component types, in column order.
    pub closed spec fn keys(&self) -> Seq<usize> {
        self.keys@
    }

    /// Component type identities, in column order.
    pub closed spec fn type_ids(&self) -> Seq<TypeId> {
        self.types@
    }

    /// Entity slot index of each row.
    pub closed spec fn rows(&self) -> Seq<u32> {
        self.entities@
    }

    /// Number of columns.
    pub closed spec fn width(&self) -> nat {
        self.columns@.len()
    }

    /// The value stored in column `c` at row `r`.
    pub closed spec fn cell(&self, c: int, r: int) -> ComponentValue {
        self.columns@[c].cells()[r]
    }

    /// The values of column `c`, by row.
    pub closed spec fn col_cells(&self, c: int) -> Seq<ComponentValue> {
        self.columns@[c].cells()
    }

    /// The descriptor of column `c`.
    pub closed spec fn col_desc(&self, c: int) -> ComponentDescriptor {
        self.columns@[c].desc()
    }

    /// The values of row `r`, in column order.
    pub open spec fn row(&self, r: int) -> Seq<ComponentValue> {
        Seq::new(self.width(), |c: int| self.cell(c, r))
    }

    /// Shape consistency: one key, identity and column per type, one value
    /// per row in every column.
    pub closed spec fn wf(&self) -> bool {
        &&& self.keys@.len() == self.columns@.len()
        &&& self.types@.len() == self.columns@.len()
        &&& forall|c: int| 0 <= c < self.columns@.len() ==> #[trigger] self.columns@[c].cells().len() == self.entities@.len()
    }

    /// Facts that hold of every well-shaped archetype.
    pub proof fn lemma_wf_facts(&self)
        requires
            self.wf(),
        ensures
            self.keys().len() == self.width(),
            self.type_ids().len() == self.width(),
            forall|c: int| 0 <= c < self.width() ==> #[trigger] self.col_cells(c).len() == self.rows().len(),
            forall|c: int, r: int| #[trigger] self.cell(c, r) == self.col_cells(c)[r],
    {
    }

    /// Creates an empty archetype whose column order is the given order.
    /// `descriptors` aligns with `types`.
    pub fn new(id: usize, types: Vec<TypeId>, descriptors: &[ComponentDescriptor]) -> (a: Self)
        requires
            types@.len() == descriptors@.len(),
        ensures
            a.wf(),
            a.id_spec() == id,
            a.type_ids() == types@,
            a.keys() == Seq::new(types@.len(), |i: int| i as usize),
            a.rows() == Seq::<u32>::empty(),
            forall|c: int| 0 <= c < types@.len() ==> #[trigger] a.col_desc(c) == descriptors@[c],
    {
        let mut keys: Vec<usize> = Vec::new();
        let mut k: usize = 0;
        while k < types.len()
            invariant
                k <= types@.len(),
                keys@ == Seq::new(k as nat, |i: int| i as usize),
            decreases types@.len() - k,
        {
            keys.push(k);
            k = k + 1;
        }
        Self::with_keys(id, keys, types, descriptors)
    }

    /// Creates an empty archetype with explicit registry positions.
    pub fn with_keys(id: usize, keys: Vec<usize>, types: Vec<TypeId>, descriptors: &[ComponentDescriptor]) -> (a: Self)
        requires
            types@.len() == descriptors@.len(),
            keys@.len() == types@.len(),
        ensures
            a.wf(),
            a.id_spec() == id,
            a.type_ids() == types@,
            a.keys() == keys@,
            a.rows() == Seq::<u32>::empty(),
            forall|c: int| 0 <= c < types@.len() ==> #[trigger] a.col_desc(c) == descriptors@[c],
            forall|c: int| 0 <= c < types@.len() ==> #[trigger] a.col_cells(c) == Seq::<ComponentValue>::empty(),
    {
        let mut columns: Vec<Column> = Vec::new();
        let mut k: usize = 0;
        while k < descriptors.len()
            invariant
                k <= descriptors@.len(),
                columns@.len() == k,
                forall|c: int| 0 <= c < k ==> #[trigger] columns@[c].desc() == descriptors@[c],
                forall|c: int| 0 <= c < k ==> #[trigger] columns@[c].cells() == Seq::<ComponentValue>::empty(),
            decreases descriptors@.len() - k,
        {
            columns.push(Column::new(descriptors[k]));
            k = k + 1;
        }
        let a = Archetype { id, keys, types, columns, entities: Vec::new() };
        proof {
            assert forall|c: int| 0 <= c < a.columns@.len() implies #[trigger] a.columns@[c].cells().len() == a.entities@.len() by {
                assert(a.columns@[c].cells() == Seq::<ComponentValue>::empty());
            }
        }
        a
    }

    pub fn id(&self) -> (i: usize)
        ensures
            i == self.id_spec(),
    {
        self.id
    }

    pub fn types(&self) -> (t: &[TypeId])
        ensures
            t@ == self.type_ids(),
    {
        self.types.as_slice()
    }

    /// Registry positions of the column types.
    pub fn key_list(&self) -> (k: &Vec<usize>)
        ensures
            k@ == self.keys(),
    {
        &self.keys
    }

    pub fn len(&self) -> (n: usize)
        ensures
            n == self.rows().len(),
    {
        self.entities.len()
    }

    pub fn is_empty(&self) -> (b: bool)
        ensures
            b <==> self.rows().len() == 0,
    {
        self.entities.len() == 0
    }

    pub fn entity_at(&self, row: usize) -> (i: u32)
        requires
            row < self.rows().len(),
        ensures
            i == self.rows()[row as int],
    {
        self.entities[row]
    }

    /// Does this archetype hold the given component type?
    pub fn has(&self, t: &TypeId) -> (b: bool)
        ensures
            b <==> self.type_ids().contains(*t),
    {
        self.column_index(t).is_some()
    }

    /// Column index for a component type (its first occurrence).
    pub fn column_index(&self, t: &TypeId) -> (r: Option<usize>)
        ensures
            r is None <==> !self.type_ids().contains(*t),
            r matches Some(c) ==> c < self.type_ids().len() && self.type_ids()[c as int] == *t
                && forall|j: int| 0 <= j < c ==> self.type_ids()[j] != *t,
    {
        let mut k: usize = 0;
        while k < self.types.len()
            invariant
                0 <= k <= self.types@.len(),
                forall|j: int| 0 <= j < k ==> self.types@[j] != *t,
            decreases self.types@.len() - k,
        {
            if same_type_id(&self.types[k], t) {
                return Some(k);
            }
            k = k + 1;
        }
        None
    }

    /// Column index for a registry position.
    pub fn key_index(&self, key: usize) -> (r: Option<usize>)
        ensures
            r is None <==> !self.keys().contains(key),
            r matches Some(c) ==> c < self.keys().len() && self.keys()[c as int] == key
                && forall|j: int| 0 <= j < c ==> self.keys()[j] != key,
    {
        let mut k: usize = 0;
        while k < self.keys.len()
            invariant
                0 <= k <= self.keys@.len(),
                forall|j: int| 0 <= j < k ==> self.keys@[j] != key,
            decreases self.keys@.len() - k,
        {
            if self.keys[k] == key {
                return Some(k);
            }
            k = k + 1;
        }
        None
    }

    /// The column at position `c`.
    pub fn column(&self, c: usize) -> (col: &Column)
        requires
            c < self.width(),
        ensures
            col.cells() == self.col_cells(c as int),
            col.desc() == self.col_desc(c as int),
    {
        &self.columns[c]
    }

    /// The value of column `c` at row `r`.
    pub fn cell_ref(&self, c: usize, r: usize) -> (v: &ComponentValue)
        requires
            self.wf(),
            c < self.width(),
            r < self.rows().len(),
        ensures
            *v == self.cell(c as int, r as int),
    {
        self.columns[c].get(r)
    }

    /// Mutable access to the value of column `c` at row `r`.
    pub fn cell_mut(&mut self, c: usize, r: usize) -> (v: &mut ComponentValue)
        requires
            old(self).wf(),
            c < old(self).width(),
            r < old(self).rows().len(),
        ensures
            *v == old(self).cell(c as int, r as int),
            final(self).wf(),
            final(self).id_spec() == old(self).id_spec(),
            final(self).keys() == old(self).keys(),
            final(self).type_ids() == old(self).type_ids(),
            final(self).rows() == old(self).rows(),
            final(self).width() == old(self).width(),
            forall|c2: int| 0 <= c2 < old(self).width() ==> #[trigger] final(self).col_desc(c2) == old(self).col_desc(c2),
            forall|c2: int, r2: int| 0 <= c2 < old(self).width() && 0 <= r2 < old(self).rows().len() ==>
                #[trigger] final(self).cell(c2, r2) == if c2 == c && r2 == r { *final(v) } else { old(self).cell(c2, r2) },
    {
        let col = &mut self.columns[c];
        col.get_mut(r)
    }

    /// Appends a row.
    pub fn push_row(&mut self, entity_index: u32, values: Vec<ComponentValue>)
        requires
            old(self).wf(),
            values@.len() == old(self).width(),
        ensures
            final(self).wf(),
            final(self).id_spec() == old(self).id_spec(),
            final(self).keys() == old(self).keys(),
            final(self).type_ids() == old(self).type_ids(),
            final(self).width() == old(self).width(),
            final(self).rows() == old(self).rows().push(entity_index),
            forall|c: int| 0 <= c < old(self).width() ==> #[trigger] final(self).col_desc(c) == old(self).col_desc(c),
            forall|c: int, r: int| 0 <= c < old(self).width() && 0 <= r < old(self).rows().len() ==>
                #[trigger] final(self).cell(c, r) == old(self).cell(c, r),
            forall|c: int| 0 <= c < old(self).width() ==>
                #[trigger] final(self).cell(c, old(self).rows().len() as int) == values@[c],
    {
        let mut values = values;
        let n = self.columns.len();
        // Move the values out back to front, then push in column order.
        let mut rev: Vec<ComponentValue> = Vec::new();
        let ghost vals = values@;
        while values.len() > 0
            invariant
                values@.len() + rev@.len() == vals.len(),
                values@ == vals.subrange(0, values@.len() as int),
                forall|j: int| 0 <= j < rev@.len() ==> #[trigger] rev@[j] == vals[vals.len() - 1 - j],
            decreases values@.len(),
        {
            let v = values.pop().unwrap();
            rev.push(v);
        }
        let mut c: usize = 0;
        while c < n
            invariant
                n == self.columns@.len(),
                n == old(self).columns@.len(),
                vals.len() == n,
                c <= n,
                rev@.len() == n - c,
                forall|j: int| 0 <= j < rev@.len() ==> #[trigger] rev@[j] == vals[n - 1 - j + 0],
                forall|j: int| 0 <= j < rev@.len() ==> rev@[j] == vals[vals.len() - 1 - j],
                self.id == old(self).id,
                self.keys@ == old(self).keys@,
                self.types@ == old(self).types@,
                self.entities@ == old(self).entities@,
                forall|k: int| 0 <= k < n ==> #[trigger] self.columns@[k].desc() == old(self).columns@[k].desc(),
                forall|k: int| 0 <= k < c ==> #[trigger] self.columns@[k].cells() == old(self).col_cells(k).push(vals[k]),
                forall|k: int| c <= k < n ==> #[trigger] self.columns@[k].cells() == old(self).col_cells(k),
            decreases n - c,
        {
            let v = rev.pop().unwrap();
            self.columns[c].push(v);
            c = c + 1;
        }
        self.entities.push(entity_index);
        proof {
            assert(old(self).wf());
            assert forall|k: int| 0 <= k < self.columns@.len() implies #[trigger] self.columns@[k].cells().len() == self.entities@.len() by {
                assert(old(self).col_cells(k).len() == old(self).entities@.len());
            }
        }
    }

    /// Takes row `row` out of the archetype: every column's value at the row
    /// is returned (in column order) and the last row moves into its place.
    /// Returns the entity index that was moved into `row`, or `None` when
    /// `row` was the last row.
    pub fn take_row(&mut self, row: usize) -> (r: (Vec<ComponentValue>, Option<u32>))
        requires
            old(self).wf(),
            row < old(self).rows().len(),
        ensures
            final(self).wf(),
            final(self).id_spec() == old(self).id_spec(),
            final(self).keys() == old(self).keys(),
            final(self).type_ids() == old(self).type_ids(),
            final(self).width() == old(self).width(),
            final(self).rows() == swapped(old(self).rows(), row as int),
            r.0@ == old(self).row(row as int),
            r.1 == (if row + 1 < old(self).rows().len() { Some(old(self).rows().last()) } else { None }),
            forall|c: int| 0 <= c < old(self).width() ==> #[trigger] final(self).col_desc(c) == old(self).col_desc(c),
            forall|c: int| 0 <= c < old(self).width() ==>
                #[trigger] final(self).col_cells(c) == swapped(old(self).col_cells(c), row as int),
    {
        let n = self.columns.len();
        let mut out: Vec<ComponentValue> = Vec::new();
        let mut c: usize = 0;
        while c < n
            invariant
                n == self.columns@.len(),
                n == old(self).columns@.len(),
                old(self).wf(),
                row < old(self).entities@.len(),
                c <= n,
                out@.len() == c,
                forall|k: int| 0 <= k < c ==> #[trigger] out@[k] == old(self).cell(k, row as int),
                self.id == old(self).id,
                self.keys@ == old(self).keys@,
                self.types@ == old(self).types@,
                self.entities@ == old(self).entities@,
                forall|k: int| 0 <= k < n ==> #[trigger] self.columns@[k].desc() == old(self).columns@[k].desc(),
                forall|k: int| 0 <= k < c ==> #[trigger] self.columns@[k].cells() == swapped(old(self).col_cells(k), row as int),
                forall|k: int| c <= k < n ==> #[trigger] self.columns@[k].cells() == old(self).col_cells(k),
            decreases n - c,
        {
            proof {
                assert(old(self).columns@[c as int].cells().len() == old(self).entities@.len());
            }
            let v = self.columns[c].take_swap(row);
            out.push(v);
            c = c + 1;
        }
        let last = self.entities.len() - 1;
        let moved = if row != last { Some(self.entities[last]) } else { None };
        self.entities.swap_remove(row);
        proof {
            assert forall|k: int| 0 <= k < self.columns@.len() implies #[trigger] self.columns@[k].cells().len() == self.entities@.len() by {
                assert(old(self).col_cells(k).len() == old(self).entities@.len());
            }
            assert(out@ =~= old(self).row(row as int));
        }
        (out, moved)
    }

    /// Removes row `row` completely: drops every column's value at the row
    /// (column order), then moves the last row in. Returns the entity index
    /// that was moved into `row`, or `None` when `row` was the last row.
    pub fn remove_row(&mut self, row: usize) -> (moved: Option<u32>)
        requires
            old(self).wf(),
            row < old(self).rows().len(),
        ensures
            final(self).wf(),
            final(self).id_spec() == old(self).id_spec(),
            final(self).keys() == old(self).keys(),
            final(self).type_ids() == old(self).type_ids(),
            final(self).width() == old(self).width(),
            final(self).rows() == swapped(old(self).rows(), row as int),
            moved == (if row + 1 < old(self).rows().len() { Some(old(self).rows().last()) } else { None }),
            forall|c: int| 0 <= c < old(self).width() ==> #[trigger] final(self).col_desc(c) == old(self).col_desc(c),
            forall|c: int| 0 <= c < old(self).width() ==>
                #[trigger] final(self).col_cells(c) == swapped(old(self).col_cells(c), row as int),
    {
        let (values, moved) = self.take_row(row);
        let mut values = values;
        let mut rev: Vec<ComponentValue> = Vec::new();
        while values.len() > 0
            decreases values@.len(),
        {
            let v = values.pop().unwrap();
            rev.push(v);
        }
        while rev.len() > 0
            decreases rev@.len(),
        {
            let _dropped = rev.pop();
        }
        moved
    }

    /// Drops every element in every column (column order) and clears the
    /// entity list.
    pub fn drop_all(&mut self)
        requires
            old(self).wf(),
        ensures
            final(self).wf(),
            final(self).id_spec() == old(self).id_spec(),
            final(self).keys() == old(self).keys(),
            final(self).type_ids() == old(self).type_ids(),
            final(self).width() == old(self).width(),
            final(self).rows() == Seq::<u32>::empty(),
            forall|c: int| 0 <= c < old(self).width() ==> #[trigger] final(self).col_desc(c) == old(self).col_desc(c),
    {
        let n = self.columns.len();
        let mut c: usize = 0;
        while c < n
            invariant
                n == self.columns@.len(),
                c <= n,
                self.id == old(self).id,
                self.keys@ == old(self).keys@,
                self.types@ == old(self).types@,
                self.keys@.len() == n,
                self.types@.len() == n,
                forall|k: int| 0 <= k < n ==> #[trigger] self.columns@[k].desc() == old(self).columns@[k].desc(),
                forall|k: int| 0 <= k < c ==> #[trigger] self.columns@[k].cells() == Seq::<ComponentValue>::empty(),
            decreases n - c,
        {
            self.columns[c].clear();
            c = c + 1;
        }
        self.entities.clear();
    }
}

} // verus!
