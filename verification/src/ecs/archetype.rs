//! Column storage for entities that share one set of component types.

use std::collections::HashMap;
use vstd::prelude::*;
use crate::ecs::component::{ComponentId, ComponentRegistry};
use crate::ecs::entity::Entity;

verus! {

/// A column of type-erased component values: one byte record per row, each
/// of the column's item size.
pub struct BlobVec {
    item_size: usize,
    align: usize,
    items: Vec<Vec<u8>>,
}

impl BlobVec {
    /// The stored records, by row.
    pub closed spec fn items_view(&self) -> Seq<Seq<u8>> {
        self.items@.map_values(|v: Vec<u8>| v@)
    }

    pub closed spec fn item_size_view(&self) -> usize {
        self.item_size
    }

    /// The alignment the stored type asks for.
    pub closed spec fn align_view(&self) -> usize {
        self.align
    }

    /// Every record has the column's item size.
    pub closed spec fn wf(&self) -> bool {
        forall|i: int| 0 <= i < self.items@.len() ==> (#[trigger] self.items@[i])@.len() == self.item_size
    }

    /// An empty column for values of `item_size` bytes aligned to `align`.
    pub fn new(item_size: usize, align: usize) -> (b: Self)
        ensures
            b.wf(),
            b.items_view() == Seq::<Seq<u8>>::empty(),
            b.item_size_view() == item_size,
            b.align_view() == align,
    {
        BlobVec { item_size, align, items: Vec::new() }
    }

    pub fn len(&self) -> (r: usize)
        ensures
            r == self.items_view().len(),
    {
        self.items.len()
    }

    pub fn is_empty(&self) -> (r: bool)
        ensures
            r == (self.items_view().len() == 0),
    {
        self.items.len() == 0
    }

    /// The column's storage: the records, row after row.
    pub fn data_ptr(&self) -> (r: &[Vec<u8>])
        ensures
            r@.map_values(|v: Vec<u8>| v@) == self.items_view(),
    {
        self.items.as_slice()
    }

    pub fn item_size(&self) -> (r: usize)
        ensures
            r == self.item_size_view(),
    {
        self.item_size
    }

    /// Alignment the stored type asks for.
    pub fn align(&self) -> (r: usize)
        ensures
            r == self.align_view(),
    {
        self.align
    }

    /// The record at `index`.
    pub fn get(&self, index: usize) -> (r: &Vec<u8>)
        requires
            index < self.items_view().len(),
        ensures
            r@ == self.items_view()[index as int],
    {
        &self.items[index]
    }

    /// The record at `index`, to change in place; the column stays well
    /// formed when the record keeps its size.
    pub fn get_mut(&mut self, index: usize) -> (r: &mut Vec<u8>)
        requires
            old(self).wf(),
            index < old(self).items_view().len(),
        ensures
            r@ == old(self).items_view()[index as int],
            final(self).items_view() == old(self).items_view().update(index as int, final(r)@),
            final(self).item_size_view() == old(self).item_size_view(),
            final(r)@.len() == old(self).item_size_view() ==> final(self).wf(),
    {
        proof {
            let items = self.items@;
            assert forall|x: Vec<u8>| (#[trigger] items.update(index as int, x)).map_values(|v: Vec<u8>| v@)
                == items.map_values(|v: Vec<u8>| v@).update(index as int, x@) by {
                assert(items.update(index as int, x).map_values(|v: Vec<u8>| v@) =~= items.map_values(|v: Vec<u8>| v@).update(
                    index as int,
                    x@,
                ));
            }
        }
        &mut self.items[index]
    }

    /// Append a record.
    pub fn push(&mut self, item: Vec<u8>)
        requires
            old(self).wf(),
            item@.len() == old(self).item_size_view(),
        ensures
            final(self).wf(),
            final(self).items_view() == old(self).items_view().push(item@),
            final(self).item_size_view() == old(self).item_size_view(),
    {
        self.items.push(item);
        proof {
            assert(self.items_view() =~= old(self).items_view().push(item@));
        }
    }

    /// Overwrite the record at `index`.
    pub fn replace(&mut self, index: usize, item: Vec<u8>)
        requires
            old(self).wf(),
            index < old(self).items_view().len(),
            item@.len() == old(self).item_size_view(),
        ensures
            final(self).wf(),
            final(self).items_view() == old(self).items_view().update(index as int, item@),
            final(self).item_size_view() == old(self).item_size_view(),
    {
        self.items.set(index, item);
        proof {
            assert(self.items_view() =~= old(self).items_view().update(index as int, item@));
        }
    }

    /// Remove the record at `index`, moving the last record into its place,
    /// and return the removed record.
    pub fn swap_remove(&mut self, index: usize) -> (r: Vec<u8>)
        requires
            old(self).wf(),
            index < old(self).items_view().len(),
        ensures
            final(self).wf(),
            r@ == old(self).items_view()[index as int],
            final(self).items_view() == old(self).items_view().update(
                index as int,
                old(self).items_view().last(),
            ).drop_last(),
            final(self).item_size_view() == old(self).item_size_view(),
    {
        let r = self.items.swap_remove(index);
        proof {
            assert(self.items_view() =~= old(self).items_view().update(
                index as int,
                old(self).items_view().last(),
            ).drop_last());
        }
        r
    }

    /// Remove every record.
    pub fn clear(&mut self)
        ensures
            final(self).wf(),
            final(self).items_view() == Seq::<Seq<u8>>::empty(),
            final(self).item_size_view() == old(self).item_size_view(),
    {
        self.items.clear();
        proof {
            assert(self.items_view() =~= Seq::<Seq<u8>>::empty());
        }
    }
}

/// Identifies an archetype within the `World`.
#[derive(Debug, Clone, Copy, PartialEq, Eq, Structural, Hash)]
pub struct ArchetypeId(pub usize);

/// Where an entity's components are stored.
#[derive(Debug, Clone, Copy, PartialEq, Eq, Structural)]
pub struct EntityLocation {
    pub archetype_id: ArchetypeId,
    pub row: usize,
}

impl EntityLocation {
    /// The location of an entity that has none.
    pub fn invalid() -> (r: Self)
        ensures
            r.archetype_id.0 == usize::MAX,
            r.row == usize::MAX,
    {
        EntityLocation { archetype_id: ArchetypeId(usize::MAX), row: usize::MAX }
    }
}

/// Component ids sorted strictly ascending.
pub open spec fn strictly_sorted(ids: Seq<ComponentId>) -> bool {
    forall|i: int, j: int| 0 <= i < j < ids.len() ==> ids[i].0 < ids[j].0
}

/// Column-oriented storage for entities that share the same component set.
pub struct Archetype {
    id: ArchetypeId,
    /// Sorted component ids that define this archetype.
    component_ids: Vec<ComponentId>,
    /// Parallel to `component_ids`: one column per component type.
    columns: Vec<BlobVec>,
    /// Row to entity.
    entities: Vec<Entity>,
    /// Cached transitions: adding component (by id) leads to this archetype.
    add_edges: HashMap<u32, usize>,
    /// Cached transitions: removing component (by id) leads to this archetype.
    remove_edges: HashMap<u32, usize>,
    /// Per column, per row: tick when the value was last written.
    change_ticks: Vec<Vec<u32>>,
    /// Per column, per row: tick when the component was added.
    added_ticks: Vec<Vec<u32>>,
}

impl Archetype {
    pub closed spec fn id_view(&self) -> ArchetypeId {
        self.id
    }

    pub closed spec fn ids_view(&self) -> Seq<ComponentId> {
        self.component_ids@
    }

    pub closed spec fn entities_view(&self) -> Seq<Entity> {
        self.entities@
    }

    /// Number of columns the archetype stores.
    pub closed spec fn column_count(&self) -> nat {
        self.columns@.len()
    }

    /// Records of column `c`.
    pub closed spec fn column_view(&self, c: int) -> Seq<Seq<u8>> {
        self.columns@[c].items_view()
    }

    /// Item size of column `c`.
    pub closed spec fn column_size(&self, c: int) -> usize {
        self.columns@[c].item_size_view()
    }

    pub closed spec fn change_view(&self, c: int) -> Seq<u32> {
        self.change_ticks@[c]@
    }

    pub closed spec fn added_view(&self, c: int) -> Seq<u32> {
        self.added_ticks@[c]@
    }

    pub closed spec fn add_edges_view(&self) -> Map<u32, usize> {
        self.add_edges@
    }

    pub closed spec fn remove_edges_view(&self) -> Map<u32, usize> {
        self.remove_edges@
    }

    /// Every column, and every tick list, has one entry per entity; columns
    /// match the component list; component ids are sorted.
    pub closed spec fn wf(&self) -> bool {
        &&& strictly_sorted(self.component_ids@)
        &&& self.columns@.len() == self.component_ids@.len()
        &&& self.change_ticks@.len() == self.component_ids@.len()
        &&& self.added_ticks@.len() == self.component_ids@.len()
        &&& forall|c: int|
            0 <= c < self.columns@.len() ==> {
                &&& (#[trigger] self.columns@[c]).wf()
                &&& self.columns@[c].items_view().len() == self.entities@.len()
                &&& self.change_ticks@[c]@.len() == self.entities@.len()
                &&& self.added_ticks@[c]@.len() == self.entities@.len()
            }
    }

    /// One column and one pair of tick lists per component, each column
    /// holding records of its own size; rows may be half assembled.
    pub closed spec fn well_shaped(&self) -> bool {
        &&& self.columns@.len() == self.component_ids@.len()
        &&& self.change_ticks@.len() == self.component_ids@.len()
        &&& self.added_ticks@.len() == self.component_ids@.len()
        &&& forall|c: int| 0 <= c < self.columns@.len() ==> (#[trigger] self.columns@[c]).wf()
    }

    /// Column sizes follow the registry's sizes for the component ids.
    pub open spec fn sizes_match(&self, sizes: Seq<usize>) -> bool {
        &&& forall|c: int|
            0 <= c < self.ids_view().len() ==> (#[trigger] self.ids_view()[c]).0 < sizes.len()
        &&& forall|c: int|
            0 <= c < self.ids_view().len() ==> #[trigger] self.column_size(c)
                == sizes[self.ids_view()[c].0 as int]
    }

    /// An empty archetype for a sorted set of registered component ids.
    pub fn new(id: ArchetypeId, component_ids: Vec<ComponentId>, registry: &ComponentRegistry) -> (a: Self)
        requires
            registry.wf(),
            strictly_sorted(component_ids@),
            forall|c: int| 0 <= c < component_ids@.len() ==> (#[trigger] component_ids@[c]).0 < registry.keys().len(),
        ensures
            a.wf(),
            a.id_view() == id,
            a.ids_view() == component_ids@,
            a.entities_view() == Seq::<Entity>::empty(),
            a.sizes_match(registry.sizes()),
            a.add_edges_view() == Map::<u32, usize>::empty(),
            a.remove_edges_view() == Map::<u32, usize>::empty(),
    {
        let mut columns: Vec<BlobVec> = Vec::new();
        let mut change_ticks: Vec<Vec<u32>> = Vec::new();
        let mut added_ticks: Vec<Vec<u32>> = Vec::new();
        let mut c: usize = 0;
        while c < component_ids.len()
            invariant
                registry.wf(),
                c <= component_ids@.len(),
                columns@.len() == c,
                change_ticks@.len() == c,
                added_ticks@.len() == c,
                forall|k: int| 0 <= k < component_ids@.len() ==> (#[trigger] component_ids@[k]).0 < registry.keys().len(),
                forall|k: int| 0 <= k < c ==> {
                    &&& (#[trigger] columns@[k]).wf()
                    &&& columns@[k].items_view().len() == 0
                    &&& columns@[k].item_size_view() == registry.sizes()[component_ids@[k].0 as int]
                    &&& change_ticks@[k]@.len() == 0
                    &&& added_ticks@[k]@.len() == 0
                },
            decreases component_ids@.len() - c,
        {
            let info = registry.get_info(component_ids[c]);
            proof {
                assert(registry.sizes()[component_ids@[c as int].0 as int] == info.size);
            }
            columns.push(BlobVec::new(info.size, info.align));
            change_ticks.push(Vec::new());
            added_ticks.push(Vec::new());
            c = c + 1;
        }
        Archetype {
            id,
            component_ids,
            columns,
            entities: Vec::new(),
            add_edges: HashMap::new(),
            remove_edges: HashMap::new(),
            change_ticks,
            added_ticks,
        }
    }

    pub fn id(&self) -> (r: ArchetypeId)
        ensures
            r == self.id_view(),
    {
        self.id
    }

    pub fn component_ids(&self) -> (r: &[ComponentId])
        ensures
            r@ == self.ids_view(),
    {
        self.component_ids.as_slice()
    }

    pub fn entities(&self) -> (r: &[Entity])
        ensures
            r@ == self.entities_view(),
    {
        self.entities.as_slice()
    }

    pub fn len(&self) -> (r: usize)
        ensures
            r == self.entities_view().len(),
    {
        self.entities.len()
    }

    pub fn is_empty(&self) -> (r: bool)
        ensures
            r == (self.entities_view().len() == 0),
    {
        self.entities.len() == 0
    }

    /// Binary-search for the column of component `id`.
    pub fn column_index(&self, id: ComponentId) -> (r: Option<usize>)
        requires
            self.wf(),
        ensures
            match r {
                Some(c) => c < self.ids_view().len() && self.ids_view()[c as int] == id,
                None => !self.ids_view().contains(id),
            },
    {
        let mut lo: usize = 0;
        let mut hi: usize = self.component_ids.len();
        while lo < hi
            invariant
                self.wf(),
                lo <= hi <= self.component_ids@.len(),
                forall|k: int| 0 <= k < lo ==> self.component_ids@[k].0 < id.0,
                forall|k: int| hi <= k < self.component_ids@.len() ==> self.component_ids@[k].0 > id.0,
            decreases hi - lo,
        {
            let mid = lo + (hi - lo) / 2;
            let v = self.component_ids[mid].0;
            if v == id.0 {
                return Some(mid);
            } else if v < id.0 {
                lo = mid + 1;
            } else {
                hi = mid;
            }
        }
        proof {
            if self.component_ids@.contains(id) {
                let k = choose|k: int| 0 <= k < self.component_ids@.len() && self.component_ids@[k] == id;
            }
        }
        None
    }

    pub fn has_component(&self, id: ComponentId) -> (r: bool)
        requires
            self.wf(),
        ensures
            r == self.ids_view().contains(id),
    {
        match self.column_index(id) {
            Some(c) => {
                proof {
                    assert(self.ids_view()[c as int] == id);
                }
                true
            },
            None => false,
        }
    }

    /// The records of column `col`.
    pub fn column_data_ptr(&self, col: usize) -> (r: &[Vec<u8>])
        requires
            col < self.column_count(),
        ensures
            r@.map_values(|v: Vec<u8>| v@) == self.column_view(col as int),
    {
        self.columns[col].data_ptr()
    }

    /// Item size of column `col`.
    pub fn column_item_size(&self, col: usize) -> (r: usize)
        requires
            col < self.column_count(),
        ensures
            r == self.column_size(col as int),
    {
        self.columns[col].item_size()
    }

    /// The record of column `col` at `row`.
    pub fn component_data(&self, col: usize, row: usize) -> (r: &Vec<u8>)
        requires
            self.wf(),
            col < self.column_count(),
            row < self.entities_view().len(),
        ensures
            r@ == self.column_view(col as int)[row as int],
    {
        self.columns[col].get(row)
    }

    /// The record of column `col` at `row`, to change in place; the
    /// archetype stays well formed when the record keeps its size.
    pub fn component_data_mut(&mut self, col: usize, row: usize) -> (r: &mut Vec<u8>)
        requires
            old(self).wf(),
            col < old(self).column_count(),
            row < old(self).entities_view().len(),
        ensures
            r@ == old(self).column_view(col as int)[row as int],
            final(self).id_view() == old(self).id_view(),
            final(self).ids_view() == old(self).ids_view(),
            final(self).column_count() == old(self).column_count(),
            final(self).entities_view() == old(self).entities_view(),
            forall|c: int| 0 <= c < old(self).column_count() ==> #[trigger] final(self).column_view(c) == if c == col {
                old(self).column_view(c).update(row as int, final(r)@)
            } else {
                old(self).column_view(c)
            },
            forall|c: int| 0 <= c < old(self).column_count() ==> #[trigger] final(self).column_size(c) == old(self).column_size(c),
            forall|c: int| 0 <= c < old(self).column_count() ==> #[trigger] final(self).change_view(c) == old(self).change_view(c),
            forall|c: int| 0 <= c < old(self).column_count() ==> #[trigger] final(self).added_view(c) == old(self).added_view(c),
            final(self).add_edges_view() == old(self).add_edges_view(),
            final(self).remove_edges_view() == old(self).remove_edges_view(),
            final(r)@.len() == old(self).column_size(col as int) ==> final(self).wf(),
    {
        proof {
            assert(self.columns@[col as int].wf());
        }
        self.columns[col].get_mut(row)
    }

    // -- Edges ---------------------------------------------------------------

    pub fn add_edge(&self, component: ComponentId) -> (r: Option<ArchetypeId>)
        ensures
            match r {
                Some(t) => self.add_edges_view().contains_key(component.0)
                    && self.add_edges_view()[component.0] == t.0,
                None => !self.add_edges_view().contains_key(component.0),
            },
    {
        broadcast use vstd::std_specs::hash::group_hash_axioms;
        match self.add_edges.get(&component.0) {
            Some(t) => Some(ArchetypeId(*t)),
            None => None,
        }
    }

    pub fn remove_edge(&self, component: ComponentId) -> (r: Option<ArchetypeId>)
        ensures
            match r {
                Some(t) => self.remove_edges_view().contains_key(component.0)
                    && self.remove_edges_view()[component.0] == t.0,
                None => !self.remove_edges_view().contains_key(component.0),
            },
    {
        broadcast use vstd::std_specs::hash::group_hash_axioms;
        match self.remove_edges.get(&component.0) {
            Some(t) => Some(ArchetypeId(*t)),
            None => None,
        }
    }

    pub fn set_add_edge(&mut self, component: ComponentId, target: ArchetypeId)
        ensures
            final(self).add_edges_view() == old(self).add_edges_view().insert(component.0, target.0),
            final(self).remove_edges_view() == old(self).remove_edges_view(),
            final(self).wf() == old(self).wf(),
            final(self).same_rows(*old(self)),
    {
        broadcast use vstd::std_specs::hash::group_hash_axioms;
        self.add_edges.insert(component.0, target.0);
    }

    pub fn set_remove_edge(&mut self, component: ComponentId, target: ArchetypeId)
        ensures
            final(self).remove_edges_view() == old(self).remove_edges_view().insert(component.0, target.0),
            final(self).add_edges_view() == old(self).add_edges_view(),
            final(self).wf() == old(self).wf(),
            final(self).same_rows(*old(self)),
    {
        broadcast use vstd::std_specs::hash::group_hash_axioms;
        self.remove_edges.insert(component.0, target.0);
    }

    /// Same id, components, entities, columns and ticks as `other`.
    pub closed spec fn same_rows(&self, other: Archetype) -> bool {
        &&& self.id == other.id
        &&& self.component_ids@ == other.component_ids@
        &&& self.columns@ == other.columns@
        &&& self.entities@ == other.entities@
        &&& self.change_ticks@ == other.change_ticks@
        &&& self.added_ticks@ == other.added_ticks@
    }

    // -- Mutation -------------------------------------------------------------

    /// Register the entity of the most recently pushed row.
    pub fn push_entity(&mut self, entity: Entity)
        ensures
            final(self).entities_view() == old(self).entities_view().push(entity),
            final(self).ids_view() == old(self).ids_view(),
            final(self).column_count() == old(self).column_count(),
            forall|c: int| 0 <= c < old(self).column_count() ==> final(self).column_view(c) == old(self).column_view(c),
    {
        self.entities.push(entity);
    }

    /// Swap-remove from the entity list; returns the entity moved into `row`.
    fn swap_remove_entity_slot(&mut self, row: usize) -> (r: Option<Entity>)
        requires
            row < old(self).entities@.len(),
        ensures
            final(self).entities@ == old(self).entities@.update(row as int, old(self).entities@.last()).drop_last(),
            r == (if row + 1 == old(self).entities@.len() { None } else { Some(old(self).entities@.last()) }),
            final(self).component_ids@ == old(self).component_ids@,
            final(self).columns@ == old(self).columns@,
            final(self).change_ticks@ == old(self).change_ticks@,
            final(self).added_ticks@ == old(self).added_ticks@,
            final(self).id == old(self).id,
            final(self).add_edges@ == old(self).add_edges@,
            final(self).remove_edges@ == old(self).remove_edges@,
    {
        let last = self.entities.len() - 1;
        let swapped = if row != last {
            Some(self.entities[last])
        } else {
            None
        };
        self.entities.swap_remove(row);
        swapped
    }

    /// Remove the entity at `row` with all its component data. Returns the
    /// entity that was moved into `row`, if any.
    pub fn remove_entity_drop(&mut self, row: usize) -> (r: Option<Entity>)
        requires
            old(self).wf(),
            row < old(self).entities_view().len(),
        ensures
            final(self).wf(),
            final(self).id_view() == old(self).id_view(),
            final(self).ids_view() == old(self).ids_view(),
            final(self).column_count() == old(self).column_count(),
            final(self).entities_view() == old(self).entities_view().update(
                row as int,
                old(self).entities_view().last(),
            ).drop_last(),
            r == (if row + 1 == old(self).entities_view().len() {
                None
            } else {
                Some(old(self).entities_view().last())
            }),
            forall|c: int| 0 <= c < old(self).column_count() ==> {
                &&& #[trigger] final(self).column_view(c) == old(self).column_view(c).update(
                    row as int,
                    old(self).column_view(c).last(),
                ).drop_last()
                &&& final(self).column_size(c) == old(self).column_size(c)
                &&& final(self).change_view(c) == old(self).change_view(c).update(
                    row as int,
                    old(self).change_view(c).last(),
                ).drop_last()
                &&& final(self).added_view(c) == old(self).added_view(c).update(
                    row as int,
                    old(self).added_view(c).last(),
                ).drop_last()
            },
            final(self).add_edges_view() == old(self).add_edges_view(),
            final(self).remove_edges_view() == old(self).remove_edges_view(),
    {
        let n = self.columns.len();
        let mut c: usize = 0;
        while c < n
            invariant
                n == old(self).columns@.len(),
                c <= n,
                row < old(self).entities@.len(),
                self.columns@.len() == n,
                self.change_ticks@.len() == n,
                self.added_ticks@.len() == n,
                self.component_ids@ == old(self).component_ids@,
                self.entities@ == old(self).entities@,
                self.id == old(self).id,
                self.add_edges@ == old(self).add_edges@,
                self.remove_edges@ == old(self).remove_edges@,
                old(self).wf(),
                forall|k: int| 0 <= k < c ==> {
                    &&& (#[trigger] self.columns@[k]).wf()
                    &&& self.columns@[k].items_view() == old(self).columns@[k].items_view().update(
                        row as int,
                        old(self).columns@[k].items_view().last(),
                    ).drop_last()
                    &&& self.columns@[k].item_size_view() == old(self).columns@[k].item_size_view()
                    &&& self.change_ticks@[k]@ == old(self).change_ticks@[k]@.update(
                        row as int,
                        old(self).change_ticks@[k]@.last(),
                    ).drop_last()
                    &&& self.added_ticks@[k]@ == old(self).added_ticks@[k]@.update(
                        row as int,
                        old(self).added_ticks@[k]@.last(),
                    ).drop_last()
                },
                forall|k: int| c <= k < n ==> {
                    &&& #[trigger] self.columns@[k] == old(self).columns@[k]
                    &&& self.change_ticks@[k] == old(self).change_ticks@[k]
                    &&& self.added_ticks@[k] == old(self).added_ticks@[k]
                },
            decreases n - c,
        {
            let ghost before_cols = self.columns@;
            let ghost before_ch = self.change_ticks@;
            let ghost before_ad = self.added_ticks@;
            proof {
                assert(old(self).columns@[c as int].wf());
            }
            let _ = self.columns[c].swap_remove(row);
            self.change_ticks[c].swap_remove(row);
            self.added_ticks[c].swap_remove(row);
            proof {
                assert forall|k: int| 0 <= k < n && k != c implies {
                    &&& self.columns@[k] == before_cols[k]
                    &&& self.change_ticks@[k] == before_ch[k]
                    &&& self.added_ticks@[k] == before_ad[k]
                } by {}
            }
            c = c + 1;
        }
        self.swap_remove_entity_slot(row)
    }

    /// Overwrite the record of column `col` at `row`, stamping the change
    /// tick.
    pub fn replace_component(&mut self, col: usize, row: usize, data: Vec<u8>, tick: u32)
        requires
            old(self).wf(),
            col < old(self).column_count(),
            row < old(self).entities_view().len(),
            data@.len() == old(self).column_size(col as int),
        ensures
            final(self).wf(),
            final(self).id_view() == old(self).id_view(),
            final(self).ids_view() == old(self).ids_view(),
            final(self).column_count() == old(self).column_count(),
            final(self).entities_view() == old(self).entities_view(),
            forall|c: int| 0 <= c < old(self).column_count() ==> {
                &&& #[trigger] final(self).column_view(c) == if c == col {
                    old(self).column_view(c).update(row as int, data@)
                } else {
                    old(self).column_view(c)
                }
                &&& final(self).column_size(c) == old(self).column_size(c)
                &&& final(self).change_view(c) == if c == col {
                    old(self).change_view(c).update(row as int, tick)
                } else {
                    old(self).change_view(c)
                }
                &&& final(self).added_view(c) == old(self).added_view(c)
            },
            final(self).add_edges_view() == old(self).add_edges_view(),
            final(self).remove_edges_view() == old(self).remove_edges_view(),
    {
        proof {
            assert(old(self).columns@[col as int].wf());
        }
        let ghost before_cols = self.columns@;
        self.columns[col].replace(row, data);
        self.change_ticks[col].set(row, tick);
        proof {
            assert forall|c: int| 0 <= c < self.columns@.len() implies {
                &&& (#[trigger] self.columns@[c]).wf()
                &&& self.columns@[c].items_view().len() == self.entities@.len()
                &&& self.change_ticks@[c]@.len() == self.entities@.len()
                &&& self.added_ticks@[c]@.len() == self.entities@.len()
            } by {
                assert(old(self).columns@[c].wf());
                if c != col {
                    assert(self.columns@[c] == before_cols[c]);
                }
            }
        }
    }

    // -- Ticks ---------------------------------------------------------------

    /// Change tick of column `col` at `row`.
    pub fn change_tick(&self, col: usize, row: usize) -> (r: u32)
        requires
            self.wf(),
            col < self.column_count(),
            row < self.entities_view().len(),
        ensures
            r == self.change_view(col as int)[row as int],
    {
        proof {
            assert(self.columns@[col as int].wf());
        }
        self.change_ticks[col][row]
    }

    /// Added tick of column `col` at `row`.
    pub fn added_tick(&self, col: usize, row: usize) -> (r: u32)
        requires
            self.wf(),
            col < self.column_count(),
            row < self.entities_view().len(),
        ensures
            r == self.added_view(col as int)[row as int],
    {
        proof {
            assert(self.columns@[col as int].wf());
        }
        self.added_ticks[col][row]
    }

    /// Change ticks of column `col`, by row.
    pub fn change_ticks_slice(&self, col: usize) -> (r: &[u32])
        requires
            self.wf(),
            col < self.column_count(),
        ensures
            r@ == self.change_view(col as int),
    {
        proof {
            assert(self.columns@[col as int].wf());
        }
        self.change_ticks[col].as_slice()
    }

    /// Added ticks of column `col`, by row.
    pub fn added_ticks_slice(&self, col: usize) -> (r: &[u32])
        requires
            self.wf(),
            col < self.column_count(),
        ensures
            r@ == self.added_view(col as int),
    {
        proof {
            assert(self.columns@[col as int].wf());
        }
        self.added_ticks[col].as_slice()
    }

    /// Stamp the change tick of column `col` at `row`.
    pub fn set_change_tick(&mut self, col: usize, row: usize, tick: u32)
        requires
            old(self).wf(),
            col < old(self).column_count(),
            row < old(self).entities_view().len(),
        ensures
            final(self).wf(),
            final(self).id_view() == old(self).id_view(),
            final(self).ids_view() == old(self).ids_view(),
            final(self).column_count() == old(self).column_count(),
            final(self).entities_view() == old(self).entities_view(),
            forall|c: int| 0 <= c < old(self).column_count() ==> {
                &&& #[trigger] final(self).column_view(c) == old(self).column_view(c)
                &&& final(self).column_size(c) == old(self).column_size(c)
                &&& final(self).change_view(c) == if c == col {
                    old(self).change_view(c).update(row as int, tick)
                } else {
                    old(self).change_view(c)
                }
                &&& final(self).added_view(c) == old(self).added_view(c)
            },
            final(self).add_edges_view() == old(self).add_edges_view(),
            final(self).remove_edges_view() == old(self).remove_edges_view(),
    {
        proof {
            assert(self.columns@[col as int].wf());
        }
        self.change_ticks[col].set(row, tick);
    }

    /// Append a pair of ticks to column `col` (during a row's assembly).
    pub fn push_ticks(&mut self, col: usize, change_tick: u32, added_tick: u32)
        requires
            col < old(self).column_count(),
            old(self).well_shaped(),
        ensures
            final(self).well_shaped(),
            final(self).entities_view() == old(self).entities_view(),
            final(self).ids_view() == old(self).ids_view(),
            final(self).column_count() == old(self).column_count(),
            forall|c: int| 0 <= c < old(self).column_count() ==> {
                &&& #[trigger] final(self).column_view(c) == old(self).column_view(c)
                &&& final(self).change_view(c) == if c == col {
                    old(self).change_view(c).push(change_tick)
                } else {
                    old(self).change_view(c)
                }
                &&& final(self).added_view(c) == if c == col {
                    old(self).added_view(c).push(added_tick)
                } else {
                    old(self).added_view(c)
                }
            },
    {
        self.change_ticks[col].push(change_tick);
        self.added_ticks[col].push(added_tick);
    }

    /// Append a record to column `col`, with `tick` as both its change and
    /// added tick (during a row's assembly).
    pub fn push_component_data(&mut self, col: usize, data: Vec<u8>, tick: u32)
        requires
            col < old(self).column_count(),
            data@.len() == old(self).column_size(col as int),
            old(self).well_shaped(),
        ensures
            final(self).well_shaped(),
            final(self).entities_view() == old(self).entities_view(),
            final(self).ids_view() == old(self).ids_view(),
            final(self).column_count() == old(self).column_count(),
            forall|c: int| 0 <= c < old(self).column_count() ==> {
                &&& #[trigger] final(self).column_view(c) == if c == col {
                    old(self).column_view(c).push(data@)
                } else {
                    old(self).column_view(c)
                }
                &&& final(self).change_view(c) == if c == col {
                    old(self).change_view(c).push(tick)
                } else {
                    old(self).change_view(c)
                }
                &&& final(self).added_view(c) == if c == col {
                    old(self).added_view(c).push(tick)
                } else {
                    old(self).added_view(c)
                }
            },
    {
        self.columns[col].push(data);
        self.change_ticks[col].push(tick);
        self.added_ticks[col].push(tick);
    }

    /// Append a whole row: one record and one pair of ticks per column.
    pub fn push_row(&mut self, entity: Entity, data: Vec<Vec<u8>>, change: Vec<u32>, added: Vec<u32>)
        requires
            old(self).wf(),
            data@.len() == old(self).column_count(),
            change@.len() == old(self).column_count(),
            added@.len() == old(self).column_count(),
            forall|c: int| 0 <= c < data@.len() ==> (#[trigger] data@[c])@.len() == old(self).column_size(c),
        ensures
            final(self).wf(),
            final(self).id_view() == old(self).id_view(),
            final(self).ids_view() == old(self).ids_view(),
            final(self).column_count() == old(self).column_count(),
            final(self).entities_view() == old(self).entities_view().push(entity),
            forall|c: int| 0 <= c < old(self).column_count() ==> {
                &&& #[trigger] final(self).column_view(c) == old(self).column_view(c).push(data@[c]@)
                &&& final(self).column_size(c) == old(self).column_size(c)
                &&& final(self).change_view(c) == old(self).change_view(c).push(change@[c])
                &&& final(self).added_view(c) == old(self).added_view(c).push(added@[c])
            },
            final(self).add_edges_view() == old(self).add_edges_view(),
            final(self).remove_edges_view() == old(self).remove_edges_view(),
    {
        let n = self.columns.len();
        let mut c: usize = 0;
        while c < n
            invariant
                n == old(self).columns@.len(),
                c <= n,
                self.columns@.len() == n,
                self.change_ticks@.len() == n,
                self.added_ticks@.len() == n,
                self.component_ids@ == old(self).component_ids@,
                self.entities@ == old(self).entities@,
                self.id == old(self).id,
                self.add_edges@ == old(self).add_edges@,
                self.remove_edges@ == old(self).remove_edges@,
                old(self).wf(),
                data@.len() == n,
                change@.len() == n,
                added@.len() == n,
                forall|k: int| 0 <= k < data@.len() ==> (#[trigger] data@[k])@.len() == old(self).column_size(k),
                forall|k: int| 0 <= k < c ==> {
                    &&& (#[trigger] self.columns@[k]).wf()
                    &&& self.columns@[k].items_view() == old(self).columns@[k].items_view().push(data@[k]@)
                    &&& self.columns@[k].item_size_view() == old(self).columns@[k].item_size_view()
                    &&& self.change_ticks@[k]@ == old(self).change_ticks@[k]@.push(change@[k])
                    &&& self.added_ticks@[k]@ == old(self).added_ticks@[k]@.push(added@[k])
                },
                forall|k: int| c <= k < n ==> {
                    &&& #[trigger] self.columns@[k] == old(self).columns@[k]
                    &&& self.change_ticks@[k] == old(self).change_ticks@[k]
                    &&& self.added_ticks@[k] == old(self).added_ticks@[k]
                },
            decreases n - c,
        {
            let item = data[c].clone();
            proof {
                assert(item@ == data@[c as int]@);
            }
            let ghost before_cols = self.columns@;
            let ghost before_ch = self.change_ticks@;
            let ghost before_ad = self.added_ticks@;
            self.columns[c].push(item);
            self.change_ticks[c].push(change[c]);
            self.added_ticks[c].push(added[c]);
            proof {
                assert forall|k: int| 0 <= k < n && k != c implies {
                    &&& self.columns@[k] == before_cols[k]
                    &&& self.change_ticks@[k] == before_ch[k]
                    &&& self.added_ticks@[k] == before_ad[k]
                } by {}
            }
            c = c + 1;
        }
        self.entities.push(entity);
    }
}

/// What a consistent archetype guarantees to its users: sorted component
/// ids, one column per id, one record per entity in each column.
pub proof fn lemma_archetype_wf(a: Archetype)
    requires
        a.wf(),
    ensures
        strictly_sorted(a.ids_view()),
        a.column_count() == a.ids_view().len(),
        forall|c: int| 0 <= c < a.column_count() ==> (#[trigger] a.column_view(c)).len() == a.entities_view().len(),
        forall|c: int| 0 <= c < a.column_count() ==> (#[trigger] a.change_view(c)).len() == a.entities_view().len(),
{
    assert forall|c: int| 0 <= c < a.column_count() implies (#[trigger] a.column_view(c)).len() == a.entities_view().len() by {
        assert(a.columns@[c].items_view().len() == a.entities@.len());
    }
    assert forall|c: int| 0 <= c < a.column_count() implies (#[trigger] a.change_view(c)).len() == a.entities_view().len() by {
        assert(a.columns@[c].items_view().len() == a.entities@.len());
    }
}

/// An archetype that differs from another only in its edges has the same
/// id, components, rows and ticks.
pub proof fn lemma_same_rows(a: Archetype, b: Archetype)
    requires
        a.same_rows(b),
    ensures
        a.id_view() == b.id_view(),
        a.ids_view() == b.ids_view(),
        a.entities_view() == b.entities_view(),
        a.column_count() == b.column_count(),
        forall|c: int| #[trigger] a.column_view(c) == b.column_view(c),
        forall|c: int| #[trigger] a.column_size(c) == b.column_size(c),
        forall|c: int| #[trigger] a.change_view(c) == b.change_view(c),
        forall|c: int| #[trigger] a.added_view(c) == b.added_view(c),
{
}

/// Every record of a consistent archetype has its column's size.
pub proof fn lemma_archetype_records(a: Archetype, c: int, r: int)
    requires
        a.wf(),
        0 <= c < a.column_count(),
        0 <= r < a.entities_view().len(),
    ensures
        a.column_view(c)[r].len() == a.column_size(c),
{
    let col = a.columns@[c];
    assert(col.wf());
    assert(col.items@[r]@.len() == col.item_size);
}

/// Column sizes that match a size list keep matching when the list grows.
pub proof fn lemma_sizes_match_extend(a: Archetype, old_sizes: Seq<usize>, new_sizes: Seq<usize>)
    requires
        a.sizes_match(old_sizes),
        old_sizes.len() <= new_sizes.len(),
        forall|i: int| 0 <= i < old_sizes.len() ==> #[trigger] new_sizes[i] == old_sizes[i],
    ensures
        a.sizes_match(new_sizes),
{
    assert forall|c: int| 0 <= c < a.ids_view().len() implies #[trigger] a.column_size(c) == new_sizes[a.ids_view()[c].0 as int] by {
        assert(a.ids_view()[c].0 < old_sizes.len());
        assert(new_sizes[a.ids_view()[c].0 as int] == old_sizes[a.ids_view()[c].0 as int]);
    }
}

/// In a strictly sorted list, the position holding `k` is `k`'s index.
pub proof fn lemma_sorted_index_of(ids: Seq<ComponentId>, c: int, k: ComponentId)
    requires
        strictly_sorted(ids),
        0 <= c < ids.len(),
        ids[c] == k,
    ensures
        ids.index_of(k) == c,
{
    assert(ids.contains(k));
    let j = ids.index_of(k);
    assert(ids[j] == k);
    if j != c {
        if j < c {
            assert(ids[j].0 < ids[c].0);
        } else {
            assert(ids[c].0 < ids[j].0);
        }
    }
}

} // verus!
