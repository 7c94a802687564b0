//! The entity store of a world: live entities, the archetype each one's
//! components live in, and the row they occupy there. Components are
//! records of bytes, one column per component type.

use vstd::prelude::*;
use crate::ecs::archetype::{lemma_sorted_index_of, lemma_same_rows, lemma_archetype_records, lemma_archetype_wf, lemma_sizes_match_extend, strictly_sorted, Archetype, ArchetypeId, EntityLocation};
use crate::ecs::change_detection::{filter_holds, TickFilter};
use crate::ecs::component::{ComponentId, ComponentRegistry};
use crate::ecs::event::EventStorage;
use crate::ecs::resource::ResourceMap;
use crate::ecs::entity::{allocate_post, lemma_allocator_slots, lemma_live_entities_have_distinct_slots, Entity, EntityAllocator};

verus! {

pub struct World {
    allocator: EntityAllocator,
    /// By slot index: where that slot's live entity is stored.
    locations: Vec<EntityLocation>,
    archetypes: Vec<Archetype>,
    registry: ComponentRegistry,
    /// Stamped on components as they are written.
    tick: u32,
    resources: ResourceMap,
    /// The event queues, one per registered event type.
    events: EventStorage,
}

/// The record of component `k` of entity `e` in a store, if `e` is live
/// and has one.
pub open spec fn record_of(
    alloc: EntityAllocator,
    locs: Seq<EntityLocation>,
    archs: Seq<Archetype>,
    e: Entity,
    k: ComponentId,
) -> Option<Seq<u8>> {
    if alloc.is_live(e) {
        let l = locs[e.slot() as int];
        let a = archs[l.archetype_id.0 as int];
        if a.ids_view().contains(k) {
            Some(a.column_view(a.ids_view().index_of(k))[l.row as int])
        } else {
            None
        }
    } else {
        None
    }
}

/// Every archetype is consistent, knows its own index, and holds records
/// of the registered sizes.
pub open spec fn archetypes_wf(archs: Seq<Archetype>, sizes: Seq<usize>) -> bool {
    forall|a: int|
        0 <= a < archs.len() ==> {
            &&& (#[trigger] archs[a]).wf()
            &&& archs[a].id_view().0 == a
            &&& archs[a].sizes_match(sizes)
        }
}

/// Every row of every archetype holds a live entity whose location is that
/// row.
pub open spec fn rows_located(alloc: EntityAllocator, locs: Seq<EntityLocation>, archs: Seq<Archetype>) -> bool {
    forall|a: int, r: int|
        0 <= a < archs.len() && 0 <= r < archs[a].entities_view().len() ==> {
            let e = #[trigger] archs[a].entities_view()[r];
            &&& alloc.is_live(e)
            &&& locs[e.slot() as int].archetype_id.0 == a
            &&& locs[e.slot() as int].row == r
        }
}

/// Every live entity has a location, and the row there holds it.
pub open spec fn entities_located(alloc: EntityAllocator, locs: Seq<EntityLocation>, archs: Seq<Archetype>) -> bool {
    forall|e: Entity|
        #[trigger] alloc.is_live(e) ==> {
            let l = locs[e.slot() as int];
            &&& e.slot() < locs.len()
            &&& l.archetype_id.0 < archs.len()
            &&& l.row < archs[l.archetype_id.0 as int].entities_view().len()
            &&& archs[l.archetype_id.0 as int].entities_view()[l.row as int] == e
        }
}

/// The cached transitions are right: adding component `k` to archetype
/// `a` leads to the archetype with `a`'s components and `k`; removing it
/// leads to the one with `a`'s components but `k`.
pub open spec fn edges_wf(archs: Seq<Archetype>) -> bool {
    &&& forall|a: int, k: u32|
        0 <= a < archs.len() && #[trigger] archs[a].add_edges_view().contains_key(k) ==> {
            let t = archs[a].add_edges_view()[k] as int;
            &&& 0 <= t < archs.len()
            &&& forall|x: ComponentId|
                #[trigger] archs[t].ids_view().contains(x) <==> (archs[a].ids_view().contains(x) || x.0 == k)
        }
    &&& forall|a: int, k: u32|
        0 <= a < archs.len() && #[trigger] archs[a].remove_edges_view().contains_key(k) ==> {
            let t = archs[a].remove_edges_view()[k] as int;
            &&& 0 <= t < archs.len()
            &&& forall|x: ComponentId|
                #[trigger] archs[t].ids_view().contains(x) <==> (archs[a].ids_view().contains(x) && x.0 != k)
        }
}

pub open spec fn store_wf(
    alloc: EntityAllocator,
    locs: Seq<EntityLocation>,
    archs: Seq<Archetype>,
    registry: ComponentRegistry,
) -> bool {
    &&& alloc.wf()
    &&& registry.wf()
    &&& locs.len() == alloc.generations_view().len()
    &&& archetypes_wf(archs, registry.sizes())
    &&& edges_wf(archs)
    &&& rows_located(alloc, locs, archs)
    &&& entities_located(alloc, locs, archs)
}


/// Two archetypes with the same id, components, rows, column sizes and
/// edges.
pub open spec fn same_shape(a: Archetype, b: Archetype) -> bool {
    &&& b.id_view() == a.id_view()
    &&& b.ids_view() == a.ids_view()
    &&& b.column_count() == a.column_count()
    &&& b.entities_view() == a.entities_view()
    &&& forall|c: int| 0 <= c < a.column_count() ==> #[trigger] b.column_size(c) == a.column_size(c)
    &&& b.add_edges_view() == a.add_edges_view()
    &&& b.remove_edges_view() == a.remove_edges_view()
}

/// Putting a well-formed archetype of the same shape in place of another
/// keeps the store well formed.
proof fn lemma_store_same_shape(
    alloc: EntityAllocator,
    locs: Seq<EntityLocation>,
    archs: Seq<Archetype>,
    registry: ComponentRegistry,
    i: int,
    na: Archetype,
)
    requires
        store_wf(alloc, locs, archs, registry),
        0 <= i < archs.len(),
        same_shape(archs[i], na),
        na.wf(),
    ensures
        store_wf(alloc, locs, archs.update(i, na), registry),
{
    let archs2 = archs.update(i, na);
    assert forall|t: int| 0 <= t < archs.len() implies (#[trigger] archs2[t]).ids_view() == archs[t].ids_view()
        && archs2[t].entities_view() == archs[t].entities_view() && archs2[t].add_edges_view() == archs[t].add_edges_view()
        && archs2[t].remove_edges_view() == archs[t].remove_edges_view() by {}
    assert(archetypes_wf(archs2, registry.sizes())) by {
        assert forall|t: int| 0 <= t < archs2.len() implies {
            &&& (#[trigger] archs2[t]).wf()
            &&& archs2[t].id_view().0 == t
            &&& archs2[t].sizes_match(registry.sizes())
        } by {
            if t == i {
                assert(archs[i].wf());
                lemma_archetype_wf(archs[i]);
                assert(archs[i].sizes_match(registry.sizes()));
                assert forall|c: int| 0 <= c < na.ids_view().len() implies #[trigger] na.column_size(c)
                    == registry.sizes()[na.ids_view()[c].0 as int] by {
                    assert(archs[i].column_size(c) == registry.sizes()[archs[i].ids_view()[c].0 as int]);
                }
            }
        }
    }
    assert(edges_wf(archs2));
    assert(rows_located(alloc, locs, archs2));
    assert(entities_located(alloc, locs, archs2));
}

impl World {
    pub closed spec fn alloc_view(&self) -> EntityAllocator {
        self.allocator
    }

    pub closed spec fn locations_view(&self) -> Seq<EntityLocation> {
        self.locations@
    }

    pub closed spec fn archetypes_view(&self) -> Seq<Archetype> {
        self.archetypes@
    }

    pub closed spec fn registry_view(&self) -> ComponentRegistry {
        self.registry
    }

    pub closed spec fn tick_view(&self) -> u32 {
        self.tick
    }

    /// The resources, by type key.
    pub closed spec fn resources_view(&self) -> Map<u64, Seq<u8>> {
        self.resources@
    }

    /// The event queues.
    pub closed spec fn events_view(&self) -> EventStorage {
        self.events
    }

    /// The resource map and the event queues are well formed.
    pub closed spec fn globals_wf(&self) -> bool {
        self.resources.wf() && self.events.wf()
    }

    /// `e` is live.
    pub open spec fn live(&self, e: Entity) -> bool {
        self.alloc_view().is_live(e)
    }

    /// Where live entity `e` is stored.
    pub open spec fn loc(&self, e: Entity) -> EntityLocation {
        self.locations_view()[e.slot() as int]
    }

    /// The archetype at `a`.
    pub open spec fn arch(&self, a: int) -> Archetype {
        self.archetypes_view()[a]
    }

    /// The record of component `k` of entity `e`, if `e` is live and has
    /// one.
    pub open spec fn component_of(&self, e: Entity, k: ComponentId) -> Option<Seq<u8>> {
        record_of(self.alloc_view(), self.locations_view(), self.archetypes_view(), e, k)
    }

    /// The change tick of component `k` of entity `e`, if `e` is live and
    /// has one.
    pub open spec fn change_tick_of(&self, e: Entity, k: ComponentId) -> Option<u32> {
        if self.live(e) {
            let a = self.arch(self.loc(e).archetype_id.0 as int);
            if a.ids_view().contains(k) {
                Some(a.change_view(a.ids_view().index_of(k))[self.loc(e).row as int])
            } else {
                None
            }
        } else {
            None
        }
    }

    /// The component types of live entity `e`.
    pub open spec fn components_of(&self, e: Entity) -> Seq<ComponentId> {
        self.arch(self.loc(e).archetype_id.0 as int).ids_view()
    }

    /// The invariant of the store: each live entity occupies exactly one
    /// row, and each row belongs to a live entity that is recorded there.
    pub open spec fn wf(&self) -> bool {
        &&& store_wf(self.alloc_view(), self.locations_view(), self.archetypes_view(), self.registry_view())
        &&& self.globals_wf()
    }

    pub fn new() -> (w: Self)
        ensures
            w.wf(),
            forall|e: Entity| !(#[trigger] w.live(e)),
            w.archetypes_view().len() == 0,
            w.registry_view().keys().len() == 0,
            w.alloc_view().alive_view() == 0,
            w.locations_view().len() == 0,
            w.tick_view() == 0,
            w.resources_view() == Map::<u64, Seq<u8>>::empty(),
            w.events_view()@ == Map::<u64, crate::ecs::event::EventQueue<Vec<u8>>>::empty(),
    {
        World {
            allocator: EntityAllocator::new(),
            locations: Vec::new(),
            archetypes: Vec::new(),
            registry: ComponentRegistry::new(),
            tick: 0,
            resources: ResourceMap::new(),
            events: EventStorage::new(),
        }
    }

    /// Number of live entities.
    pub fn entity_count(&self) -> (r: u32)
        ensures
            r == self.alloc_view().alive_view(),
    {
        self.allocator.alive_count()
    }

    /// Is `e` a live entity of this world?
    pub fn is_alive(&self, e: Entity) -> (r: bool)
        requires
            self.wf(),
        ensures
            r == self.live(e),
    {
        self.allocator.is_alive(e)
    }

    /// Where `e` is stored, if it is alive.
    pub fn location(&self, e: Entity) -> (r: Option<EntityLocation>)
        requires
            self.wf(),
        ensures
            match r {
                Some(l) => self.live(e) && l == self.loc(e),
                None => !self.live(e),
            },
    {
        if !self.allocator.is_alive(e) {
            return None;
        }
        Some(self.locations[e.index() as usize])
    }

    /// Register a component type by key, record size and alignment.
    pub fn register_component(&mut self, type_key: u64, size: usize, align: usize, name: String) -> (id: ComponentId)
        requires
            old(self).wf(),
            old(self).registry_view().keys().contains(type_key) || old(self).registry_view().keys().len() < u32::MAX,
        ensures
            final(self).wf(),
            final(self).resources_view() == old(self).resources_view(),
            final(self).events_view() == old(self).events_view(),
            id.0 < final(self).registry_view().keys().len(),
            final(self).registry_view().keys()[id.0 as int] == type_key,
            !old(self).registry_view().keys().contains(type_key) ==> final(self).registry_view().sizes()[id.0 as int] == size,
            forall|e: Entity, k: ComponentId| #[trigger] final(self).component_of(e, k) == old(self).component_of(e, k),
            forall|e: Entity| #[trigger] final(self).live(e) == old(self).live(e),
            final(self).alloc_view() == old(self).alloc_view(),
            final(self).locations_view() == old(self).locations_view(),
            final(self).archetypes_view() == old(self).archetypes_view(),
            final(self).tick_view() == old(self).tick_view(),
    {
        let id = self.registry.get_or_register(type_key, size, align, name);
        proof {
            let old_sizes = old(self).registry_view().sizes();
            let new_sizes = self.registry.sizes();
            assert forall|i: int| 0 <= i < old_sizes.len() implies #[trigger] new_sizes[i] == old_sizes[i] by {
                if !old(self).registry_view().keys().contains(type_key) {
                    assert(new_sizes == old_sizes.push(size));
                }
            }
            assert forall|a: int| 0 <= a < self.archetypes@.len() implies (#[trigger] self.archetypes@[a]).sizes_match(
                self.registry.sizes(),
            ) by {
                assert(self.archetypes@[a].sizes_match(old_sizes));
                lemma_sizes_match_extend(self.archetypes@[a], old_sizes, new_sizes);
            }
        }
        id
    }

    /// The record of component `k` of `e`; `None` when `e` is dead or has
    /// no such component.
    pub fn get(&self, e: Entity, k: ComponentId) -> (r: Option<&Vec<u8>>)
        requires
            self.wf(),
        ensures
            match r {
                Some(d) => self.component_of(e, k) == Some(d@),
                None => self.component_of(e, k) is None,
            },
    {
        if !self.allocator.is_alive(e) {
            return None;
        }
        let l = self.locations[e.index() as usize];
        let a = &self.archetypes[l.archetype_id.0];
        proof {
            lemma_archetype_wf(*a);
        }
        match a.column_index(k) {
            Some(c) => {
                proof {
                    assert(a.ids_view().contains(k));
                    lemma_sorted_index_of(a.ids_view(), c as int, k);
                }
                Some(a.component_data(c, l.row))
            },
            None => None,
        }
    }

    /// The record of component `k` of `e`, to change in place, with its
    /// change tick stamped with the world's tick; `None` when `e` is dead or
    /// has no such component. Other records stay as they are, and the store
    /// stays well formed when the record keeps its size.
    pub fn get_mut(&mut self, e: Entity, k: ComponentId) -> (r: Option<&mut Vec<u8>>)
        requires
            old(self).wf(),
        ensures
            final(self).alloc_view() == old(self).alloc_view(),
            final(self).locations_view() == old(self).locations_view(),
            final(self).registry_view() == old(self).registry_view(),
            final(self).tick_view() == old(self).tick_view(),
            final(self).resources_view() == old(self).resources_view(),
            final(self).events_view() == old(self).events_view(),
            forall|x: Entity, k2: ComponentId|
                x != e || k2 != k ==> #[trigger] final(self).component_of(x, k2) == old(self).component_of(x, k2),
            r matches Some(v) ==> old(self).component_of(e, k) == Some(v@),
            r matches Some(v) ==> final(self).component_of(e, k) == Some(final(v)@),
            r matches Some(v) ==> final(self).change_tick_of(e, k) == Some(old(self).tick_view()),
            r matches Some(v) ==> (final(v)@.len() == v@.len() ==> final(self).wf()),
            r is None ==> old(self).component_of(e, k) is None && *final(self) == *old(self),
    {
        if !self.allocator.is_alive(e) {
            return None;
        }
        let l = self.locations[e.index() as usize];
        let a = l.archetype_id.0;
        proof {
            lemma_archetype_wf(self.archetypes@[a as int]);
        }
        match self.archetypes[a].column_index(k) {
            Some(c) => {
                proof {
                    assert(self.archetypes@[a as int].ids_view().contains(k));
                    lemma_sorted_index_of(self.archetypes@[a as int].ids_view(), c as int, k);
                    assert(self.archetypes@[a as int].sizes_match(self.registry.sizes()));
                }
                let tick = self.tick;
                let ghost before = self.archetypes@[a as int];
                proof {
                    lemma_archetype_wf(before);
                }
                self.archetypes[a].set_change_tick(c, l.row, tick);
                proof {
                    let now = self.archetypes@[a as int];
                    assert(now.column_view(c as int) == before.column_view(c as int));
                    assert(now.change_view(c as int) == before.change_view(c as int).update(l.row as int, tick));
                    assert(store_wf(self.allocator, self.locations@, self.archetypes@, self.registry)) by {
                        assert forall|i: int| 0 <= i < before.column_count() implies #[trigger] now.column_size(i) == before.column_size(i) by {
                            assert(now.column_view(i) == before.column_view(i));
                        }
                        lemma_store_same_shape(old(self).allocator, old(self).locations@, old(self).archetypes@, old(self).registry, a as int, now);
                        assert(old(self).archetypes@.update(a as int, now) =~= self.archetypes@);
                    }
                    lemma_archetype_wf(now);
                    lemma_archetype_records(now, c as int, l.row as int);
                    assert(now.change_view(c as int)[l.row as int] == tick);
                    assert(now.ids_view().index_of(k) == c);
                    assert(l == self.locations@[e.slot() as int]);
                    let archs = self.archetypes@;
                    let alloc = self.allocator;
                    let locs = self.locations@;
                    let registry = self.registry;
                    assert forall|na: Archetype|
                        same_shape(#[trigger] archs[a as int], na) && na.wf() implies store_wf(alloc, locs, archs.update(a as int, na), registry) by {
                        lemma_store_same_shape(alloc, locs, archs, registry, a as int, na);
                    }
                }
                let r = self.archetypes[a].component_data_mut(c, l.row);
                Some(r)
            },
            None => None,
        }
    }

    /// The archetype storing exactly the components `ids`, made (with no
    /// rows) if there is none.
    fn get_or_create_archetype(&mut self, ids: &[ComponentId]) -> (r: usize)
        requires
            old(self).wf(),
            strictly_sorted(ids@),
            forall|c: int| 0 <= c < ids@.len() ==> (#[trigger] ids@[c]).0 < old(self).registry_view().keys().len(),
        ensures
            final(self).resources_view() == old(self).resources_view(),
            final(self).events_view() == old(self).events_view(),
            final(self).wf(),
            r < final(self).archetypes_view().len(),
            final(self).arch(r as int).ids_view() == ids@,
            final(self).alloc_view() == old(self).alloc_view(),
            final(self).locations_view() == old(self).locations_view(),
            final(self).registry_view() == old(self).registry_view(),
            final(self).tick_view() == old(self).tick_view(),
            old(self).archetypes_view().len() <= final(self).archetypes_view().len(),
            forall|a: int| 0 <= a < old(self).archetypes_view().len() ==> #[trigger] final(self).arch(a) == old(self).arch(a),
            forall|e: Entity, k: ComponentId| #[trigger] final(self).component_of(e, k) == old(self).component_of(e, k),
    {
        let mut a: usize = 0;
        while a < self.archetypes.len()
            invariant
                *self == *old(self),
                self.wf(),
                a <= self.archetypes@.len(),
            decreases self.archetypes@.len() - a,
        {
            if ids_equal(self.archetypes[a].component_ids(), ids) {
                return a;
            }
            a = a + 1;
        }
        let n = self.archetypes.len();
        let arch = Archetype::new(ArchetypeId(n), vstd::slice::slice_to_vec(ids), &self.registry);
        let ghost old_archs = self.archetypes@;
        self.archetypes.push(arch);
        proof {
            let archs = self.archetypes@;
            assert(archs == old_archs.push(arch));
            assert forall|x: int| 0 <= x < archs.len() implies {
                &&& (#[trigger] archs[x]).wf()
                &&& archs[x].id_view().0 == x
                &&& archs[x].sizes_match(self.registry.sizes())
            } by {
                if x < n {
                    assert(archs[x] == old_archs[x]);
                }
            }
            assert forall|x: int, r: int| 0 <= x < archs.len() && 0 <= r < archs[x].entities_view().len() implies {
                let e = #[trigger] archs[x].entities_view()[r];
                &&& self.allocator.is_live(e)
                &&& self.locations@[e.slot() as int].archetype_id.0 == x
                &&& self.locations@[e.slot() as int].row == r
            } by {
                assert(x < n);
                assert(archs[x] == old_archs[x]);
            }
            assert forall|e: Entity| #[trigger] self.allocator.is_live(e) implies {
                let l = self.locations@[e.slot() as int];
                &&& e.slot() < self.locations@.len()
                &&& l.archetype_id.0 < archs.len()
                &&& l.row < archs[l.archetype_id.0 as int].entities_view().len()
                &&& archs[l.archetype_id.0 as int].entities_view()[l.row as int] == e
            } by {
                let l = self.locations@[e.slot() as int];
                assert(archs[l.archetype_id.0 as int] == old_archs[l.archetype_id.0 as int]);
            }
            assert forall|e: Entity, k: ComponentId| #[trigger] self.component_of(e, k) == old(self).component_of(e, k) by {
                if self.allocator.is_live(e) {
                    let l = self.locations@[e.slot() as int];
                    assert(archs[l.archetype_id.0 as int] == old_archs[l.archetype_id.0 as int]);
                }
            }
        }
        n
    }

    /// Make a live entity whose components are `ids`, with records
    /// `data[i]` for `ids[i]`, all stamped with the current tick.
    pub fn spawn(&mut self, ids: &[ComponentId], data: Vec<Vec<u8>>) -> (e: Entity)
        requires
            old(self).wf(),
            strictly_sorted(ids@),
            forall|c: int| 0 <= c < ids@.len() ==> (#[trigger] ids@[c]).0 < old(self).registry_view().keys().len(),
            data@.len() == ids@.len(),
            forall|c: int|
                0 <= c < data@.len() ==> (#[trigger] data@[c])@.len() == old(self).registry_view().sizes()[ids@[c].0 as int],
            old(self).alloc_view().alive_view() < u32::MAX,
        ensures
            final(self).wf(),
            final(self).resources_view() == old(self).resources_view(),
            final(self).events_view() == old(self).events_view(),
            !old(self).live(e),
            final(self).live(e),
            forall|x: Entity| #[trigger] final(self).live(x) <==> (old(self).live(x) || x == e),
            final(self).alloc_view().alive_view() == old(self).alloc_view().alive_view() + 1,
            final(self).components_of(e) == ids@,
            forall|c: int| 0 <= c < ids@.len() ==> #[trigger] final(self).component_of(e, ids@[c]) == Some(data@[c]@),
            forall|x: Entity, k: ComponentId|
                old(self).live(x) ==> #[trigger] final(self).component_of(x, k) == old(self).component_of(x, k),
            final(self).registry_view() == old(self).registry_view(),
    {
        let a = self.get_or_create_archetype(ids);
        let ghost mid = *self;
        let e = self.allocator.allocate();
        proof {
            lemma_fresh_slot(mid.allocator, self.allocator, e);
        }
        if (e.index() as usize) >= self.locations.len() {
            self.locations.push(EntityLocation::invalid());
        }
        let row = self.archetypes[a].len();
        let n = ids.len();
        let mut ticks: Vec<u32> = Vec::new();
        let mut i: usize = 0;
        while i < n
            invariant
                i <= n,
                ticks@.len() == i,
            decreases n - i,
        {
            ticks.push(self.tick);
            i = i + 1;
        }
        let added = ticks.clone();
        proof {
            let arch = mid.archetypes@[a as int];
            lemma_archetype_wf(arch);
            assert forall|c: int| 0 <= c < data@.len() implies (#[trigger] data@[c])@.len() == arch.column_size(c) by {
                assert(arch.ids_view()[c] == ids@[c]);
            }
        }
        let ghost before_archs = self.archetypes@;
        self.archetypes[a].push_row(e, data, ticks, added);
        self.locations.set(e.index() as usize, EntityLocation { archetype_id: ArchetypeId(a), row });
        proof {
            let archs = self.archetypes@;
            let locs = self.locations@;
            let na = archs[a as int];
            let oa = before_archs[a as int];
            assert(before_archs == mid.archetypes@);
            assert(archs == before_archs.update(a as int, na));
            lemma_archetype_wf(oa);
            lemma_archetype_wf(na);
            assert(locs.len() == self.allocator.generations_view().len());
            // Other slots keep their locations.
            assert forall|x: Entity| #[trigger] mid.allocator.is_live(x) implies locs[x.slot() as int]
                == mid.locations@[x.slot() as int] by {}
            assert forall|x: int| 0 <= x < archs.len() implies {
                &&& (#[trigger] archs[x]).wf()
                &&& archs[x].id_view().0 == x
                &&& archs[x].sizes_match(self.registry.sizes())
            } by {
                if x != a {
                    assert(archs[x] == before_archs[x]);
                } else {
                    assert(oa.sizes_match(self.registry.sizes()));
                    assert forall|c: int| 0 <= c < na.ids_view().len() implies #[trigger] na.column_size(c)
                        == self.registry.sizes()[na.ids_view()[c].0 as int] by {
                        assert(na.column_view(c) == oa.column_view(c).push(data@[c]@));
                        assert(oa.column_size(c) == self.registry.sizes()[oa.ids_view()[c].0 as int]);
                    }
                }
            }
            assert forall|x: int, r: int| 0 <= x < archs.len() && 0 <= r < archs[x].entities_view().len() implies {
                let y = #[trigger] archs[x].entities_view()[r];
                &&& self.allocator.is_live(y)
                &&& locs[y.slot() as int].archetype_id.0 == x
                &&& locs[y.slot() as int].row == r
            } by {
                if x == a && r == row {
                } else {
                    assert(archs[x].entities_view()[r] == before_archs[x].entities_view()[r]);
                    let y = before_archs[x].entities_view()[r];
                    assert(mid.allocator.is_live(y));
                }
            }
            assert forall|y: Entity| #[trigger] self.allocator.is_live(y) implies {
                let l = locs[y.slot() as int];
                &&& y.slot() < locs.len()
                &&& l.archetype_id.0 < archs.len()
                &&& l.row < archs[l.archetype_id.0 as int].entities_view().len()
                &&& archs[l.archetype_id.0 as int].entities_view()[l.row as int] == y
            } by {
                if y != e {
                    assert(mid.allocator.is_live(y));
                    let l = mid.locations@[y.slot() as int];
                    if l.archetype_id.0 == a {
                        assert(archs[a as int].entities_view()[l.row as int] == before_archs[a as int].entities_view()[l.row as int]);
                    } else {
                        assert(archs[l.archetype_id.0 as int] == before_archs[l.archetype_id.0 as int]);
                    }
                }
            }
            assert(self.wf());
            assert forall|c: int| 0 <= c < ids@.len() implies #[trigger] self.component_of(e, ids@[c]) == Some(data@[c]@) by {
                lemma_sorted_index_of(na.ids_view(), c, ids@[c]);
            }
            assert forall|x: Entity, k: ComponentId|
                old(self).live(x) implies #[trigger] self.component_of(x, k) == old(self).component_of(x, k) by {
                assert(mid.component_of(x, k) == old(self).component_of(x, k));
                assert(mid.allocator.is_live(x));
                let l = mid.locations@[x.slot() as int];
                if l.archetype_id.0 == a {
                    if na.ids_view().contains(k) {
                        let c = na.ids_view().index_of(k);
                        assert(na.column_view(c)[l.row as int] == oa.column_view(c)[l.row as int]);
                    }
                } else {
                    assert(archs[l.archetype_id.0 as int] == before_archs[l.archetype_id.0 as int]);
                }
            }
        }
        e
    }

    /// Remove `e` and all its components; `false` when `e` is not alive.
    /// The last entity of `e`'s archetype moves into `e`'s row.
    pub fn despawn(&mut self, e: Entity) -> (r: bool)
        requires
            old(self).wf(),
        ensures
            final(self).wf(),
            final(self).resources_view() == old(self).resources_view(),
            final(self).events_view() == old(self).events_view(),
            r == old(self).live(e),
            !final(self).live(e),
            forall|x: Entity| #[trigger] final(self).live(x) <==> (old(self).live(x) && x != e),
            r ==> final(self).alloc_view().alive_view() + 1 == old(self).alloc_view().alive_view(),
            !r ==> *final(self) == *old(self),
            forall|x: Entity, k: ComponentId|
                final(self).live(x) ==> #[trigger] final(self).component_of(x, k) == old(self).component_of(x, k),
            final(self).registry_view() == old(self).registry_view(),
    {
        if !self.allocator.is_alive(e) {
            proof {
                assert(!old(self).alloc_view().is_live(e));
            }
            return false;
        }
        let l = self.locations[e.index() as usize];
        let a = l.archetype_id.0;
        let row = l.row;
        let ghost old_archs = self.archetypes@;
        let ghost old_locs = self.locations@;
        let ghost oa = old_archs[a as int];
        let ghost last_row = (oa.entities_view().len() - 1) as int;
        let ghost last = oa.entities_view()[last_row];
        proof {
            assert(old(self).alloc_view().is_live(e));
            assert(old_archs[a as int].wf());
            lemma_archetype_wf(oa);
            assert(oa.entities_view()[row as int] == e);
            assert(old(self).alloc_view().is_live(last));
        }
        let swapped = self.archetypes[a].remove_entity_drop(row);
        match swapped {
            Some(s) => {
                proof {
                    assert(s == last);
                    assert(s != e);
                    if s.slot() == e.slot() {
                        lemma_live_entities_have_distinct_slots(old(self).alloc_view(), s, e);
                    }
                }
                let mut sl = self.locations[s.index() as usize];
                sl.row = row;
                self.locations.set(s.index() as usize, sl);
            },
            None => {},
        }
        self.locations.set(e.index() as usize, EntityLocation::invalid());
        let _ = self.allocator.deallocate(e);
        proof {
            let archs = self.archetypes@;
            let locs = self.locations@;
            let na = archs[a as int];
            assert(archs == old_archs.update(a as int, na));
            lemma_archetype_wf(na);
            assert forall|y: Entity| old(self).alloc_view().is_live(y) && y != e && y != last implies locs[y.slot() as int]
                == old_locs[y.slot() as int] by {
                if y.slot() == e.slot() {
                    lemma_live_entities_have_distinct_slots(old(self).alloc_view(), y, e);
                }
                if y.slot() == last.slot() {
                    lemma_live_entities_have_distinct_slots(old(self).alloc_view(), y, last);
                }
            }
            if row as int != last_row {
                assert(locs[last.slot() as int].row == row);
                assert(locs[last.slot() as int].archetype_id.0 == a);
            }
            assert forall|x: int| 0 <= x < archs.len() implies {
                &&& (#[trigger] archs[x]).wf()
                &&& archs[x].id_view().0 == x
                &&& archs[x].sizes_match(self.registry.sizes())
            } by {
                if x != a {
                    assert(archs[x] == old_archs[x]);
                } else {
                    assert(oa.sizes_match(self.registry.sizes()));
                    assert forall|c: int| 0 <= c < na.ids_view().len() implies #[trigger] na.column_size(c)
                        == self.registry.sizes()[na.ids_view()[c].0 as int] by {
                        assert(na.column_view(c) == oa.column_view(c).update(row as int, oa.column_view(c).last()).drop_last());
                        assert(oa.column_size(c) == self.registry.sizes()[oa.ids_view()[c].0 as int]);
                    }
                }
            }
            assert forall|x: int, r: int| 0 <= x < archs.len() && 0 <= r < archs[x].entities_view().len() implies {
                let y = #[trigger] archs[x].entities_view()[r];
                &&& self.allocator.is_live(y)
                &&& locs[y.slot() as int].archetype_id.0 == x
                &&& locs[y.slot() as int].row == r
            } by {
                if x == a {
                    if r == row {
                        assert(archs[x].entities_view()[r] == last);
                    } else {
                        assert(archs[x].entities_view()[r] == oa.entities_view()[r]);
                        let y = oa.entities_view()[r];
                        assert(old_locs[y.slot() as int].row == r);
                    }
                } else {
                    assert(archs[x] == old_archs[x]);
                    let y = old_archs[x].entities_view()[r];
                    assert(old_locs[y.slot() as int].archetype_id.0 == x);
                }
            }
            assert forall|y: Entity| #[trigger] self.allocator.is_live(y) implies {
                let m = locs[y.slot() as int];
                &&& y.slot() < locs.len()
                &&& m.archetype_id.0 < archs.len()
                &&& m.row < archs[m.archetype_id.0 as int].entities_view().len()
                &&& archs[m.archetype_id.0 as int].entities_view()[m.row as int] == y
            } by {
                assert(old(self).alloc_view().is_live(y));
                let m = old_locs[y.slot() as int];
                if y == last {
                    assert(archs[a as int].entities_view()[row as int] == last);
                } else if m.archetype_id.0 == a {
                    assert(m.row != row);
                    assert(m.row != last_row);
                    assert(archs[a as int].entities_view()[m.row as int] == oa.entities_view()[m.row as int]);
                } else {
                    assert(archs[m.archetype_id.0 as int] == old_archs[m.archetype_id.0 as int]);
                }
            }
            assert(self.wf());
            assert forall|x: Entity, k: ComponentId|
                self.live(x) implies #[trigger] self.component_of(x, k) == old(self).component_of(x, k) by {
                assert(old(self).alloc_view().is_live(x));
                let m = old_locs[x.slot() as int];
                if m.archetype_id.0 == a {
                    if na.ids_view().contains(k) {
                        let c = na.ids_view().index_of(k);
                        assert(na.column_view(c) == oa.column_view(c).update(row as int, oa.column_view(c).last()).drop_last());
                        if x == last {
                            assert(m.row == last_row);
                        } else {
                            assert(m.row != row);
                        }
                    }
                } else {
                    assert(archs[m.archetype_id.0 as int] == old_archs[m.archetype_id.0 as int]);
                }
            }
        }
        true
    }

    /// Move live entity `e` to the end of archetype `dst`, with records
    /// `data` and ticks `change`, `added` for `dst`'s columns; the last
    /// entity of `e`'s old archetype moves into `e`'s old row.
    fn move_entity(&mut self, e: Entity, dst: usize, data: Vec<Vec<u8>>, change: Vec<u32>, added: Vec<u32>)
        requires
            old(self).wf(),
            old(self).live(e),
            dst < old(self).archetypes_view().len(),
            dst != old(self).loc(e).archetype_id.0,
            data@.len() == old(self).arch(dst as int).column_count(),
            change@.len() == data@.len(),
            added@.len() == data@.len(),
            forall|c: int| 0 <= c < data@.len() ==> (#[trigger] data@[c])@.len() == old(self).arch(dst as int).column_size(c),
        ensures
            final(self).resources_view() == old(self).resources_view(),
            final(self).events_view() == old(self).events_view(),
            final(self).wf(),
            final(self).alloc_view() == old(self).alloc_view(),
            final(self).registry_view() == old(self).registry_view(),
            final(self).tick_view() == old(self).tick_view(),
            final(self).archetypes_view().len() == old(self).archetypes_view().len(),
            forall|a: int| 0 <= a < old(self).archetypes_view().len() ==> (#[trigger] final(self).arch(a)).ids_view() == old(self).arch(a).ids_view(),
            final(self).loc(e).archetype_id.0 == dst,
            forall|c: int| 0 <= c < data@.len() ==> #[trigger] final(self).arch(dst as int).column_view(c)[final(self).loc(e).row as int] == data@[c]@,
            forall|x: Entity, k: ComponentId|
                x != e && final(self).live(x) ==> #[trigger] final(self).component_of(x, k) == old(self).component_of(x, k),
    {
        let l = self.locations[e.index() as usize];
        let a = l.archetype_id.0;
        let row = l.row;
        let ghost old_archs = self.archetypes@;
        let ghost old_locs = self.locations@;
        let ghost oa = old_archs[a as int];
        let ghost od = old_archs[dst as int];
        let ghost last_row = (oa.entities_view().len() - 1) as int;
        let ghost last = oa.entities_view()[last_row];
        proof {
            assert(old_archs[a as int].wf());
            assert(old_archs[dst as int].wf());
            lemma_archetype_wf(oa);
            lemma_archetype_wf(od);
            assert(oa.entities_view()[row as int] == e);
            assert(old(self).alloc_view().is_live(last));
        }
        let new_row = self.archetypes[dst].len();
        self.archetypes[dst].push_row(e, data, change, added);
        let swapped = self.archetypes[a].remove_entity_drop(row);
        match swapped {
            Some(s) => {
                proof {
                    assert(s == last);
                    if s.slot() == e.slot() {
                        lemma_live_entities_have_distinct_slots(old(self).alloc_view(), s, e);
                    }
                }
                let mut sl = self.locations[s.index() as usize];
                sl.row = row;
                self.locations.set(s.index() as usize, sl);
            },
            None => {},
        }
        self.locations.set(e.index() as usize, EntityLocation { archetype_id: ArchetypeId(dst), row: new_row });
        proof {
            let archs = self.archetypes@;
            let locs = self.locations@;
            let na = archs[a as int];
            let nd = archs[dst as int];
            lemma_archetype_wf(na);
            lemma_archetype_wf(nd);
            assert forall|y: Entity| old(self).alloc_view().is_live(y) && y != e && y != last implies locs[y.slot() as int]
                == old_locs[y.slot() as int] by {
                if y.slot() == e.slot() {
                    lemma_live_entities_have_distinct_slots(old(self).alloc_view(), y, e);
                }
                if y.slot() == last.slot() {
                    lemma_live_entities_have_distinct_slots(old(self).alloc_view(), y, last);
                }
            }
            if row as int != last_row {
                assert(last != e);
                assert(locs[last.slot() as int].row == row);
                assert(locs[last.slot() as int].archetype_id.0 == a);
            }
            assert forall|x: int| 0 <= x < archs.len() implies {
                &&& (#[trigger] archs[x]).wf()
                &&& archs[x].id_view().0 == x
                &&& archs[x].sizes_match(self.registry.sizes())
            } by {
                if x != a && x != dst {
                    assert(archs[x] == old_archs[x]);
                } else if x == a {
                    assert(oa.sizes_match(self.registry.sizes()));
                    assert forall|c: int| 0 <= c < na.ids_view().len() implies #[trigger] na.column_size(c)
                        == self.registry.sizes()[na.ids_view()[c].0 as int] by {
                        assert(na.column_view(c) == oa.column_view(c).update(row as int, oa.column_view(c).last()).drop_last());
                        assert(oa.column_size(c) == self.registry.sizes()[oa.ids_view()[c].0 as int]);
                    }
                } else {
                    assert(od.sizes_match(self.registry.sizes()));
                    assert forall|c: int| 0 <= c < nd.ids_view().len() implies #[trigger] nd.column_size(c)
                        == self.registry.sizes()[nd.ids_view()[c].0 as int] by {
                        assert(nd.column_view(c) == od.column_view(c).push(data@[c]@));
                        assert(od.column_size(c) == self.registry.sizes()[od.ids_view()[c].0 as int]);
                    }
                }
            }
            assert forall|x: int, r: int| 0 <= x < archs.len() && 0 <= r < archs[x].entities_view().len() implies {
                let y = #[trigger] archs[x].entities_view()[r];
                &&& self.allocator.is_live(y)
                &&& locs[y.slot() as int].archetype_id.0 == x
                &&& locs[y.slot() as int].row == r
            } by {
                if x == a {
                    if r == row {
                        assert(archs[x].entities_view()[r] == last);
                    } else {
                        assert(archs[x].entities_view()[r] == oa.entities_view()[r]);
                        let y = oa.entities_view()[r];
                        assert(old_locs[y.slot() as int].row == r);
                    }
                } else if x == dst {
                    if r != new_row {
                        assert(archs[x].entities_view()[r] == od.entities_view()[r]);
                        let y = od.entities_view()[r];
                        assert(old_locs[y.slot() as int].row == r);
                        assert(old_locs[y.slot() as int].archetype_id.0 == dst);
                    }
                } else {
                    assert(archs[x] == old_archs[x]);
                    let y = old_archs[x].entities_view()[r];
                    assert(old_locs[y.slot() as int].archetype_id.0 == x);
                }
            }
            assert forall|y: Entity| #[trigger] self.allocator.is_live(y) implies {
                let m = locs[y.slot() as int];
                &&& y.slot() < locs.len()
                &&& m.archetype_id.0 < archs.len()
                &&& m.row < archs[m.archetype_id.0 as int].entities_view().len()
                &&& archs[m.archetype_id.0 as int].entities_view()[m.row as int] == y
            } by {
                let m = old_locs[y.slot() as int];
                if y == e {
                } else if y == last {
                    assert(archs[a as int].entities_view()[row as int] == last);
                } else if m.archetype_id.0 == a {
                    assert(m.row != row);
                    assert(m.row != last_row);
                    assert(archs[a as int].entities_view()[m.row as int] == oa.entities_view()[m.row as int]);
                } else if m.archetype_id.0 == dst {
                    assert(archs[dst as int].entities_view()[m.row as int] == od.entities_view()[m.row as int]);
                } else {
                    assert(archs[m.archetype_id.0 as int] == old_archs[m.archetype_id.0 as int]);
                }
            }
            assert(self.wf());
            assert forall|x: Entity, k: ComponentId|
                x != e && self.live(x) implies #[trigger] self.component_of(x, k) == old(self).component_of(x, k) by {
                let m = old_locs[x.slot() as int];
                if m.archetype_id.0 == a {
                    if na.ids_view().contains(k) {
                        let c = na.ids_view().index_of(k);
                        assert(na.column_view(c) == oa.column_view(c).update(row as int, oa.column_view(c).last()).drop_last());
                        if x == last {
                            assert(m.row == last_row);
                        } else {
                            assert(m.row != row);
                        }
                    }
                } else if m.archetype_id.0 == dst {
                    if nd.ids_view().contains(k) {
                        let c = nd.ids_view().index_of(k);
                        assert(nd.column_view(c) == od.column_view(c).push(data@[c]@));
                    }
                } else {
                    assert(archs[m.archetype_id.0 as int] == old_archs[m.archetype_id.0 as int]);
                }
            }
            assert forall|c: int| 0 <= c < data@.len() implies #[trigger] nd.column_view(c)[new_row as int] == data@[c]@ by {
                assert(nd.column_view(c) == od.column_view(c).push(data@[c]@));
            }
        }
    }

    /// The records of live entity `e`, laid out for the columns `ids` of
    /// another archetype: the existing record for each id `e` has, and
    /// `extra` (stamped with the current tick) for `k`.
    fn row_for(&self, e: Entity, ids: &[ComponentId], k: ComponentId, extra: &Vec<u8>) -> (r: (Vec<Vec<u8>>, Vec<u32>, Vec<u32>))
        requires
            self.wf(),
            self.live(e),
            forall|j: int| 0 <= j < ids@.len() ==> (#[trigger] ids@[j]) == k || self.components_of(e).contains(ids@[j]),
        ensures
            r.0@.len() == ids@.len(),
            r.1@.len() == ids@.len(),
            r.2@.len() == ids@.len(),
            forall|j: int|
                0 <= j < ids@.len() ==> (#[trigger] r.0@[j])@ == if ids@[j] == k {
                    extra@
                } else {
                    self.component_of(e, ids@[j])->0
                },
    {
        let l = self.locations[e.index() as usize];
        let src = &self.archetypes[l.archetype_id.0];
        proof {
            assert(self.archetypes@[l.archetype_id.0 as int].wf());
            lemma_archetype_wf(*src);
        }
        let mut data: Vec<Vec<u8>> = Vec::new();
        let mut change: Vec<u32> = Vec::new();
        let mut added: Vec<u32> = Vec::new();
        let mut j: usize = 0;
        while j < ids.len()
            invariant
                self.wf(),
                self.live(e),
                l == self.loc(e),
                *src == self.arch(l.archetype_id.0 as int),
                src.wf(),
                strictly_sorted(src.ids_view()),
                src.column_count() == src.ids_view().len(),
                l.row < src.entities_view().len(),
                forall|i: int| 0 <= i < ids@.len() ==> (#[trigger] ids@[i]) == k || self.components_of(e).contains(ids@[i]),
                j <= ids@.len(),
                data@.len() == j,
                change@.len() == j,
                added@.len() == j,
                forall|i: int|
                    0 <= i < j ==> (#[trigger] data@[i])@ == if ids@[i] == k {
                        extra@
                    } else {
                        self.component_of(e, ids@[i])->0
                    },
            decreases ids@.len() - j,
        {
            let id = ids[j];
            if id == k {
                data.push(extra.clone());
                change.push(self.tick);
                added.push(self.tick);
            } else {
                match src.column_index(id) {
                    Some(c) => {
                        proof {
                            lemma_sorted_index_of(src.ids_view(), c as int, id);
                        }
                        data.push(src.component_data(c, l.row).clone());
                        change.push(src.change_tick(c, l.row));
                        added.push(src.added_tick(c, l.row));
                    },
                    None => {
                        proof {
                            assert(self.components_of(e).contains(id));
                        }
                        data.push(Vec::new());
                        change.push(0);
                        added.push(0);
                    },
                }
            }
            j = j + 1;
        }
        (data, change, added)
    }

    /// Give live entity `e` component `k` with record `data`, replacing the
    /// record it has. An entity that gains a component moves to the
    /// archetype of its new component set.
    pub fn insert_component(&mut self, e: Entity, k: ComponentId, data: Vec<u8>)
        requires
            old(self).wf(),
            old(self).live(e),
            k.0 < old(self).registry_view().keys().len(),
            data@.len() == old(self).registry_view().sizes()[k.0 as int],
        ensures
            final(self).wf(),
            final(self).resources_view() == old(self).resources_view(),
            final(self).events_view() == old(self).events_view(),
            final(self).alloc_view() == old(self).alloc_view(),
            final(self).registry_view() == old(self).registry_view(),
            final(self).component_of(e, k) == Some(data@),
            forall|k2: ComponentId| k2 != k ==> #[trigger] final(self).component_of(e, k2) == old(self).component_of(e, k2),
            forall|k2: ComponentId|
                #[trigger] final(self).components_of(e).contains(k2) <==> (old(self).components_of(e).contains(k2) || k2 == k),
            forall|x: Entity, k2: ComponentId|
                x != e && final(self).live(x) ==> #[trigger] final(self).component_of(x, k2) == old(self).component_of(x, k2),
    {
        let l = self.locations[e.index() as usize];
        let a = l.archetype_id.0;
        proof {
            assert(self.archetypes@[a as int].wf());
            lemma_archetype_wf(self.archetypes@[a as int]);
        }
        match self.archetypes[a].column_index(k) {
            Some(c) => {
                let ghost old_archs = self.archetypes@;
                let ghost oa = old_archs[a as int];
                proof {
                    lemma_sorted_index_of(oa.ids_view(), c as int, k);
                    assert(oa.sizes_match(self.registry.sizes()));
                    assert(oa.column_size(c as int) == self.registry.sizes()[oa.ids_view()[c as int].0 as int]);
                }
                let tick = self.tick;
                self.archetypes[a].replace_component(c, l.row, data, tick);
                proof {
                    let archs = self.archetypes@;
                    let na = archs[a as int];
                    assert(archs == old_archs.update(a as int, na));
                    lemma_archetype_wf(na);
                    assert forall|x: int| 0 <= x < archs.len() implies {
                        &&& (#[trigger] archs[x]).wf()
                        &&& archs[x].id_view().0 == x
                        &&& archs[x].sizes_match(self.registry.sizes())
                    } by {
                        if x != a {
                            assert(archs[x] == old_archs[x]);
                        } else {
                            assert forall|cc: int| 0 <= cc < na.ids_view().len() implies #[trigger] na.column_size(cc)
                                == self.registry.sizes()[na.ids_view()[cc].0 as int] by {
                                assert(na.column_view(cc) == na.column_view(cc));
                                assert(oa.column_size(cc) == self.registry.sizes()[oa.ids_view()[cc].0 as int]);
                            }
                        }
                    }
                    assert forall|x: int, r: int| 0 <= x < archs.len() && 0 <= r < archs[x].entities_view().len() implies {
                        let y = #[trigger] archs[x].entities_view()[r];
                        &&& self.allocator.is_live(y)
                        &&& self.locations@[y.slot() as int].archetype_id.0 == x
                        &&& self.locations@[y.slot() as int].row == r
                    } by {
                        assert(archs[x].entities_view() == old_archs[x].entities_view());
                    }
                    assert forall|y: Entity| #[trigger] self.allocator.is_live(y) implies {
                        let m = self.locations@[y.slot() as int];
                        &&& y.slot() < self.locations@.len()
                        &&& m.archetype_id.0 < archs.len()
                        &&& m.row < archs[m.archetype_id.0 as int].entities_view().len()
                        &&& archs[m.archetype_id.0 as int].entities_view()[m.row as int] == y
                    } by {
                        let m = self.locations@[y.slot() as int];
                        assert(archs[m.archetype_id.0 as int].entities_view() == old_archs[m.archetype_id.0 as int].entities_view());
                    }
                    assert(self.wf());
                    assert forall|x: Entity, k2: ComponentId| self.live(x) && (x != e || k2 != k) implies #[trigger] self.component_of(x, k2)
                        == old(self).component_of(x, k2) by {
                        let m = self.locations@[x.slot() as int];
                        if m.archetype_id.0 == a {
                            if na.ids_view().contains(k2) {
                                let cc = na.ids_view().index_of(k2);
                                assert(na.column_view(cc) == if cc == c {
                                    oa.column_view(cc).update(l.row as int, data@)
                                } else {
                                    oa.column_view(cc)
                                });
                                if cc == c {
                                    assert(na.ids_view()[cc] == k);
                                    if x == e {
                                        assert(false);
                                    } else {
                                        assert(m.row != l.row);
                                    }
                                }
                            }
                        } else {
                            assert(archs[m.archetype_id.0 as int] == old_archs[m.archetype_id.0 as int]);
                        }
                    }
                    assert(na.column_view(c as int) == oa.column_view(c as int).update(l.row as int, data@));
                }
            },
            None => {
                proof {
                    assert(!self.arch(a as int).ids_view().contains(k));
                }
                let dst = self.edge_target(a, k, true);
                proof {
                    let d = self.arch(dst as int);
                    assert(self.loc(e) == old(self).loc(e));
                    assert(self.components_of(e) == old(self).components_of(e));
                    assert(!old(self).components_of(e).contains(k));
                    assert(self.archetypes@[dst as int].wf());
                    lemma_archetype_wf(d);
                    assert forall|j: int| 0 <= j < d.ids_view().len() implies (#[trigger] d.ids_view()[j]) == k || self.components_of(e).contains(d.ids_view()[j]) by {
                        assert(d.ids_view().contains(d.ids_view()[j]));
                    }
                }
                let (row_data, change, added) = self.row_for(e, self.archetypes[dst].component_ids(), k, &data);
                proof {
                    let d = self.arch(dst as int);
                    let new_ids = d.ids_view();
                    assert(d.sizes_match(self.registry.sizes()));
                    assert forall|j: int| 0 <= j < row_data@.len() implies (#[trigger] row_data@[j])@.len() == d.column_size(j) by {
                        assert(d.column_size(j) == self.registry.sizes()[d.ids_view()[j].0 as int]);
                        if new_ids[j] != k {
                            let id = new_ids[j];
                            let sa = self.arch(a as int);
                            assert(sa.wf());
                            lemma_archetype_wf(sa);
                            assert(d.ids_view().contains(id));
                            assert(sa.ids_view().contains(id));
                            let c = sa.ids_view().index_of(id);
                            assert(sa.sizes_match(self.registry.sizes()));
                            assert(sa.column_size(c) == self.registry.sizes()[sa.ids_view()[c].0 as int]);
                            assert(sa.column_view(c)[self.loc(e).row as int].len() == sa.column_size(c)) by {
                                lemma_archetype_records(sa, c, self.loc(e).row as int);
                            }
                        }
                    }
                }
                let ghost mid = *self;
                self.move_entity(e, dst, row_data, change, added);
                proof {
                    let d = self.arch(dst as int);
                    assert(d.ids_view() == mid.arch(dst as int).ids_view());
                    assert forall|k2: ComponentId| #[trigger] self.components_of(e).contains(k2) <==> (old(self).components_of(e).contains(k2)
                        || k2 == k) by {
                        assert(mid.arch(dst as int).ids_view().contains(k2) <==> (mid.arch(a as int).ids_view().contains(k2) || k2 == k));
                    }
                    lemma_archetype_wf(d);
                    assert forall|k2: ComponentId| d.ids_view().contains(k2) implies #[trigger] self.component_of(e, k2) == (if k2 == k {
                        Some(data@)
                    } else {
                        old(self).component_of(e, k2)
                    }) by {
                        let j = d.ids_view().index_of(k2);
                        assert(d.ids_view()[j] == k2);
                        assert(d.column_view(j)[self.loc(e).row as int] == row_data@[j]@);
                    }
                    assert(d.ids_view().contains(k));
                    assert forall|k2: ComponentId| k2 != k implies #[trigger] self.component_of(e, k2) == old(self).component_of(e, k2) by {
                        if !d.ids_view().contains(k2) {
                            assert(!old(self).components_of(e).contains(k2));
                        }
                    }
                    assert forall|x: Entity, k2: ComponentId| x != e && self.live(x) implies #[trigger] self.component_of(x, k2)
                        == old(self).component_of(x, k2) by {
                        assert(mid.component_of(x, k2) == old(self).component_of(x, k2));
                    }
                }
            },
        }
    }

    /// Take component `k` away from live entity `e`, returning its record;
    /// `None`, and no change, when `e` has no such component. The entity
    /// moves to the archetype of its remaining components.
    pub fn remove_component(&mut self, e: Entity, k: ComponentId) -> (r: Option<Vec<u8>>)
        requires
            old(self).wf(),
            old(self).live(e),
        ensures
            final(self).wf(),
            final(self).resources_view() == old(self).resources_view(),
            final(self).events_view() == old(self).events_view(),
            final(self).alloc_view() == old(self).alloc_view(),
            final(self).registry_view() == old(self).registry_view(),
            match r {
                Some(d) => old(self).component_of(e, k) == Some(d@),
                None => old(self).component_of(e, k) is None && *final(self) == *old(self),
            },
            final(self).component_of(e, k) is None,
            forall|k2: ComponentId| k2 != k ==> #[trigger] final(self).component_of(e, k2) == old(self).component_of(e, k2),
            forall|k2: ComponentId|
                #[trigger] final(self).components_of(e).contains(k2) <==> (old(self).components_of(e).contains(k2) && k2 != k),
            forall|x: Entity, k2: ComponentId|
                x != e && final(self).live(x) ==> #[trigger] final(self).component_of(x, k2) == old(self).component_of(x, k2),
    {
        let l = self.locations[e.index() as usize];
        let a = l.archetype_id.0;
        proof {
            assert(self.archetypes@[a as int].wf());
            lemma_archetype_wf(self.archetypes@[a as int]);
        }
        let c = match self.archetypes[a].column_index(k) {
            Some(c) => c,
            None => return None,
        };
        proof {
            lemma_sorted_index_of(self.arch(a as int).ids_view(), c as int, k);
        }
        let value = self.archetypes[a].component_data(c, l.row).clone();
        proof {
            assert(self.arch(a as int).ids_view().contains(k));
            assert(self.arch(a as int).sizes_match(self.registry.sizes()));
            assert(self.registry.sizes().len() == self.registry.keys().len());
            assert(self.arch(a as int).ids_view()[c as int].0 < self.registry.sizes().len());
        }
        let dst = self.edge_target(a, k, false);
        proof {
            let d = self.arch(dst as int);
            assert(self.loc(e) == old(self).loc(e));
            assert(self.components_of(e) == old(self).components_of(e));
            assert(self.components_of(e).contains(k));
            assert(!d.ids_view().contains(k));
            assert(self.archetypes@[dst as int].wf());
            lemma_archetype_wf(d);
            assert forall|j: int| 0 <= j < d.ids_view().len() implies (#[trigger] d.ids_view()[j]) == k || self.components_of(e).contains(d.ids_view()[j]) by {
                assert(d.ids_view().contains(d.ids_view()[j]));
            }
        }
        let empty: Vec<u8> = Vec::new();
        let (row_data, change, added) = self.row_for(e, self.archetypes[dst].component_ids(), k, &empty);
        proof {
            let d = self.arch(dst as int);
            let new_ids = d.ids_view();
            assert(d.sizes_match(self.registry.sizes()));
            assert forall|j: int| 0 <= j < row_data@.len() implies (#[trigger] row_data@[j])@.len() == d.column_size(j) by {
                assert(d.column_size(j) == self.registry.sizes()[d.ids_view()[j].0 as int]);
                assert(new_ids.contains(new_ids[j]));
                let id = new_ids[j];
                assert(id != k);
                let sa = self.arch(a as int);
                assert(sa.wf());
                lemma_archetype_wf(sa);
                assert(sa.ids_view().contains(id));
                let cc = sa.ids_view().index_of(id);
                assert(sa.sizes_match(self.registry.sizes()));
                assert(sa.column_size(cc) == self.registry.sizes()[sa.ids_view()[cc].0 as int]);
                lemma_archetype_records(sa, cc, self.loc(e).row as int);
            }
        }
        let ghost mid = *self;
        self.move_entity(e, dst, row_data, change, added);
        proof {
            let d = self.arch(dst as int);
            assert(d.ids_view() == mid.arch(dst as int).ids_view());
            assert forall|k2: ComponentId| #[trigger] self.components_of(e).contains(k2) <==> (old(self).components_of(e).contains(k2)
                && k2 != k) by {
                assert(mid.arch(dst as int).ids_view().contains(k2) <==> (mid.arch(a as int).ids_view().contains(k2) && k2 != k));
            }
            lemma_archetype_wf(d);
            assert forall|k2: ComponentId| d.ids_view().contains(k2) implies #[trigger] self.component_of(e, k2) == old(self).component_of(e, k2) by {
                let j = d.ids_view().index_of(k2);
                assert(d.ids_view()[j] == k2);
                assert(k2 != k);
                assert(d.column_view(j)[self.loc(e).row as int] == row_data@[j]@);
            }
            assert forall|k2: ComponentId| k2 != k implies #[trigger] self.component_of(e, k2) == old(self).component_of(e, k2) by {
                if !d.ids_view().contains(k2) {
                    assert(!old(self).components_of(e).contains(k2));
                }
            }
            assert(!d.ids_view().contains(k));
            assert forall|x: Entity, k2: ComponentId| x != e && self.live(x) implies #[trigger] self.component_of(x, k2)
                == old(self).component_of(x, k2) by {
                assert(mid.component_of(x, k2) == old(self).component_of(x, k2));
            }
        }
        Some(value)
    }

    /// The archetype an entity of archetype `a` moves to when it gains
    /// (`adding`) or loses component `k`: the cached edge when there is
    /// one, else the archetype of the new component set, made if needed,
    /// with the edges in both directions recorded.
    fn edge_target(&mut self, a: usize, k: ComponentId, adding: bool) -> (d: usize)
        requires
            old(self).wf(),
            a < old(self).archetypes_view().len(),
            k.0 < old(self).registry_view().keys().len(),
            old(self).arch(a as int).ids_view().contains(k) != adding,
        ensures
            final(self).resources_view() == old(self).resources_view(),
            final(self).events_view() == old(self).events_view(),
            final(self).wf(),
            d < final(self).archetypes_view().len(),
            d != a,
            forall|x: ComponentId|
                #[trigger] final(self).arch(d as int).ids_view().contains(x) <==> (if adding {
                    final(self).arch(a as int).ids_view().contains(x) || x == k
                } else {
                    final(self).arch(a as int).ids_view().contains(x) && x != k
                }),
            final(self).alloc_view() == old(self).alloc_view(),
            final(self).locations_view() == old(self).locations_view(),
            final(self).registry_view() == old(self).registry_view(),
            final(self).tick_view() == old(self).tick_view(),
            old(self).archetypes_view().len() <= final(self).archetypes_view().len(),
            forall|b: int|
                0 <= b < old(self).archetypes_view().len() ==> {
                    &&& (#[trigger] final(self).arch(b)).ids_view() == old(self).arch(b).ids_view()
                    &&& final(self).arch(b).entities_view() == old(self).arch(b).entities_view()
                },
            forall|e: Entity, k2: ComponentId| #[trigger] final(self).component_of(e, k2) == old(self).component_of(e, k2),
    {
        let cached = if adding {
            self.archetypes[a].add_edge(k)
        } else {
            self.archetypes[a].remove_edge(k)
        };
        match cached {
            Some(t) => {
                proof {
                    let archs = self.archetypes@;
                    if adding {
                        assert(archs[a as int].add_edges_view().contains_key(k.0));
                        assert(archs[t.0 as int].ids_view().contains(k) <==> (archs[a as int].ids_view().contains(k) || k.0 == k.0));
                    } else {
                        assert(archs[a as int].remove_edges_view().contains_key(k.0));
                        assert(archs[a as int].ids_view().contains(k));
                        assert(!archs[t.0 as int].ids_view().contains(k));
                    }
                    assert forall|x: ComponentId| #[trigger] archs[t.0 as int].ids_view().contains(x) <==> (if adding {
                        archs[a as int].ids_view().contains(x) || x == k
                    } else {
                        archs[a as int].ids_view().contains(x) && x != k
                    }) by {
                        assert((x.0 == k.0) == (x == k));
                    }
                }
                t.0
            },
            None => {
                proof {
                    let sa = self.arch(a as int);
                    assert(sa.wf());
                    lemma_archetype_wf(sa);
                }
                let ghost src_ids = self.arch(a as int).ids_view();
                let new_ids = if adding {
                    insert_sorted(self.archetypes[a].component_ids(), k)
                } else {
                    remove_sorted(self.archetypes[a].component_ids(), k)
                };
                proof {
                    let sa = self.arch(a as int);
                    assert(sa.sizes_match(self.registry.sizes()));
                    assert(self.registry.sizes().len() == self.registry.keys().len());
                    assert forall|c: int| 0 <= c < new_ids@.len() implies (#[trigger] new_ids@[c]).0 < self.registry.keys().len() by {
                        assert(new_ids@.contains(new_ids@[c]));
                        if new_ids@[c] != k {
                            let m = choose|m: int| 0 <= m < sa.ids_view().len() && sa.ids_view()[m] == new_ids@[c];
                            assert(sa.ids_view()[m].0 < self.registry.sizes().len());
                        }
                    }
                }
                let d = self.get_or_create_archetype(new_ids.as_slice());
                let ghost mid = *self;
                proof {
                    assert(self.arch(d as int).ids_view() == new_ids@);
                    assert(self.arch(a as int).ids_view() == src_ids);
                    assert(forall|x: ComponentId| #[trigger] new_ids@.contains(x) <==> (if adding {
                        src_ids.contains(x) || x == k
                    } else {
                        src_ids.contains(x) && x != k
                    }));
                    if d == a {
                        assert(new_ids@.contains(k) != self.arch(a as int).ids_view().contains(k));
                    }
                }
                if adding {
                    self.archetypes[a].set_add_edge(k, ArchetypeId(d));
                    self.archetypes[d].set_remove_edge(k, ArchetypeId(a));
                } else {
                    self.archetypes[a].set_remove_edge(k, ArchetypeId(d));
                    self.archetypes[d].set_add_edge(k, ArchetypeId(a));
                }
                proof {
                    let archs = self.archetypes@;
                    let olds = mid.archetypes@;
                    assert(archs.len() == olds.len());
                    assert forall|b: int| 0 <= b < archs.len() implies {
                        &&& (#[trigger] archs[b]).ids_view() == olds[b].ids_view()
                        &&& archs[b].entities_view() == olds[b].entities_view()
                        &&& archs[b].wf() == olds[b].wf()
                        &&& archs[b].id_view() == olds[b].id_view()
                        &&& (forall|c: int| #[trigger] archs[b].column_view(c) == olds[b].column_view(c))
                        &&& (forall|c: int| #[trigger] archs[b].column_size(c) == olds[b].column_size(c))
                        &&& (b != a && b != d ==> archs[b] == olds[b])
                    } by {
                        if b == a || b == d {
                            lemma_same_rows(archs[b], olds[b]);
                        }
                    }
                    assert forall|b: int| 0 <= b < archs.len() implies {
                        &&& (#[trigger] archs[b]).wf()
                        &&& archs[b].id_view().0 == b
                        &&& archs[b].sizes_match(self.registry.sizes())
                    } by {
                        assert(olds[b].wf());
                        assert(olds[b].sizes_match(self.registry.sizes()));
                        assert forall|c: int| 0 <= c < archs[b].ids_view().len() implies #[trigger] archs[b].column_size(c)
                            == self.registry.sizes()[archs[b].ids_view()[c].0 as int] by {
                            assert(olds[b].column_size(c) == self.registry.sizes()[olds[b].ids_view()[c].0 as int]);
                        }
                    }
                    assert(archs[d as int].ids_view() == new_ids@);
                    assert(archs[a as int].ids_view() == src_ids);
                    assert forall|x: ComponentId| #[trigger] archs[d as int].ids_view().contains(x) <==> (if adding {
                        archs[a as int].ids_view().contains(x) || x == k
                    } else {
                        archs[a as int].ids_view().contains(x) && x != k
                    }) by {
                        assert(new_ids@.contains(x) <==> (if adding {
                            src_ids.contains(x) || x == k
                        } else {
                            src_ids.contains(x) && x != k
                        }));
                    }
                    assert forall|b: int, k2: u32| 0 <= b < archs.len() && #[trigger] archs[b].add_edges_view().contains_key(k2) implies {
                        let t = archs[b].add_edges_view()[k2] as int;
                        &&& 0 <= t < archs.len()
                        &&& forall|x: ComponentId|
                            #[trigger] archs[t].ids_view().contains(x) <==> (archs[b].ids_view().contains(x) || x.0 == k2)
                    } by {
                        if adding && b == a && k2 == k.0 {
                            assert forall|x: ComponentId| #[trigger] archs[d as int].ids_view().contains(x) <==> (archs[b].ids_view().contains(x) || x.0 == k2) by {
                                assert((x.0 == k.0) == (x == k));
                            }
                        } else if !adding && b == d && k2 == k.0 {
                            assert(src_ids.contains(k));
                            assert forall|x: ComponentId| #[trigger] archs[a as int].ids_view().contains(x) <==> (archs[b].ids_view().contains(x) || x.0 == k2) by {
                                assert((x.0 == k.0) == (x == k));
                                assert(new_ids@.contains(x) <==> (src_ids.contains(x) && x != k));
                            }
                        } else {
                            assert(olds[b].add_edges_view().contains_key(k2));
                            assert(archs[b].add_edges_view()[k2] == olds[b].add_edges_view()[k2]);
                        }
                    }
                    assert forall|b: int, k2: u32| 0 <= b < archs.len() && #[trigger] archs[b].remove_edges_view().contains_key(k2) implies {
                        let t = archs[b].remove_edges_view()[k2] as int;
                        &&& 0 <= t < archs.len()
                        &&& forall|x: ComponentId|
                            #[trigger] archs[t].ids_view().contains(x) <==> (archs[b].ids_view().contains(x) && x.0 != k2)
                    } by {
                        if adding && b == d && k2 == k.0 {
                            assert(!src_ids.contains(k));
                            assert forall|x: ComponentId| #[trigger] archs[a as int].ids_view().contains(x) <==> (archs[b].ids_view().contains(x) && x.0 != k2) by {
                                assert((x.0 == k.0) == (x == k));
                                assert(new_ids@.contains(x) <==> (src_ids.contains(x) || x == k));
                            }
                        } else if !adding && b == a && k2 == k.0 {
                            assert forall|x: ComponentId| #[trigger] archs[d as int].ids_view().contains(x) <==> (archs[b].ids_view().contains(x) && x.0 != k2) by {
                                assert((x.0 == k.0) == (x == k));
                            }
                        } else {
                            assert(olds[b].remove_edges_view().contains_key(k2));
                            assert(archs[b].remove_edges_view()[k2] == olds[b].remove_edges_view()[k2]);
                        }
                    }
                    assert(self.wf());
                    assert forall|b: int| 0 <= b < old(self).archetypes_view().len() implies {
                        &&& (#[trigger] self.arch(b)).ids_view() == old(self).arch(b).ids_view()
                        &&& self.arch(b).entities_view() == old(self).arch(b).entities_view()
                    } by {
                        assert(mid.arch(b) == old(self).arch(b));
                        assert(archs[b].ids_view() == olds[b].ids_view());
                    }
                    assert forall|e: Entity, k2: ComponentId| #[trigger] self.component_of(e, k2) == mid.component_of(e, k2) by {
                        if self.live(e) {
                            let m = self.loc(e).archetype_id.0 as int;
                            assert(archs[m].ids_view() == olds[m].ids_view());
                            assert(archs[m].column_view(archs[m].ids_view().index_of(k2)) == olds[m].column_view(olds[m].ids_view().index_of(k2)));
                        }
                    }
                }
                d
            },
        }
    }
}

proof fn lemma_push_contains(s: Seq<ComponentId>, y: ComponentId)
    ensures
        forall|x: ComponentId| #[trigger] s.push(y).contains(x) <==> (s.contains(x) || x == y),
{
    assert forall|x: ComponentId| #[trigger] s.push(y).contains(x) <==> (s.contains(x) || x == y) by {
        if s.contains(x) {
            let m = choose|m: int| 0 <= m < s.len() && s[m] == x;
            assert(s.push(y)[m] == x);
        }
        if x == y {
            assert(s.push(y)[s.len() as int] == y);
        }
        if s.push(y).contains(x) {
            let m = choose|m: int| 0 <= m < s.len() + 1 && s.push(y)[m] == x;
            if m < s.len() {
                assert(s[m] == x);
            }
        }
    }

}

/// `ids` without `k`.
fn remove_sorted(ids: &[ComponentId], k: ComponentId) -> (r: Vec<ComponentId>)
    requires
        strictly_sorted(ids@),
    ensures
        strictly_sorted(r@),
        forall|x: ComponentId| #[trigger] r@.contains(x) <==> (ids@.contains(x) && x != k),
{
    let mut out: Vec<ComponentId> = Vec::new();
    let mut i: usize = 0;
    while i < ids.len()
        invariant
            strictly_sorted(ids@),
            i <= ids@.len(),
            strictly_sorted(out@),
            forall|x: ComponentId| #[trigger] out@.contains(x) <==> (ids@.take(i as int).contains(x) && x != k),
            i < ids@.len() ==> forall|m: int| 0 <= m < out@.len() ==> (#[trigger] out@[m]).0 < ids@[i as int].0,
        decreases ids@.len() - i,
    {
        let x = ids[i];
        let ghost before = out@;
        proof {
            assert(ids@.take(i + 1) =~= ids@.take(i as int).push(x));
            lemma_push_contains(ids@.take(i as int), x);
            assert(ids@[i as int] == x);
        }
        if x.0 != k.0 {
            out.push(x);
            proof {
                lemma_push_contains(before, x);
            }
        }
        proof {
            if i + 1 < ids@.len() {
                assert(ids@[i as int].0 < ids@[i + 1].0);
            }
        }
        i = i + 1;
    }
    proof {
        assert(ids@.take(ids@.len() as int) =~= ids@);
    }
    out
}

/// `ids` with `k` inserted in order.
fn insert_sorted(ids: &[ComponentId], k: ComponentId) -> (r: Vec<ComponentId>)
    requires
        strictly_sorted(ids@),
        !ids@.contains(k),
    ensures
        strictly_sorted(r@),
        forall|x: ComponentId| #[trigger] r@.contains(x) <==> (ids@.contains(x) || x == k),
{
    let mut out: Vec<ComponentId> = Vec::new();
    let mut placed = false;
    let mut i: usize = 0;
    while i < ids.len()
        invariant
            strictly_sorted(ids@),
            !ids@.contains(k),
            i <= ids@.len(),
            strictly_sorted(out@),
            forall|x: ComponentId| #[trigger] out@.contains(x) <==> (ids@.take(i as int).contains(x) || (placed && x == k)),
            !placed ==> forall|m: int| 0 <= m < out@.len() ==> (#[trigger] out@[m]).0 < k.0,
            placed ==> forall|m: int| i <= m < ids@.len() ==> k.0 < (#[trigger] ids@[m]).0,
            i < ids@.len() ==> forall|m: int| 0 <= m < out@.len() ==> (#[trigger] out@[m]).0 < ids@[i as int].0,
        decreases ids@.len() - i,
    {
        let x = ids[i];
        let ghost before = out@;
        proof {
            assert(ids@.take(i + 1) =~= ids@.take(i as int).push(x));
            lemma_push_contains(ids@.take(i as int), x);
            assert(ids@[i as int] == x);
            if x == k {
                assert(ids@.contains(k));
            }
        }
        if !placed && k.0 < x.0 {
            out.push(k);
            placed = true;
            proof {
                lemma_push_contains(before, k);
                assert forall|m: int| i <= m < ids@.len() implies k.0 < (#[trigger] ids@[m]).0 by {
                    if m > i {
                        assert(ids@[i as int].0 < ids@[m].0);
                    }
                }
            }
        }
        let ghost mid = out@;
        out.push(x);
        proof {
            lemma_push_contains(mid, x);
            if i + 1 < ids@.len() {
                assert(ids@[i as int].0 < ids@[i + 1].0);
            }
            assert(x.0 != k.0);
        }
        i = i + 1;
    }
    if !placed {
        let ghost before = out@;
        out.push(k);
        proof {
            lemma_push_contains(before, k);
        }
    }
    proof {
        assert(ids@.take(ids@.len() as int) =~= ids@);
    }
    out
}

/// Do the two lists hold the same ids in the same order?
fn ids_equal(a: &[ComponentId], b: &[ComponentId]) -> (r: bool)
    ensures
        r == (a@ == b@),
{
    if a.len() != b.len() {
        return false;
    }
    let mut i: usize = 0;
    while i < a.len()
        invariant
            a@.len() == b@.len(),
            i <= a@.len(),
            forall|j: int| 0 <= j < i ==> a@[j] == b@[j],
        decreases a@.len() - i,
    {
        if a[i].0 != b[i].0 {
            return false;
        }
        i = i + 1;
    }
    proof {
        assert(a@ =~= b@);
    }
    true
}

/// A slot handed out by `allocate` was not the slot of any live entity.
proof fn lemma_fresh_slot(before: EntityAllocator, after: EntityAllocator, e: Entity)
    requires
        before.wf(),
        allocate_post(before.generations_view(), before.free_view(), after.generations_view(), after.free_view(), e),
    ensures
        forall|x: Entity| #[trigger] before.is_live(x) ==> x.slot() != e.slot(),
        e.slot() <= before.generations_view().len(),
        e.slot() == before.generations_view().len() ==> after.generations_view().len() == before.generations_view().len() + 1,
        e.slot() < before.generations_view().len() ==> after.generations_view().len() == before.generations_view().len(),
{
    lemma_allocator_slots(before);
    if before.free_view().len() > 0 {
        assert(before.free_view().contains(e.slot()));
    }
}

/// In a consistent store a live entity occupies exactly one row: the one
/// its location names.
pub proof fn lemma_one_row_per_entity(w: World, e: Entity, a: int, r: int)
    requires
        w.wf(),
        w.live(e),
        0 <= a < w.archetypes_view().len(),
        0 <= r < w.arch(a).entities_view().len(),
        w.arch(a).entities_view()[r] == e,
    ensures
        w.loc(e).archetype_id.0 == a,
        w.loc(e).row == r,
{
    assert(w.archetypes_view()[a].entities_view()[r] == e);
}

/// `a` and `b` hold the same entities, components and tick.
pub open spec fn same_store(a: World, b: World) -> bool {
    &&& a.alloc_view() == b.alloc_view()
    &&& a.locations_view() == b.locations_view()
    &&& a.archetypes_view() == b.archetypes_view()
    &&& a.registry_view() == b.registry_view()
    &&& a.tick_view() == b.tick_view()
}

impl World {
    /// Store `value` as the resource under `key`, replacing what was there.
    pub fn insert_resource(&mut self, key: u64, value: Vec<u8>)
        requires
            old(self).wf(),
        ensures
            final(self).wf(),
            final(self).resources_view() == old(self).resources_view().insert(key, value@),
            final(self).events_view() == old(self).events_view(),
            same_store(*final(self), *old(self)),
    {
        self.resources.insert(key, value);
    }

    /// The resource under `key`, which must be present.
    pub fn get_resource(&self, key: u64) -> (r: &Vec<u8>)
        requires
            self.wf(),
            self.resources_view().contains_key(key),
        ensures
            r@ == self.resources_view()[key],
    {
        self.resources.get(key)
    }

    /// The resource under `key`, which must be present, to change in place.
    pub fn get_resource_mut(&mut self, key: u64) -> (r: &mut Vec<u8>)
        requires
            old(self).wf(),
            old(self).resources_view().contains_key(key),
        ensures
            r@ == old(self).resources_view()[key],
            final(self).wf(),
            final(self).resources_view() == old(self).resources_view().insert(key, final(r)@),
            final(self).events_view() == old(self).events_view(),
            same_store(*final(self), *old(self)),
    {
        self.resources.get_mut(key)
    }

    /// Take the resource under `key` out of the world.
    pub fn remove_resource(&mut self, key: u64) -> (r: Option<Vec<u8>>)
        requires
            old(self).wf(),
        ensures
            final(self).wf(),
            final(self).resources_view() == old(self).resources_view().remove(key),
            match r {
                Some(v) => old(self).resources_view().contains_key(key) && v@ == old(self).resources_view()[key],
                None => !old(self).resources_view().contains_key(key),
            },
            final(self).events_view() == old(self).events_view(),
            same_store(*final(self), *old(self)),
    {
        self.resources.remove(key)
    }

    /// Is there a resource under `key`?
    pub fn has_resource(&self, key: u64) -> (r: bool)
        requires
            self.wf(),
        ensures
            r == self.resources_view().contains_key(key),
    {
        self.resources.contains(key)
    }

    /// The event queues.
    pub fn events(&self) -> (r: &EventStorage)
        requires
            self.wf(),
        ensures
            *r == self.events_view(),
            r.wf(),
    {
        &self.events
    }

    /// The event queues, to send events into or swap.
    pub fn events_mut(&mut self) -> (r: &mut EventStorage)
        requires
            old(self).wf(),
        ensures
            *r == old(self).events_view(),
            r.wf(),
            final(self).events_view() == *final(r),
            final(r).wf() ==> final(self).wf(),
            final(self).resources_view() == old(self).resources_view(),
            same_store(*final(self), *old(self)),
    {
        &mut self.events
    }

    /// Give event type `key` a queue, unless it has one already.
    pub fn add_event(&mut self, key: u64)
        requires
            old(self).wf(),
        ensures
            final(self).wf(),
            old(self).events_view()@.contains_key(key) ==> final(self).events_view()@ == old(self).events_view()@,
            !old(self).events_view()@.contains_key(key) ==> final(self).events_view()@ == old(self).events_view()@.insert(
                key,
                final(self).events_view()@[key],
            ) && final(self).events_view()@[key].pending() == Seq::<Vec<u8>>::empty()
                && final(self).events_view()@[key].readable() == Seq::<Vec<u8>>::empty(),
            final(self).resources_view() == old(self).resources_view(),
            same_store(*final(self), *old(self)),
    {
        self.events.register(key);
    }
}


/// Component types `ids` include each of `with` and none of `without`.
pub open spec fn ids_match(ids: Seq<ComponentId>, with: Seq<ComponentId>, without: Seq<ComponentId>) -> bool {
    &&& forall|i: int| 0 <= i < with.len() ==> ids.contains(#[trigger] with[i])
    &&& forall|i: int| 0 <= i < without.len() ==> !ids.contains(#[trigger] without[i])
}

/// Does archetype `arch` hold each of `with` and none of `without`?
fn archetype_matches(arch: &Archetype, with: &[ComponentId], without: &[ComponentId]) -> (r: bool)
    requires
        arch.wf(),
    ensures
        r == ids_match(arch.ids_view(), with@, without@),
{
    let mut i: usize = 0;
    while i < with.len()
        invariant
            arch.wf(),
            i <= with@.len(),
            forall|j: int| 0 <= j < i ==> arch.ids_view().contains(#[trigger] with@[j]),
        decreases with@.len() - i,
    {
        if !arch.has_component(with[i]) {
            return false;
        }
        i = i + 1;
    }
    let mut i: usize = 0;
    while i < without.len()
        invariant
            arch.wf(),
            i <= without@.len(),
            forall|j: int| 0 <= j < with@.len() ==> arch.ids_view().contains(#[trigger] with@[j]),
            forall|j: int| 0 <= j < i ==> !arch.ids_view().contains(#[trigger] without@[j]),
        decreases without@.len() - i,
    {
        if arch.has_component(without[i]) {
            return false;
        }
        i = i + 1;
    }
    true
}

impl World {
    /// The live entities whose components include each of `with` and none
    /// of `without`, each once, archetype by archetype.
    pub fn query_filtered(&self, with: &[ComponentId], without: &[ComponentId]) -> (r: Vec<Entity>)
        requires
            self.wf(),
        ensures
            r@.no_duplicates(),
            forall|e: Entity|
                #[trigger] r@.contains(e) <==> self.live(e) && ids_match(self.components_of(e), with@, without@),
    {
        let ghost archs = self.archetypes@;
        let ghost alloc = self.allocator;
        let ghost locs = self.locations@;
        let mut out: Vec<Entity> = Vec::new();
        let mut a: usize = 0;
        while a < self.archetypes.len()
            invariant
                self.wf(),
                archs == self.archetypes@,
                alloc == self.allocator,
                locs == self.locations@,
                a <= archs.len(),
                out@.no_duplicates(),
                forall|e: Entity|
                    #[trigger] out@.contains(e) <==> alloc.is_live(e) && locs[e.slot() as int].archetype_id.0 < a
                        && ids_match(archs[locs[e.slot() as int].archetype_id.0 as int].ids_view(), with@, without@),
            decreases archs.len() - a,
        {
            let arch = &self.archetypes[a];
            proof {
                assert(archs[a as int].wf());
            }
            if archetype_matches(arch, with, without) {
                let ents = arch.entities();
                let ghost start = out@;
                let mut row: usize = 0;
                while row < ents.len()
                    invariant
                        self.wf(),
                        archs == self.archetypes@,
                        alloc == self.allocator,
                        locs == self.locations@,
                        a < archs.len(),
                        ents@ == archs[a as int].entities_view(),
                        ids_match(archs[a as int].ids_view(), with@, without@),
                        row <= ents@.len(),
                        out@ == start + ents@.take(row as int),
                        out@.no_duplicates(),
                        forall|e: Entity|
                            #[trigger] start.contains(e) <==> alloc.is_live(e) && locs[e.slot() as int].archetype_id.0 < a
                                && ids_match(archs[locs[e.slot() as int].archetype_id.0 as int].ids_view(), with@, without@),
                    decreases ents@.len() - row,
                {
                    let e = ents[row];
                    proof {
                        assert(archs[a as int].entities_view()[row as int] == e);
                        assert(locs[e.slot() as int].archetype_id.0 == a);
                        assert(locs[e.slot() as int].row == row);
                        assert(!out@.contains(e)) by {
                            if out@.contains(e) {
                                let j = choose|j: int| 0 <= j < out@.len() && out@[j] == e;
                                if j >= start.len() {
                                    let r2 = j - start.len();
                                    assert(ents@.take(row as int)[r2] == e);
                                    assert(archs[a as int].entities_view()[r2] == e);
                                    assert(locs[e.slot() as int].row == r2);
                                } else {
                                    assert(start.contains(e));
                                }
                            }
                        }
                    }
                    out.push(e);
                    row = row + 1;
                    proof {
                        assert(ents@.take(row as int) =~= ents@.take(row - 1).push(e));
                        assert(out@ =~= start + ents@.take(row as int));
                    }
                }
                proof {
                    assert(ents@.take(ents@.len() as int) =~= ents@);
                    assert forall|e: Entity| #[trigger] out@.contains(e) <==> alloc.is_live(e) && locs[e.slot() as int].archetype_id.0 < a + 1
                        && ids_match(archs[locs[e.slot() as int].archetype_id.0 as int].ids_view(), with@, without@) by {
                        if out@.contains(e) && !start.contains(e) {
                            let j = choose|j: int| 0 <= j < out@.len() && out@[j] == e;
                            let r2 = j - start.len();
                            assert(0 <= r2 < ents@.len());
                            assert(out@[j] == ents@[r2]);
                            assert(archs[a as int].entities_view()[r2] == e);
                            assert(rows_located(alloc, locs, archs));
                            assert(alloc.is_live(e));
                            assert(locs[e.slot() as int].archetype_id.0 == a);
                            assert(archs[locs[e.slot() as int].archetype_id.0 as int] == archs[a as int]);
                        }
                        if start.contains(e) {
                            assert(alloc.is_live(e) && locs[e.slot() as int].archetype_id.0 < a);
                            assert(out@.contains(e)) by {
                                let j = choose|j: int| 0 <= j < start.len() && start[j] == e;
                                assert(out@[j] == e);
                            }
                        }
                        if alloc.is_live(e) && locs[e.slot() as int].archetype_id.0 == a {
                            let l = locs[e.slot() as int];
                            assert(archs[a as int].entities_view()[l.row as int] == e);
                            assert(out@[start.len() + l.row] == e);
                        }
                    }
                }
            } else {
                proof {
                    assert(!ids_match(archs[a as int].ids_view(), with@, without@));
                    assert forall|e: Entity| #[trigger] out@.contains(e) <==> alloc.is_live(e) && locs[e.slot() as int].archetype_id.0 < a + 1
                        && ids_match(archs[locs[e.slot() as int].archetype_id.0 as int].ids_view(), with@, without@) by {
                        if out@.contains(e) {
                            assert(alloc.is_live(e) && locs[e.slot() as int].archetype_id.0 < a);
                        }
                        if alloc.is_live(e) && locs[e.slot() as int].archetype_id.0 == a {
                            assert(archs[locs[e.slot() as int].archetype_id.0 as int] == archs[a as int]);
                        }
                    }
                }
            }
            a = a + 1;
        }
        proof {
            assert forall|e: Entity| #[trigger] out@.contains(e) <==> self.live(e) && ids_match(self.components_of(e), with@, without@) by {
                if alloc.is_live(e) {
                    assert(locs[e.slot() as int].archetype_id.0 < archs.len());
                }
            }
        }
        out
    }

    /// The live entities whose components include each of `with`, each once.
    pub fn query(&self, with: &[ComponentId]) -> (r: Vec<Entity>)
        requires
            self.wf(),
        ensures
            r@.no_duplicates(),
            forall|e: Entity|
                #[trigger] r@.contains(e) <==> self.live(e) && ids_match(self.components_of(e), with@, Seq::empty()),
    {
        let none: Vec<ComponentId> = Vec::new();
        self.query_filtered(with, none.as_slice())
    }
}


impl World {
    /// The world's current tick, stamped on components as they are written.
    pub fn tick(&self) -> (r: u32)
        ensures
            r == self.tick_view(),
    {
        self.tick
    }

    /// Set the world's current tick.
    pub fn set_tick(&mut self, tick: u32)
        requires
            old(self).wf(),
        ensures
            final(self).wf(),
            final(self).tick_view() == tick,
            final(self).alloc_view() == old(self).alloc_view(),
            final(self).locations_view() == old(self).locations_view(),
            final(self).archetypes_view() == old(self).archetypes_view(),
            final(self).registry_view() == old(self).registry_view(),
            final(self).resources_view() == old(self).resources_view(),
            final(self).events_view() == old(self).events_view(),
    {
        self.tick = tick;
    }

    /// The live entities whose components include each of `with` and whose
    /// row passes `filter` at the current tick, each once.
    pub fn query_ticked(&self, with: &[ComponentId], filter: &TickFilter) -> (r: Vec<Entity>)
        requires
            self.wf(),
        ensures
            r@.no_duplicates(),
            forall|e: Entity|
                #[trigger] r@.contains(e) <==> self.live(e) && ids_match(self.components_of(e), with@, Seq::empty())
                    && filter_holds(*filter, self.arch(self.loc(e).archetype_id.0 as int), self.loc(e).row as int, self.tick_view()),
    {
        let ghost archs = self.archetypes@;
        let ghost alloc = self.allocator;
        let ghost locs = self.locations@;
        let now = self.tick;
        let none: Vec<ComponentId> = Vec::new();
        let mut out: Vec<Entity> = Vec::new();
        let mut a: usize = 0;
        while a < self.archetypes.len()
            invariant
                self.wf(),
                archs == self.archetypes@,
                alloc == self.allocator,
                locs == self.locations@,
                now == self.tick,
                none@ == Seq::<ComponentId>::empty(),
                a <= archs.len(),
                out@.no_duplicates(),
                forall|e: Entity|
                    #[trigger] out@.contains(e) <==> alloc.is_live(e) && locs[e.slot() as int].archetype_id.0 < a
                        && ids_match(archs[locs[e.slot() as int].archetype_id.0 as int].ids_view(), with@, Seq::empty())
                        && filter_holds(*filter, archs[locs[e.slot() as int].archetype_id.0 as int], locs[e.slot() as int].row as int, now),
            decreases archs.len() - a,
        {
            let arch = &self.archetypes[a];
            proof {
                assert(archs[a as int].wf());
            }
            let ok = archetype_matches(arch, with, none.as_slice());
            let ents = arch.entities();
            let ghost start = out@;
            let mut row: usize = 0;
            while row < ents.len()
                invariant
                    self.wf(),
                    archs == self.archetypes@,
                    alloc == self.allocator,
                    locs == self.locations@,
                    now == self.tick,
                    a < archs.len(),
                    *arch == archs[a as int],
                    ents@ == archs[a as int].entities_view(),
                    ok == ids_match(archs[a as int].ids_view(), with@, Seq::empty()),
                    row <= ents@.len(),
                    out@.no_duplicates(),
                    forall|e: Entity|
                        #[trigger] start.contains(e) <==> alloc.is_live(e) && locs[e.slot() as int].archetype_id.0 < a
                            && ids_match(archs[locs[e.slot() as int].archetype_id.0 as int].ids_view(), with@, Seq::empty())
                            && filter_holds(*filter, archs[locs[e.slot() as int].archetype_id.0 as int], locs[e.slot() as int].row as int, now),
                    forall|e: Entity|
                        #[trigger] out@.contains(e) <==> start.contains(e) || (alloc.is_live(e) && locs[e.slot() as int].archetype_id.0 == a
                            && locs[e.slot() as int].row < row && ok
                            && filter_holds(*filter, archs[a as int], locs[e.slot() as int].row as int, now)),
                decreases ents@.len() - row,
            {
                let e = ents[row];
                proof {
                    assert(archs[a as int].entities_view()[row as int] == e);
                    assert(locs[e.slot() as int].archetype_id.0 == a);
                    assert(locs[e.slot() as int].row == row);
                }
                if ok && filter.holds(arch, row, now) {
                    proof {
                        assert(!out@.contains(e));
                    }
                    let ghost before = out@;
                    out.push(e);
                    proof {
                        assert forall|x: Entity| #[trigger] out@.contains(x) <==> before.contains(x) || x == e by {
                            if out@.contains(x) && x != e {
                                let j = choose|j: int| 0 <= j < out@.len() && out@[j] == x;
                                assert(before[j] == x);
                            }
                            if before.contains(x) {
                                let j = choose|j: int| 0 <= j < before.len() && before[j] == x;
                                assert(out@[j] == x);
                            }
                            assert(out@[before.len() as int] == e);
                        }
                    }
                }
                row = row + 1;
            }
            proof {
                assert forall|e: Entity| #[trigger] out@.contains(e) <==> alloc.is_live(e) && locs[e.slot() as int].archetype_id.0 < a + 1
                    && ids_match(archs[locs[e.slot() as int].archetype_id.0 as int].ids_view(), with@, Seq::empty())
                    && filter_holds(*filter, archs[locs[e.slot() as int].archetype_id.0 as int], locs[e.slot() as int].row as int, now) by {
                    if alloc.is_live(e) && locs[e.slot() as int].archetype_id.0 == a {
                        assert(archs[locs[e.slot() as int].archetype_id.0 as int] == archs[a as int]);
                        assert(locs[e.slot() as int].row < archs[a as int].entities_view().len());
                    }
                }
            }
            a = a + 1;
        }
        proof {
            assert forall|e: Entity| #[trigger] out@.contains(e) <==> self.live(e) && ids_match(self.components_of(e), with@, Seq::empty())
                && filter_holds(*filter, self.arch(self.loc(e).archetype_id.0 as int), self.loc(e).row as int, self.tick_view()) by {
                if alloc.is_live(e) {
                    assert(locs[e.slot() as int].archetype_id.0 < archs.len());
                }
            }
        }
        out
    }
}

} // verus!
