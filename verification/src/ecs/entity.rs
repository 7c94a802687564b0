//! Generational entity handles and the allocator that hands them out.

use vstd::prelude::*;

verus! {

/// Lightweight entity handle: a slot index plus the generation of that slot
/// at the time the handle was handed out.
#[derive(Clone, Copy, Debug, PartialEq, Eq, Hash, Structural)]
pub struct Entity {
    pub(crate) index: u32,
    pub(crate) generation: u32,
}

impl Entity {
    /// Slot index named by this handle.
    pub closed spec fn slot(self) -> u32 {
        self.index
    }

    /// Generation named by this handle.
    pub closed spec fn gen(self) -> u32 {
        self.generation
    }

    /// Build a handle from its raw parts.
    pub fn from_raw(index: u32, generation: u32) -> (e: Self)
        ensures
            e.slot() == index,
            e.gen() == generation,
    {
        Self { index, generation }
    }

    pub fn index(self) -> (r: u32)
        ensures
            r == self.slot(),
    {
        self.index
    }

    pub fn generation(self) -> (r: u32)
        ensures
            r == self.gen(),
    {
        self.generation
    }
}

/// Hands out entity handles with generational indices and a free list of
/// recycled slots.
pub struct EntityAllocator {
    /// One generation counter per slot ever created.
    generations: Vec<u32>,
    /// Recycled slots, reused last-in first-out.
    free_list: Vec<u32>,
    /// By slot: is the slot on the free list?
    free_slots: Vec<bool>,
    /// Number of handed-out, not yet released entities.
    alive_count: u32,
}

/// True when `e` names the current generation of an existing slot.
pub open spec fn slot_matches(generations: Seq<u32>, e: Entity) -> bool {
    e.slot() < generations.len() && generations[e.slot() as int] == e.gen()
}

/// What `allocate` does to the allocator state and what it returns.
pub open spec fn allocate_post(
    old_gens: Seq<u32>,
    old_free: Seq<u32>,
    new_gens: Seq<u32>,
    new_free: Seq<u32>,
    e: Entity,
) -> bool {
    if old_free.len() > 0 {
        let idx = old_free.last();
        &&& new_free == old_free.drop_last()
        &&& new_gens == old_gens
        &&& e.slot() == idx
        &&& e.gen() == old_gens[idx as int]
    } else {
        &&& new_free == old_free
        &&& new_gens == old_gens.push(0u32)
        &&& e.slot() == old_gens.len()
        &&& e.gen() == 0
    }
}

/// The generation after `g` on a counter that wraps at 2^32.
pub open spec fn next_generation(g: u32) -> u32 {
    if g == u32::MAX {
        0
    } else {
        (g + 1) as u32
    }
}

/// What a successful `deallocate` of `e` does to the allocator state.
pub open spec fn deallocate_post(
    old_gens: Seq<u32>,
    old_free: Seq<u32>,
    new_gens: Seq<u32>,
    new_free: Seq<u32>,
    e: Entity,
) -> bool {
    &&& new_gens == old_gens.update(e.slot() as int, next_generation(old_gens[e.slot() as int]))
    &&& new_free == old_free.push(e.slot())
}

impl EntityAllocator {
    /// Generation counter of every slot, by index.
    pub closed spec fn generations_view(&self) -> Seq<u32> {
        self.generations@
    }

    /// Recycled slots, in the order they were released.
    pub closed spec fn free_view(&self) -> Seq<u32> {
        self.free_list@
    }

    pub closed spec fn alive_view(&self) -> nat {
        self.alive_count as nat
    }

    /// Internal consistency: every slot is either handed out or on the free
    /// list exactly once, and slot indices fit in `u32`.
    pub closed spec fn wf(&self) -> bool {
        &&& self.generations@.len() <= u32::MAX
        &&& self.free_list@.no_duplicates()
        &&& forall|k: int|
            0 <= k < self.free_list@.len() ==> #[trigger] self.free_list@[k]
                < self.generations@.len()
        &&& self.alive_count + self.free_list@.len() == self.generations@.len()
        &&& self.free_slots@.len() == self.generations@.len()
        &&& forall|i: int| 0 <= i < self.free_slots@.len() ==> #[trigger] self.free_slots@[i] == self.free_list@.contains(i as u32)
    }

    /// `e` is alive in the sense of `is_alive`.
    pub open spec fn spec_is_alive(&self, e: Entity) -> bool {
        slot_matches(self.generations_view(), e)
    }

    /// `e` was handed out by `allocate` and not released since.
    pub open spec fn is_live(&self, e: Entity) -> bool {
        self.spec_is_alive(e) && !self.free_view().contains(e.slot())
    }

    pub fn new() -> (a: Self)
        ensures
            a.wf(),
            a.generations_view() == Seq::<u32>::empty(),
            a.free_view() == Seq::<u32>::empty(),
            a.alive_view() == 0,
    {
        Self { generations: Vec::new(), free_list: Vec::new(), free_slots: Vec::new(), alive_count: 0 }
    }

    /// Allocate a fresh entity, reusing the most recently released slot when
    /// there is one.
    pub fn allocate(&mut self) -> (e: Entity)
        requires
            old(self).wf(),
            old(self).alive_view() < u32::MAX,
        ensures
            final(self).wf(),
            allocate_post(
                old(self).generations_view(),
                old(self).free_view(),
                final(self).generations_view(),
                final(self).free_view(),
                e,
            ),
            final(self).alive_view() == old(self).alive_view() + 1,
            !old(self).is_live(e),
            final(self).is_live(e),
            forall|x: Entity| #[trigger] final(self).is_live(x) <==> (old(self).is_live(x) || x == e),
            forall|x: Entity|
                #[trigger] final(self).spec_is_alive(x) <==> (old(self).spec_is_alive(x) || x == e),
    {
        self.alive_count = self.alive_count + 1;
        let ghost old_free = self.free_list@;
        let ghost old_gens = self.generations@;
        match self.free_list.pop() {
            Some(index) => {
                proof {
                    assert(old_free[old_free.len() - 1] == index);
                    assert(old_free.contains(index));
                    assert forall|k: int| 0 <= k < self.free_list@.len() implies #[trigger] self.free_list@[k] != index by {
                        assert(old_free[k] == self.free_list@[k]);
                    }
                    assert(!self.free_list@.contains(index));
                    assert forall|x: Entity| #[trigger] self.free_list@.contains(x.index) implies old_free.contains(x.index) by {
                        let k = choose|k: int| 0 <= k < self.free_list@.len() && self.free_list@[k] == x.index;
                        assert(old_free[k] == x.index);
                    }
                    assert forall|x: Entity| old_free.contains(x.index) && x.index != index implies #[trigger] self.free_list@.contains(x.index) by {
                        let k = choose|k: int| 0 <= k < old_free.len() && old_free[k] == x.index;
                        assert(k != old_free.len() - 1);
                        assert(self.free_list@[k] == x.index);
                    }
                }
                self.free_slots.set(index as usize, false);
                proof {
                    assert forall|i: int| 0 <= i < self.free_slots@.len() implies #[trigger] self.free_slots@[i]
                        == self.free_list@.contains(i as u32) by {
                        let x = Entity { index: i as u32, generation: 0 };
                        if i != index {
                            assert(old_free.contains(x.index) == self.free_list@.contains(x.index));
                        }
                    }
                }
                Entity { index, generation: self.generations[index as usize] }
            },
            None => {
                let index = self.generations.len() as u32;
                self.generations.push(0);
                self.free_slots.push(false);
                proof {
                    assert forall|x: Entity| #[trigger] self.free_list@.contains(x.index) implies x.index < old_gens.len() by {
                        let k = choose|k: int| 0 <= k < self.free_list@.len() && self.free_list@[k] == x.index;
                    }
                    assert forall|i: int| 0 <= i < self.free_slots@.len() implies #[trigger] self.free_slots@[i]
                        == self.free_list@.contains(i as u32) by {
                        if i == index {
                            let x = Entity { index: i as u32, generation: 0 };
                            assert(!self.free_list@.contains(x.index));
                        }
                    }
                }
                Entity { index, generation: 0 }
            },
        }
    }

    /// Release an entity. Returns `false`, and changes nothing, when the
    /// handle does not name a live entity: a stale handle, or one that names
    /// a released slot. The slot's generation goes up by one, wrapping.
    pub fn deallocate(&mut self, entity: Entity) -> (r: bool)
        requires
            old(self).wf(),
        ensures
            final(self).wf(),
            r == old(self).is_live(entity),
            r ==> deallocate_post(
                old(self).generations_view(),
                old(self).free_view(),
                final(self).generations_view(),
                final(self).free_view(),
                entity,
            ),
            r ==> final(self).alive_view() + 1 == old(self).alive_view(),
            !r ==> *final(self) == *old(self),
            r ==> !final(self).spec_is_alive(entity),
            !final(self).is_live(entity),
            forall|x: Entity| #[trigger] final(self).is_live(x) <==> (old(self).is_live(x) && x != entity),
    {
        if !self.is_alive(entity) {
            return false;
        }
        let ghost old_free = self.free_list@;
        let ghost old_gens = self.generations@;
        let i = entity.index as usize;
        let g = self.generations[i];
        self.generations.set(i, g.wrapping_add(1));
        self.free_list.push(entity.index);
        self.free_slots.set(i, true);
        proof {
            assert(old_free.contains(entity.index) == false);
            assert forall|x: Entity| #[trigger] self.free_list@.contains(x.index) <==> (old_free.contains(x.index) || x.index == entity.index) by {
                if self.free_list@.contains(x.index) {
                    let k = choose|k: int| 0 <= k < self.free_list@.len() && self.free_list@[k] == x.index;
                    if k < old_free.len() {
                        assert(old_free[k] == x.index);
                    }
                }
                if old_free.contains(x.index) {
                    let k = choose|k: int| 0 <= k < old_free.len() && old_free[k] == x.index;
                    assert(self.free_list@[k] == x.index);
                }
                if x.index == entity.index {
                    assert(self.free_list@[old_free.len() as int] == x.index);
                }
            }
            assert forall|a: int, b: int| 0 <= a < b < self.free_list@.len() implies self.free_list@[a] != self.free_list@[b] by {
                if b == old_free.len() {
                    assert(old_free[a] == self.free_list@[a]);
                    assert(old_free.contains(self.free_list@[a]));
                }
            }
            assert forall|k: int| 0 <= k < self.free_slots@.len() implies #[trigger] self.free_slots@[k]
                == self.free_list@.contains(k as u32) by {
                let x = Entity { index: k as u32, generation: 0 };
                assert(self.free_list@.contains(x.index) <==> (old_free.contains(x.index) || x.index == entity.index));
            }
        }
        proof {
            lemma_free_list_shorter(old_free, old_gens.len(), entity.index);
        }
        self.alive_count = self.alive_count - 1;
        true
    }

    /// Does this handle name a live entity: the current generation of a
    /// slot that is not on the free list?
    pub fn is_alive(&self, entity: Entity) -> (r: bool)
        requires
            self.wf(),
        ensures
            r == self.is_live(entity),
    {
        let i = entity.index as usize;
        i < self.generations.len() && self.generations[i] == entity.generation && !self.free_slots[i]
    }

    pub fn alive_count(&self) -> (r: u32)
        ensures
            r == self.alive_view(),
    {
        self.alive_count
    }

    /// Total slots ever created, recycled ones included.
    pub fn total_slots(&self) -> (r: u32)
        requires
            self.wf(),
        ensures
            r == self.generations_view().len(),
    {
        self.generations.len() as u32
    }
}

/// A duplicate-free list of slots below `len` that misses `idx < len` is
/// shorter than `len`.
proof fn lemma_free_list_shorter(free: Seq<u32>, len: nat, idx: u32)
    requires
        free.no_duplicates(),
        forall|k: int| 0 <= k < free.len() ==> #[trigger] free[k] < len,
        idx < len,
        !free.contains(idx),
    ensures
        free.len() < len,
{
    let f = |x: u32| x as int;
    let ints = free.map_values(f);
    assert forall|a: u32, b: u32| #[trigger] f(a) == #[trigger] f(b) implies a == b by {}
    free.lemma_no_duplicates_injective(f);
    ints.unique_seq_to_set();
    let range = vstd::set_lib::set_int_range(0, len as int).remove(idx as int);
    vstd::set_lib::lemma_int_range(0, len as int);
    assert forall|v: int| #[trigger] ints.to_set().contains(v) implies range.contains(v) by {
        let k = choose|k: int| 0 <= k < ints.len() && ints[k] == v;
        assert(free[k] < len);
        assert(free[k] != idx) by {
            if free[k] == idx {
                assert(free.contains(idx));
            }
        }
    }
    vstd::set_lib::lemma_len_subset(ints.to_set(), range);
}

/// A live entity is the only live entity that uses its slot.
pub proof fn lemma_live_entities_have_distinct_slots(a: EntityAllocator, e1: Entity, e2: Entity)
    requires
        a.is_live(e1),
        a.is_live(e2),
        e1.slot() == e2.slot(),
    ensures
        e1 == e2,
{
}

/// Releasing an entity and then allocating again hands out the same slot
/// with the next generation, and the released handle stays dead.
pub proof fn lemma_release_then_allocate_bumps_generation(
    gens0: Seq<u32>,
    free0: Seq<u32>,
    gens1: Seq<u32>,
    free1: Seq<u32>,
    gens2: Seq<u32>,
    free2: Seq<u32>,
    released: Entity,
    fresh: Entity,
)
    requires
        slot_matches(gens0, released),
        released.gen() < u32::MAX,
        deallocate_post(gens0, free0, gens1, free1, released),
        allocate_post(gens1, free1, gens2, free2, fresh),
    ensures
        fresh.slot() == released.slot(),
        fresh.gen() == released.gen() + 1,
        !slot_matches(gens2, released),
        slot_matches(gens2, fresh),
{
}

/// Every recycled slot is an existing slot.
pub proof fn lemma_allocator_slots(a: EntityAllocator)
    requires
        a.wf(),
    ensures
        forall|k: int| 0 <= k < a.free_view().len() ==> #[trigger] a.free_view()[k] < a.generations_view().len(),
{
}

} // verus!
