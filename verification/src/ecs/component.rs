//! Registry of component types, keyed by a caller-chosen type key.

use std::collections::HashMap;
use vstd::prelude::*;

verus! {

/// Dense index identifying a registered component type.
#[derive(Debug, Clone, Copy, PartialEq, Eq, Structural, Hash, PartialOrd, Ord)]
pub struct ComponentId(pub u32);

/// Runtime metadata for a registered component type.
#[derive(Debug, Clone)]
pub struct ComponentInfo {
    pub id: ComponentId,
    /// Stable key of the Rust type (for instance a hash of its `TypeId`).
    pub type_key: u64,
    /// Size in bytes of one value.
    pub size: usize,
    /// Alignment in bytes of one value.
    pub align: usize,
    pub name: String,
}

/// Maps type keys to dense `ComponentId`s and keeps their metadata.
pub struct ComponentRegistry {
    infos: Vec<ComponentInfo>,
    type_map: HashMap<u64, ComponentId>,
}

impl ComponentRegistry {
    /// Type key of every registered component, by id.
    pub open spec fn keys(&self) -> Seq<u64> {
        self.infos_view().map_values(|i: ComponentInfo| i.type_key)
    }

    /// Size of every registered component, by id.
    pub open spec fn sizes(&self) -> Seq<usize> {
        self.infos_view().map_values(|i: ComponentInfo| i.size)
    }

    pub closed spec fn infos_view(&self) -> Seq<ComponentInfo> {
        self.infos@
    }

    /// Ids are dense, keys are unique, and the key map agrees with the
    /// metadata list.
    pub closed spec fn wf(&self) -> bool {
        &&& self.infos@.len() <= u32::MAX
        &&& forall|i: int| 0 <= i < self.infos@.len() ==> (#[trigger] self.infos@[i]).id.0 == i
        &&& forall|k: u64|
            #[trigger] self.type_map@.contains_key(k) <==> exists|i: int|
                0 <= i < self.infos@.len() && self.infos@[i].type_key == k
        &&& forall|i: int|
            0 <= i < self.infos@.len() ==> #[trigger] self.type_map@[self.infos@[i].type_key].0 == i
    }

    pub fn new() -> (r: Self)
        ensures
            r.wf(),
            r.keys() == Seq::<u64>::empty(),
    {
        ComponentRegistry { infos: Vec::new(), type_map: HashMap::new() }
    }

    /// Register a component type, or return its id when the key is known.
    pub fn get_or_register(&mut self, type_key: u64, size: usize, align: usize, name: String) -> (id: ComponentId)
        requires
            old(self).wf(),
            old(self).keys().contains(type_key) || old(self).keys().len() < u32::MAX,
        ensures
            final(self).wf(),
            id.0 < final(self).keys().len(),
            final(self).keys()[id.0 as int] == type_key,
            old(self).keys().contains(type_key) ==> final(self).infos_view() == old(self).infos_view(),
            !old(self).keys().contains(type_key) ==> {
                &&& id.0 == old(self).keys().len()
                &&& final(self).keys() == old(self).keys().push(type_key)
                &&& final(self).sizes() == old(self).sizes().push(size)
                &&& final(self).infos_view().subrange(0, id.0 as int) == old(self).infos_view()
            },
    {
        broadcast use vstd::std_specs::hash::group_hash_axioms;
        proof {
            assert(self.keys().contains(type_key) <==> self.type_map@.contains_key(type_key)) by {
                if self.keys().contains(type_key) {
                    let i = choose|i: int| 0 <= i < self.keys().len() && self.keys()[i] == type_key;
                    assert(self.infos@[i].type_key == type_key);
                }
                if self.type_map@.contains_key(type_key) {
                    let i = choose|i: int| 0 <= i < self.infos@.len() && self.infos@[i].type_key == type_key;
                    assert(self.keys()[i] == type_key);
                }
            }
        }
        match self.type_map.get(&type_key) {
            Some(id) => {
                let id = *id;
                proof {
                    let i = choose|i: int| 0 <= i < self.infos@.len() && self.infos@[i].type_key == type_key;
                    assert(self.type_map@[self.infos@[i].type_key].0 == i);
                }
                id
            },
            None => {
                let id = ComponentId(self.infos.len() as u32);
                let ghost old_infos = self.infos@;
                self.infos.push(ComponentInfo { id, type_key, size, align, name });
                self.type_map.insert(type_key, id);
                proof {
                    assert(self.keys() =~= old(self).keys().push(type_key));
                    assert(self.sizes() =~= old(self).sizes().push(size));
                    assert(self.infos@.subrange(0, id.0 as int) =~= old_infos);
                    assert forall|k: u64| #[trigger] self.type_map@.contains_key(k) <==> exists|i: int|
                        0 <= i < self.infos@.len() && self.infos@[i].type_key == k by {
                        if self.type_map@.contains_key(k) && k != type_key {
                            let i = choose|i: int| 0 <= i < old_infos.len() && old_infos[i].type_key == k;
                            assert(self.infos@[i].type_key == k);
                        }
                        if k == type_key {
                            assert(self.infos@[old_infos.len() as int].type_key == k);
                        }
                        if exists|i: int| 0 <= i < self.infos@.len() && self.infos@[i].type_key == k {
                            let i = choose|i: int| 0 <= i < self.infos@.len() && self.infos@[i].type_key == k;
                            if i < old_infos.len() {
                                assert(old_infos[i].type_key == k);
                            }
                        }
                    }
                    assert forall|i: int| 0 <= i < self.infos@.len() implies #[trigger] self.type_map@[self.infos@[i].type_key].0 == i by {
                        if i < old_infos.len() {
                            assert(old_infos[i] == self.infos@[i]);
                            assert(old_infos[i].type_key != type_key);
                        }
                    }
                }
                id
            },
        }
    }

    /// Look up an already-registered key.
    pub fn lookup(&self, type_key: u64) -> (r: Option<ComponentId>)
        requires
            self.wf(),
        ensures
            match r {
                Some(id) => id.0 < self.keys().len() && self.keys()[id.0 as int] == type_key,
                None => !self.keys().contains(type_key),
            },
    {
        broadcast use vstd::std_specs::hash::group_hash_axioms;
        match self.type_map.get(&type_key) {
            Some(id) => {
                proof {
                    let i = choose|i: int| 0 <= i < self.infos@.len() && self.infos@[i].type_key == type_key;
                    assert(self.type_map@[self.infos@[i].type_key].0 == i);
                }
                Some(*id)
            },
            None => {
                proof {
                    if self.keys().contains(type_key) {
                        let i = choose|i: int| 0 <= i < self.keys().len() && self.keys()[i] == type_key;
                        assert(self.infos@[i].type_key == type_key);
                    }
                }
                None
            },
        }
    }

    /// Metadata of a registered component.
    pub fn get_info(&self, id: ComponentId) -> (r: &ComponentInfo)
        requires
            id.0 < self.keys().len(),
        ensures
            *r == self.infos_view()[id.0 as int],
    {
        &self.infos[id.0 as usize]
    }

    pub fn len(&self) -> (r: usize)
        ensures
            r == self.keys().len(),
    {
        self.infos.len()
    }

    pub fn is_empty(&self) -> (r: bool)
        ensures
            r == (self.keys().len() == 0),
    {
        self.infos.len() == 0
    }
}

/// Registered keys are pairwise distinct: a key names one component only.
pub proof fn lemma_registry_keys_distinct(r: ComponentRegistry, i: int, j: int)
    requires
        r.wf(),
        0 <= i < r.keys().len(),
        0 <= j < r.keys().len(),
        r.keys()[i] == r.keys()[j],
    ensures
        i == j,
{
    reveal_keys(r, i);
    reveal_keys(r, j);
}

proof fn reveal_keys(r: ComponentRegistry, i: int)
    requires
        r.wf(),
        0 <= i < r.keys().len(),
    ensures
        r.type_map@[r.keys()[i]].0 == i,
{
    assert(r.keys()[i] == r.infos@[i].type_key);
}

} // verus!
