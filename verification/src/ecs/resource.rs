//! Resources: one value per type, under the type's key. A value is a
//! record of bytes.

use vstd::prelude::*;
use crate::ecs::keyed::{
    find_key, keyed_map, keys_distinct, lemma_keyed_at, lemma_keyed_push, lemma_keyed_remove, lemma_keyed_update,
};

verus! {

/// The byte records of a keyed map.
pub open spec fn records(m: Map<u64, Vec<u8>>) -> Map<u64, Seq<u8>> {
    m.map_values(|v: Vec<u8>| v@)
}

proof fn lemma_records_insert(m: Map<u64, Vec<u8>>, k: u64, v: Vec<u8>)
    ensures
        records(m.insert(k, v)) == records(m).insert(k, v@),
{
    assert(records(m.insert(k, v)) =~= records(m).insert(k, v@));
}

/// Global values, at most one per type key.
pub struct ResourceMap {
    entries: Vec<(u64, Vec<u8>)>,
}

impl View for ResourceMap {
    type V = Map<u64, Seq<u8>>;

    closed spec fn view(&self) -> Map<u64, Seq<u8>> {
        records(keyed_map(self.entries@))
    }
}

impl ResourceMap {
    /// The entries hold distinct keys.
    pub closed spec fn wf(&self) -> bool {
        keys_distinct(self.entries@)
    }

    /// An empty map.
    pub fn new() -> (r: Self)
        ensures
            r.wf(),
            r@ == Map::<u64, Seq<u8>>::empty(),
    {
        let r = ResourceMap { entries: Vec::new() };
        proof {
            assert(r@ =~= Map::<u64, Seq<u8>>::empty());
        }
        r
    }

    /// Store `value` under `key`, replacing what was there.
    pub fn insert(&mut self, key: u64, value: Vec<u8>)
        requires
            old(self).wf(),
        ensures
            final(self).wf(),
            final(self)@ == old(self)@.insert(key, value@),
    {
        let ghost e = self.entries@;
        match find_key(&self.entries, key) {
            Some(i) => {
                proof {
                    lemma_keyed_update(e, i as int);
                    lemma_records_insert(keyed_map(e), key, value);
                }
                self.entries.set(i, (key, value));
            },
            None => {
                proof {
                    lemma_keyed_push(e, key, value);
                    lemma_records_insert(keyed_map(e), key, value);
                }
                self.entries.push((key, value));
            },
        }
    }

    /// The value under `key`, which must be present.
    pub fn get(&self, key: u64) -> (r: &Vec<u8>)
        requires
            self.wf(),
            self@.contains_key(key),
        ensures
            r@ == self@[key],
    {
        let i = match find_key(&self.entries, key) {
            Some(i) => i,
            None => {
                proof {
                    let j = choose|j: int| 0 <= j < self.entries@.len() && #[trigger] self.entries@[j].0 == key;
                    assert(self.entries@[j].0 != key);
                }
                0
            },
        };
        proof {
            lemma_keyed_at(self.entries@, i as int);
        }
        &self.entries[i].1
    }

    /// The value under `key`, which must be present, to change in place.
    pub fn get_mut(&mut self, key: u64) -> (r: &mut Vec<u8>)
        requires
            old(self).wf(),
            old(self)@.contains_key(key),
        ensures
            r@ == old(self)@[key],
            final(self).wf(),
            final(self)@ == old(self)@.insert(key, final(r)@),
    {
        let i = match find_key(&self.entries, key) {
            Some(i) => i,
            None => {
                proof {
                    let j = choose|j: int| 0 <= j < self.entries@.len() && #[trigger] self.entries@[j].0 == key;
                    assert(self.entries@[j].0 != key);
                }
                0
            },
        };
        proof {
            let e = self.entries@;
            lemma_keyed_at(e, i as int);
            lemma_keyed_update(e, i as int);
            assert forall|x: Vec<u8>| #[trigger] records(keyed_map(e.update(i as int, (key, x)))) == records(
                keyed_map(e),
            ).insert(key, x@) by {
                lemma_records_insert(keyed_map(e), key, x);
            }
        }
        &mut self.entries[i].1
    }

    /// The value under `key`, if any.
    pub fn try_get(&self, key: u64) -> (r: Option<&Vec<u8>>)
        requires
            self.wf(),
        ensures
            match r {
                Some(v) => self@.contains_key(key) && v@ == self@[key],
                None => !self@.contains_key(key),
            },
    {
        match find_key(&self.entries, key) {
            Some(i) => {
                proof {
                    lemma_keyed_at(self.entries@, i as int);
                }
                Some(&self.entries[i].1)
            },
            None => None,
        }
    }

    /// The value under `key`, if any, to change in place.
    pub fn try_get_mut(&mut self, key: u64) -> (r: Option<&mut Vec<u8>>)
        requires
            old(self).wf(),
        ensures
            final(self).wf(),
            match r {
                Some(v) => old(self)@.contains_key(key) && v@ == old(self)@[key] && final(self)@ == old(self)@.insert(
                    key,
                    final(v)@,
                ),
                None => !old(self)@.contains_key(key) && final(self)@ == old(self)@,
            },
    {
        match find_key(&self.entries, key) {
            Some(i) => {
                proof {
                    let e = self.entries@;
                    lemma_keyed_at(e, i as int);
                    lemma_keyed_update(e, i as int);
                    assert forall|x: Vec<u8>| #[trigger] records(keyed_map(e.update(i as int, (key, x)))) == records(
                        keyed_map(e),
                    ).insert(key, x@) by {
                        lemma_records_insert(keyed_map(e), key, x);
                    }
                }
                Some(&mut self.entries[i].1)
            },
            None => None,
        }
    }

    /// Take the value under `key` out of the map.
    pub fn remove(&mut self, key: u64) -> (r: Option<Vec<u8>>)
        requires
            old(self).wf(),
        ensures
            final(self).wf(),
            final(self)@ == old(self)@.remove(key),
            match r {
                Some(v) => old(self)@.contains_key(key) && v@ == old(self)@[key],
                None => !old(self)@.contains_key(key),
            },
    {
        let ghost e = self.entries@;
        match find_key(&self.entries, key) {
            Some(i) => {
                proof {
                    lemma_keyed_at(e, i as int);
                    lemma_keyed_remove(e, i as int);
                    assert(records(keyed_map(e.remove(i as int))) =~= records(keyed_map(e)).remove(key));
                }
                let (_, v) = self.entries.remove(i);
                Some(v)
            },
            None => {
                proof {
                    assert(self@.remove(key) =~= self@);
                }
                None
            },
        }
    }

    /// Is there a value under `key`?
    pub fn contains(&self, key: u64) -> (r: bool)
        requires
            self.wf(),
        ensures
            r == self@.contains_key(key),
    {
        match find_key(&self.entries, key) {
            Some(i) => {
                proof {
                    lemma_keyed_at(self.entries@, i as int);
                }
                true
            },
            None => false,
        }
    }
}

impl Default for ResourceMap {
    fn default() -> (r: Self)
        ensures
            r.wf(),
            r@ == Map::<u64, Seq<u8>>::empty(),
    {
        ResourceMap::new()
    }
}


/// A resource reads back what the last write under its key stored; writes
/// under other keys leave it as it was; once removed, it reads as absent.
pub proof fn lemma_resource_read_after_write(m: Map<u64, Seq<u8>>, k: u64, v: Seq<u8>, other: u64)
    requires
        other != k,
    ensures
        m.insert(k, v).contains_key(k),
        m.insert(k, v)[k] == v,
        m.insert(k, v).contains_key(other) == m.contains_key(other),
        m.contains_key(other) ==> m.insert(k, v)[other] == m[other],
        !m.insert(k, v).remove(k).contains_key(k),
{
}

} // verus!
