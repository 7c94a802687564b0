//! Bookkeeping of an asset server: the state of every asset it was asked
//! for, the shared counts behind strong handles, loaded sizes, and the
//! cache that decides what is unloaded. Reading files and decoding them
//! happen elsewhere; this records their outcomes.

use std::collections::HashMap;
use vstd::prelude::*;
use vstd::string::*;
use crate::asset::cache::{eviction, ids, retain_not_in, touched, LruCache};
use crate::asset::handle::{new_ref_count, Handle, HandleId, RefCount};

verus! {

/// Where an asset stands.
#[derive(Clone, Debug, PartialEq)]
pub enum AssetState {
    Loading,
    Loaded,
    Failed(String),
    Unloaded,
}

/// `s` after its last `.`, or all of `s` when it has none.
pub open spec fn after_last_dot(s: Seq<char>) -> Seq<char>
    decreases s.len(),
{
    if s.len() == 0 {
        s
    } else if s.last() == '.' {
        Seq::empty()
    } else {
        after_last_dot(s.drop_last()).push(s.last())
    }
}

proof fn lemma_after_last_dot(s: Seq<char>, i: int)
    requires
        0 <= i <= s.len(),
        forall|j: int| i <= j < s.len() ==> s[j] != '.',
        i == 0 || s[i - 1] == '.',
    ensures
        after_last_dot(s) == s.subrange(i, s.len() as int),
    decreases s.len(),
{
    if s.len() == 0 {
    } else if i == s.len() {
        assert(s.subrange(i, s.len() as int) =~= Seq::<char>::empty());
    } else {
        let d = s.drop_last();
        assert forall|j: int| i <= j < d.len() implies d[j] != '.' by {
            assert(d[j] == s[j]);
        }
        if i > 0 {
            assert(d[i - 1] == s[i - 1]);
        }
        assert(s[s.len() - 1] != '.');
        lemma_after_last_dot(d, i);
        assert(d.subrange(i, d.len() as int).push(s.last()) =~= s.subrange(i, s.len() as int));
    }
}

/// The file extension of `path`: what follows its last `.`.
pub fn extension(path: &str) -> (r: &str)
    ensures
        r@ == after_last_dot(path@),
{
    let n = path.unicode_len();
    let mut i = n;
    while i > 0 && path.get_char(i - 1) != '.'
        invariant
            i <= n,
            n == path@.len(),
            forall|j: int| i <= j < n ==> path@[j] != '.',
        decreases i,
    {
        i = i - 1;
    }
    proof {
        lemma_after_last_dot(path@, i as int);
    }
    path.substring_char(i, n)
}

/// The failure recorded for a file whose extension no loader handles.
pub open spec fn no_loader_message(ext: Seq<char>) -> Seq<char> {
    "no loader for extension: "@ + ext
}

pub fn no_loader_error(ext: &str) -> (r: String)
    ensures
        r@ == no_loader_message(ext@),
{
    String::from_str("no loader for extension: ").concat(ext)
}

/// What a server does with a finished read of an asset.
pub enum ReadOutcome {
    /// Decode the bytes with the loader of the file's extension.
    Decode,
    /// Record the asset as failed, with this message.
    Fail(String),
}

/// The step after a read of a file with extension `ext`: a read error is
/// the asset's failure; bytes read go to the extension's loader when there
/// is one, and otherwise the asset fails for want of a loader.
pub fn after_read(read_error: Option<String>, has_loader: bool, ext: &str) -> (r: ReadOutcome)
    ensures
        match read_error {
            Some(m) => r matches ReadOutcome::Fail(x) && x@ == m@,
            None => if has_loader {
                r is Decode
            } else {
                r matches ReadOutcome::Fail(x) && x@ == no_loader_message(ext@)
            },
        },
{
    match read_error {
        Some(m) => ReadOutcome::Fail(m),
        None => if has_loader {
            ReadOutcome::Decode
        } else {
            ReadOutcome::Fail(no_loader_error(ext))
        },
    }
}

/// The cache's access order once `loaded` has entered `id`: unchanged when
/// `id` has no strong-handle count, touched when it is cached already,
/// appended otherwise.
pub open spec fn order_after_load(c: LruCache, counted: bool, id: u64) -> Seq<u64> {
    if !counted {
        c.order()
    } else if c.sizes().contains_key(id) {
        touched(c.order(), id)
    } else {
        c.order().push(id)
    }
}

/// The cached sizes once `loaded` has entered `id` with `size` bytes.
pub open spec fn sizes_after_load(c: LruCache, counted: bool, id: u64, size: usize) -> Map<u64, nat> {
    if counted && !c.sizes().contains_key(id) {
        c.sizes().insert(id, size as nat)
    } else {
        c.sizes()
    }
}

/// The cache's usage once `loaded` has entered `id` with `size` bytes.
pub open spec fn usage_after_load(c: LruCache, counted: bool, id: u64, size: usize) -> int {
    if counted && !c.sizes().contains_key(id) {
        c.usage_view() + size
    } else {
        c.usage_view() as int
    }
}

/// What an asset server knows of its assets, apart from their data.
pub struct AssetTracker {
    states: HashMap<u64, AssetState>,
    ref_counts: HashMap<u64, RefCount>,
    sizes: HashMap<u64, usize>,
    paths: HashMap<u64, String>,
    cache: LruCache,
}

impl AssetTracker {
    pub closed spec fn states(&self) -> Map<u64, AssetState> {
        self.states@
    }

    /// Loaded sizes, by id.
    pub closed spec fn sizes(&self) -> Map<u64, usize> {
        self.sizes@
    }

    /// Ids that have a shared strong-handle count.
    pub closed spec fn counted(&self) -> Set<u64> {
        self.ref_counts@.dom()
    }

    /// Requested paths, by id.
    pub closed spec fn paths(&self) -> Map<u64, Seq<char>> {
        self.paths@.map_values(|p: String| p@)
    }

    pub closed spec fn cache_view(&self) -> LruCache {
        self.cache
    }

    /// The cache is consistent, and whatever it holds is loaded.
    pub open spec fn wf(&self) -> bool {
        &&& self.cache_view().valid()
        &&& forall|k: u64| #[trigger] self.cache_view().order().contains(k) ==> self.states().contains_key(k)
            && self.states()[k] == AssetState::Loaded
    }

    pub fn new(cache_budget: usize) -> (t: Self)
        ensures
            t.wf(),
            t.states() == Map::<u64, AssetState>::empty(),
            t.sizes() == Map::<u64, usize>::empty(),
            t.counted() == Set::<u64>::empty(),
            t.cache_view().budget_view() == cache_budget,
            t.cache_view().order() == Seq::<u64>::empty(),
    {
        let t = AssetTracker {
            states: HashMap::new(),
            ref_counts: HashMap::new(),
            sizes: HashMap::new(),
            paths: HashMap::new(),
            cache: LruCache::new(cache_budget),
        };
        proof {
            assert(t.counted() =~= Set::<u64>::empty());
        }
        t
    }

    /// Record a request for the asset at `path`. Returns whether it must
    /// be read: not when it is already loading or loaded. Otherwise it is
    /// now loading.
    pub fn begin_load(&mut self, id: HandleId, path: &str) -> (start: bool)
        requires
            old(self).wf(),
        ensures
            final(self).wf(),
            start == !(old(self).states().contains_key(id.0) && (old(self).states()[id.0] == AssetState::Loading
                || old(self).states()[id.0] == AssetState::Loaded)),
            start ==> final(self).states() == old(self).states().insert(id.0, AssetState::Loading)
                && final(self).paths() == old(self).paths().insert(id.0, path@),
            !start ==> final(self).states() == old(self).states() && final(self).paths() == old(self).paths(),
            final(self).sizes() == old(self).sizes(),
            final(self).counted() == old(self).counted(),
            final(self).cache_view() == old(self).cache_view(),
    {
        broadcast use vstd::std_specs::hash::group_hash_axioms;
        let busy = match self.states.get(&id.0) {
            Some(AssetState::Loading) => true,
            Some(AssetState::Loaded) => true,
            _ => false,
        };
        if busy {
            return false;
        }
        self.states.insert(id.0, AssetState::Loading);
        self.paths.insert(id.0, path.to_owned());
        proof {
            assert(self.paths() =~= old(self).paths().insert(id.0, path@));
            assert forall|k: u64| #[trigger] self.cache_view().order().contains(k) implies self.states().contains_key(k)
                && self.states()[k] == AssetState::Loaded by {
                assert(old(self).states()[k] == AssetState::Loaded);
            }
        }
        true
    }

    /// A strong handle to `id`, sharing its count (made on first use).
    pub fn strong_handle<T>(&mut self, id: HandleId) -> (h: Handle<T>)
        requires
            old(self).wf(),
        ensures
            final(self).wf(),
            h.id_view() == id,
            h.strong_view(),
            final(self).counted() == old(self).counted().insert(id.0),
            final(self).states() == old(self).states(),
            final(self).sizes() == old(self).sizes(),
            final(self).paths() == old(self).paths(),
            final(self).cache_view() == old(self).cache_view(),
    {
        broadcast use vstd::std_specs::hash::group_hash_axioms;
        let rc = match self.ref_counts.get(&id.0) {
            Some(rc) => rc.clone(),
            None => {
                let rc = new_ref_count();
                self.ref_counts.insert(id.0, rc.clone());
                rc
            },
        };
        proof {
            assert(self.counted() =~= old(self).counted().insert(id.0));
        }
        Handle::strong(id, rc)
    }

    /// Record that `id` loaded with `size` bytes: it is loaded and, when it
    /// has a strong-handle count, cached; then the cache evicts what it
    /// must, and the evicted ids become unloaded. Returns the evicted ids,
    /// whose data the caller drops.
    pub fn loaded(&mut self, id: HandleId, size: usize) -> (evicted: Vec<HandleId>)
        requires
            old(self).wf(),
            old(self).cache_view().sizes().contains_key(id.0) || old(self).cache_view().usage_view() + size
                <= usize::MAX,
        ensures
            final(self).wf(),
            forall|k: u64| #[trigger] ids(evicted@).contains(k) ==> final(self).states()[k] == AssetState::Unloaded
                && !final(self).sizes().contains_key(k) && !final(self).cache_view().order().contains(k),
            !ids(evicted@).contains(id.0) ==> final(self).states()[id.0] == AssetState::Loaded
                && final(self).sizes()[id.0] == size,
            forall|k: u64|
                k != id.0 && !ids(evicted@).contains(k) ==> final(self).states().contains_key(k) == old(self).states().contains_key(k)
                    && final(self).states()[k] == old(self).states()[k] && final(self).sizes().contains_key(k)
                    == old(self).sizes().contains_key(k) && final(self).sizes()[k] == old(self).sizes()[k],
            final(self).counted() == old(self).counted(),
            final(self).paths() == old(self).paths(),
            ({
                let c = old(self).cache_view();
                let counted = old(self).counted().contains(id.0);
                let order1 = order_after_load(c, counted, id.0);
                &&& exists|free: Seq<bool>|
                    free.len() == order1.len() && ids(evicted@) == eviction(
                        order1,
                        free,
                        sizes_after_load(c, counted, id.0, size),
                        usage_after_load(c, counted, id.0, size),
                        c.budget_view() as int,
                    )
                &&& final(self).cache_view().order() == retain_not_in(order1, ids(evicted@))
            }),
    {
        broadcast use vstd::std_specs::hash::group_hash_axioms;
        self.sizes.insert(id.0, size);
        self.states.insert(id.0, AssetState::Loaded);
        let ghost states1 = self.states@;
        let ghost sizes1 = self.sizes@;
        proof {
            assert forall|k: u64| #[trigger] self.cache.order().contains(k) implies self.states@.contains_key(k)
                && self.states@[k] == AssetState::Loaded by {
                if k != id.0 {
                    assert(old(self).states()[k] == AssetState::Loaded);
                }
            }
        }
        match self.ref_counts.get(&id.0) {
            Some(rc) => {
                let rc = rc.clone();
                self.cache.insert(id, size, rc);
            },
            None => {},
        }
        proof {
            assert forall|k: u64| #[trigger] self.cache.order().contains(k) implies self.states@.contains_key(k)
                && self.states@[k] == AssetState::Loaded by {
                if k != id.0 {
                    assert(old(self).cache.order().contains(k));
                }
            }
        }
        let ghost cache1 = self.cache;
        proof {
            let c = old(self).cache_view();
            let counted = old(self).counted().contains(id.0);
            assert(cache1.order() == order_after_load(c, counted, id.0));
            assert(cache1.sizes() == sizes_after_load(c, counted, id.0, size));
            assert(cache1.usage_view() == usage_after_load(c, counted, id.0, size));
            assert(cache1.budget_view() == c.budget_view());
        }
        let evicted = self.cache.evict_if_needed();
        let ghost ev = ids(evicted@);
        let ghost cache2 = self.cache;
        let mut i: usize = 0;
        while i < evicted.len()
            invariant
                i <= evicted@.len(),
                ev == ids(evicted@),
                self.cache == cache2,
                self.cache.valid(),
                forall|k: u64| #[trigger] self.cache.order().contains(k) <==> (cache1.order().contains(k) && !ev.contains(k)),
                forall|k: u64| #[trigger] cache1.order().contains(k) ==> states1.contains_key(k) && states1[k] == AssetState::Loaded,
                forall|j: int| 0 <= j < i ==> self.states@[#[trigger] ev[j]] == AssetState::Unloaded && !self.sizes@.contains_key(ev[j]),
                forall|k: u64| !ev.subrange(0, i as int).contains(k) ==> #[trigger] self.states@.contains_key(k) == states1.contains_key(k)
                    && self.states@[k] == states1[k] && self.sizes@.contains_key(k) == sizes1.contains_key(k)
                    && self.sizes@[k] == sizes1[k],
                states1 == old(self).states().insert(id.0, AssetState::Loaded),
                sizes1 == old(self).sizes().insert(id.0, size),
                self.ref_counts@ == old(self).ref_counts@,
                self.paths@ == old(self).paths@,
            decreases evicted@.len() - i,
        {
            let e = evicted[i].0;
            self.sizes.remove(&e);
            self.states.insert(e, AssetState::Unloaded);
            proof {
                assert(ev[i as int] == e);
                assert forall|j: int| 0 <= j < i + 1 implies self.states@[#[trigger] ev[j]] == AssetState::Unloaded
                    && !self.sizes@.contains_key(ev[j]) by {}
                assert forall|k: u64| !ev.subrange(0, i + 1).contains(k) implies #[trigger] self.states@.contains_key(k)
                    == states1.contains_key(k) && self.states@[k] == states1[k] && self.sizes@.contains_key(k)
                    == sizes1.contains_key(k) && self.sizes@[k] == sizes1[k] by {
                    assert(ev.subrange(0, i + 1)[i as int] == e);
                    if ev.subrange(0, i as int).contains(k) {
                        let j = choose|j: int| 0 <= j < i && ev.subrange(0, i as int)[j] == k;
                        assert(ev.subrange(0, i + 1)[j] == k);
                    }
                }
            }
            i = i + 1;
        }
        proof {
            assert(ev.subrange(0, evicted@.len() as int) =~= ev);
            assert forall|k: u64| #[trigger] ev.contains(k) implies self.states@[k] == AssetState::Unloaded
                && !self.sizes@.contains_key(k) && !self.cache.order().contains(k) by {
                let j = choose|j: int| 0 <= j < ev.len() && ev[j] == k;
            }
            assert forall|k: u64| #[trigger] self.cache.order().contains(k) implies self.states@.contains_key(k)
                && self.states@[k] == AssetState::Loaded by {
                assert(!ev.subrange(0, evicted@.len() as int).contains(k));
                assert(self.states@.contains_key(k) == states1.contains_key(k));
            }
            if !ev.contains(id.0) {
                assert(!ev.subrange(0, evicted@.len() as int).contains(id.0));
                assert(self.states@.contains_key(id.0) == states1.contains_key(id.0));
            }
            assert forall|k: u64|
                k != id.0 && !ev.contains(k) implies #[trigger] self.states@.contains_key(k) == old(self).states().contains_key(k)
                    && self.states@[k] == old(self).states()[k] && self.sizes@.contains_key(k)
                    == old(self).sizes().contains_key(k) && self.sizes@[k] == old(self).sizes()[k] by {
                assert(!ev.subrange(0, evicted@.len() as int).contains(k));
                assert(self.states@.contains_key(k) == states1.contains_key(k));
            }
            assert(self.paths() =~= old(self).paths());
        }
        evicted
    }

    /// Record that reading or decoding `id` failed with `message`.
    pub fn failed(&mut self, id: HandleId, message: String)
        requires
            old(self).wf(),
            !old(self).cache_view().order().contains(id.0),
        ensures
            final(self).wf(),
            final(self).states() == old(self).states().insert(id.0, AssetState::Failed(message)),
            final(self).sizes() == old(self).sizes(),
            final(self).counted() == old(self).counted(),
            final(self).paths() == old(self).paths(),
            final(self).cache_view() == old(self).cache_view(),
    {
        broadcast use vstd::std_specs::hash::group_hash_axioms;
        let ghost m = message;
        self.states.insert(id.0, AssetState::Failed(message));
        proof {
            assert forall|k: u64| #[trigger] self.cache_view().order().contains(k) implies self.states().contains_key(k)
                && self.states()[k] == AssetState::Loaded by {
                assert(old(self).states()[k] == AssetState::Loaded);
            }
        }
    }

    /// The state of `id`, if it was ever requested.
    pub fn state(&self, id: HandleId) -> (r: Option<&AssetState>)
        ensures
            match r {
                Some(s) => self.states().contains_key(id.0) && *s == self.states()[id.0],
                None => !self.states().contains_key(id.0),
            },
    {
        broadcast use vstd::std_specs::hash::group_hash_axioms;
        self.states.get(&id.0)
    }

    /// Whether `id` is cached.
    pub fn is_cached(&self, id: HandleId) -> (r: bool)
        ensures
            r == self.cache_view().sizes().contains_key(id.0),
    {
        self.cache.contains(id)
    }

    /// Bytes held by the cache.
    pub fn cache_usage(&self) -> (r: usize)
        ensures
            r == self.cache_view().usage_view(),
    {
        self.cache.usage()
    }
}

} // verus!
