//! Least-recently-used cache of loaded assets with a memory budget.
//! Entries whose assets users still hold strong handles to are never
//! evicted.

use std::collections::HashMap;
use vstd::prelude::*;
use crate::asset::handle::{strong_count, HandleId, RefCount};

verus! {

struct CacheEntry {
    size: usize,
    ref_count: RefCount,
}

/// Tracks loaded assets by size and evicts the least recently used
/// unreferenced ones when the total goes over the budget.
pub struct LruCache {
    budget: usize,
    current_usage: usize,
    entries: HashMap<u64, CacheEntry>,
    /// Least recently used first.
    access_order: Vec<HandleId>,
}

/// The raw ids of a sequence of handle ids.
pub open spec fn ids(s: Seq<HandleId>) -> Seq<u64> {
    s.map_values(|h: HandleId| h.0)
}

/// Total size of the ids in `s`.
pub open spec fn total_size(s: Seq<u64>, sizes: Map<u64, nat>) -> nat
    decreases s.len(),
{
    if s.len() == 0 {
        0
    } else {
        sizes[s[0]] + total_size(s.drop_first(), sizes)
    }
}

/// `s` without any occurrence of the ids in `gone`, the rest in order.
pub open spec fn retain_not_in(s: Seq<u64>, gone: Seq<u64>) -> Seq<u64>
    decreases s.len(),
{
    if s.len() == 0 {
        s
    } else if gone.contains(s.last()) {
        retain_not_in(s.drop_last(), gone)
    } else {
        retain_not_in(s.drop_last(), gone).push(s.last())
    }
}

/// `s` with `k` moved to the back, when `s` holds it.
pub open spec fn touched(s: Seq<u64>, k: u64) -> Seq<u64> {
    if s.contains(k) {
        retain_not_in(s, seq![k]).push(k)
    } else {
        s
    }
}

/// The ids that eviction removes, in order: walking `order` from the least
/// recently used, while `usage` is over `budget`, every entry that `free`
/// marks as unreferenced goes and its size comes off `usage`.
pub open spec fn eviction(order: Seq<u64>, free: Seq<bool>, sizes: Map<u64, nat>, usage: int, budget: int) -> Seq<u64>
    decreases order.len(),
{
    if usage <= budget || order.len() == 0 {
        Seq::empty()
    } else if free[0] {
        seq![order[0]] + eviction(order.drop_first(), free.drop_first(), sizes, usage - sizes[order[0]], budget)
    } else {
        eviction(order.drop_first(), free.drop_first(), sizes, usage, budget)
    }
}

proof fn lemma_total_push(s: Seq<u64>, x: u64, sizes: Map<u64, nat>)
    ensures
        total_size(s.push(x), sizes) == total_size(s, sizes) + sizes[x],
    decreases s.len(),
{
    if s.len() == 0 {
        assert(s.push(x).drop_first() =~= Seq::<u64>::empty());
        assert(total_size(s.push(x).drop_first(), sizes) == 0);
        assert(s.push(x)[0] == x);
    } else {
        assert(s.push(x).drop_first() =~= s.drop_first().push(x));
        assert(s.push(x)[0] == s[0]);
        lemma_total_push(s.drop_first(), x, sizes);
    }
}

proof fn lemma_total_agree(s: Seq<u64>, a: Map<u64, nat>, b: Map<u64, nat>)
    requires
        forall|j: int| 0 <= j < s.len() ==> a[#[trigger] s[j]] == b[s[j]],
    ensures
        total_size(s, a) == total_size(s, b),
    decreases s.len(),
{
    if s.len() > 0 {
        assert(a[s[0]] == b[s[0]]);
        assert forall|j: int| 0 <= j < s.drop_first().len() implies a[#[trigger] s.drop_first()[j]] == b[s.drop_first()[j]] by {
            assert(s.drop_first()[j] == s[j + 1]);
        }
        lemma_total_agree(s.drop_first(), a, b);
    }
}

proof fn lemma_total_at_least(s: Seq<u64>, sizes: Map<u64, nat>, i: int)
    requires
        0 <= i < s.len(),
    ensures
        total_size(s, sizes) >= sizes[s[i]],
    decreases s.len(),
{
    if i > 0 {
        lemma_total_at_least(s.drop_first(), sizes, i - 1);
    }
}

proof fn lemma_push_contains(s: Seq<u64>, y: u64)
    ensures
        forall|x: u64| #[trigger] s.push(y).contains(x) <==> (s.contains(x) || x == y),
{
    assert forall|x: u64| #[trigger] s.push(y).contains(x) <==> (s.contains(x) || x == y) by {
        if s.contains(x) {
            let j = choose|j: int| 0 <= j < s.len() && s[j] == x;
            assert(s.push(y)[j] == x);
        }
        if x == y {
            assert(s.push(y)[s.len() as int] == x);
        }
        if s.push(y).contains(x) {
            let j = choose|j: int| 0 <= j < s.push(y).len() && s.push(y)[j] == x;
            if j < s.len() {
                assert(s[j] == x);
            }
        }
    }
}

proof fn lemma_retain_contains(s: Seq<u64>, gone: Seq<u64>)
    ensures
        forall|x: u64| #[trigger] retain_not_in(s, gone).contains(x) <==> (s.contains(x) && !gone.contains(x)),
        s.no_duplicates() ==> retain_not_in(s, gone).no_duplicates(),
    decreases s.len(),
{
    if s.len() > 0 {
        let d = s.drop_last();
        let y = s.last();
        lemma_retain_contains(d, gone);
        let r = retain_not_in(d, gone);
        assert(s =~= d.push(y));
        lemma_push_contains(d, y);
        lemma_push_contains(r, y);
        if s.no_duplicates() {
            assert(d.no_duplicates());
            assert(!d.contains(y)) by {
                if d.contains(y) {
                    let j = choose|j: int| 0 <= j < d.len() && d[j] == y;
                    assert(s[j] == s[s.len() - 1]);
                }
            }
            if !gone.contains(y) {
                assert(!r.contains(y));
                assert forall|a: int, b: int| 0 <= a < b < r.push(y).len() implies r.push(y)[a] != r.push(y)[b] by {
                    if b == r.len() {
                        assert(r.contains(r[a]));
                    }
                }
            }
        }
    }
}

proof fn lemma_retain_single_total(s: Seq<u64>, k: u64, sizes: Map<u64, nat>)
    requires
        s.no_duplicates(),
    ensures
        total_size(retain_not_in(s, seq![k]), sizes) + (if s.contains(k) { sizes[k] } else { 0 }) == total_size(s, sizes),
    decreases s.len(),
{
    if s.len() > 0 {
        let d = s.drop_last();
        assert(d.no_duplicates());
        lemma_retain_single_total(d, k, sizes);
        assert(s =~= d.push(s.last()));
        lemma_total_push(d, s.last(), sizes);
        if s.last() == k {
            assert(seq![k][0] == k);
            assert(seq![k].contains(k));
            assert(!d.contains(k));
            assert(s.contains(k)) by {
                assert(s[s.len() - 1] == k);
            }
        } else {
            assert(!seq![k].contains(s.last())) by {
                if seq![k].contains(s.last()) {
                    let j = choose|j: int| 0 <= j < 1 && seq![k][j] == s.last();
                    assert(seq![k][j] == k);
                }
            }
            lemma_total_push(retain_not_in(d, seq![k]), s.last(), sizes);
            assert(s.contains(k) <==> d.contains(k)) by {
                if s.contains(k) {
                    let j = choose|j: int| 0 <= j < s.len() && s[j] == k;
                    assert(d[j] == k);
                }
                if d.contains(k) {
                    let j = choose|j: int| 0 <= j < d.len() && d[j] == k;
                    assert(s[j] == k);
                }
            }
        }
    }
}

proof fn lemma_eviction_within(order: Seq<u64>, free: Seq<bool>, sizes: Map<u64, nat>, usage: int, budget: int)
    ensures
        forall|x: u64| #[trigger] eviction(order, free, sizes, usage, budget).contains(x) ==> order.contains(x),
        order.no_duplicates() ==> eviction(order, free, sizes, usage, budget).no_duplicates(),
    decreases order.len(),
{
    if usage <= budget || order.len() == 0 {
    } else {
        let rest = order.drop_first();
        if free[0] {
            lemma_eviction_within(rest, free.drop_first(), sizes, usage - sizes[order[0]], budget);
            let e = eviction(rest, free.drop_first(), sizes, usage - sizes[order[0]], budget);
            assert forall|x: u64| #[trigger] (seq![order[0]] + e).contains(x) implies order.contains(x) by {
                let j = choose|j: int| 0 <= j < (seq![order[0]] + e).len() && (seq![order[0]] + e)[j] == x;
                if j == 0 {
                    assert(order[0] == x);
                } else {
                    assert(e[j - 1] == x);
                    assert(e.contains(x));
                    let m = choose|m: int| 0 <= m < rest.len() && rest[m] == x;
                    assert(order[m + 1] == x);
                }
            }
            if order.no_duplicates() {
                assert(rest.no_duplicates());
                assert(!e.contains(order[0])) by {
                    if e.contains(order[0]) {
                        let m = choose|m: int| 0 <= m < rest.len() && rest[m] == order[0];
                        assert(order[m + 1] == order[0]);
                    }
                }
                assert forall|a: int, b: int|
                    0 <= a < b < (seq![order[0]] + e).len() implies (seq![order[0]] + e)[a] != (seq![order[0]] + e)[b] by {
                    if a == 0 {
                        assert((seq![order[0]] + e)[b] == e[b - 1]);
                    }
                }
            }
        } else {
            lemma_eviction_within(rest, free.drop_first(), sizes, usage, budget);
            let e = eviction(rest, free.drop_first(), sizes, usage, budget);
            assert forall|x: u64| #[trigger] e.contains(x) implies order.contains(x) by {
                let m = choose|m: int| 0 <= m < rest.len() && rest[m] == x;
                assert(order[m + 1] == x);
            }
            if order.no_duplicates() {
                assert(rest.no_duplicates());
            }
        }
    }
}

/// Eviction stops as soon as it can: afterwards the usage is within the
/// budget, or every entry marked unreferenced has been evicted. And it only
/// evicts entries marked unreferenced.
pub proof fn lemma_eviction_fits_budget_or_all_referenced(
    order: Seq<u64>,
    free: Seq<bool>,
    sizes: Map<u64, nat>,
    usage: int,
    budget: int,
)
    requires
        free.len() == order.len(),
    ensures
        ({
            let e = eviction(order, free, sizes, usage, budget);
            ||| usage - total_size(e, sizes) <= budget
            ||| forall|j: int| 0 <= j < order.len() && #[trigger] free[j] ==> e.contains(order[j])
        }),
        forall|x: u64| #[trigger] eviction(order, free, sizes, usage, budget).contains(x) ==> exists|j: int|
            0 <= j < order.len() && order[j] == x && free[j],
    decreases order.len(),
{
    let e = eviction(order, free, sizes, usage, budget);
    if usage <= budget || order.len() == 0 {
        assert(total_size(e, sizes) == 0);
    } else {
        let rest = order.drop_first();
        let fr = free.drop_first();
        let u = if free[0] { usage - sizes[order[0]] } else { usage };
        lemma_eviction_fits_budget_or_all_referenced(rest, fr, sizes, u, budget);
        let e2 = eviction(rest, fr, sizes, u, budget);
        if free[0] {
            assert(e =~= seq![order[0]] + e2);
            assert(e.drop_first() =~= e2);
            assert(e[0] == order[0]);
            if !(u - total_size(e2, sizes) <= budget) {
                assert forall|j: int| 0 <= j < order.len() && #[trigger] free[j] implies e.contains(order[j]) by {
                    if j == 0 {
                        assert(e[0] == order[0]);
                    } else {
                        assert(fr[j - 1] == free[j]);
                        assert(e2.contains(rest[j - 1]));
                        let m = choose|m: int| 0 <= m < e2.len() && e2[m] == rest[j - 1];
                        assert(e[m + 1] == order[j]);
                    }
                }
            }
            assert forall|x: u64| #[trigger] e.contains(x) implies exists|j: int| 0 <= j < order.len() && order[j] == x && free[j] by {
                let m = choose|m: int| 0 <= m < e.len() && e[m] == x;
                if m == 0 {
                    assert(order[0] == x && free[0]);
                } else {
                    assert(e2[m - 1] == x);
                    assert(e2.contains(x));
                    let j = choose|j: int| 0 <= j < rest.len() && rest[j] == x && fr[j];
                    assert(order[j + 1] == x && free[j + 1]);
                }
            }
        } else {
            if !(u - total_size(e2, sizes) <= budget) {
                assert forall|j: int| 0 <= j < order.len() && #[trigger] free[j] implies e.contains(order[j]) by {
                    if j > 0 {
                        assert(fr[j - 1] == free[j]);
                        assert(rest[j - 1] == order[j]);
                    }
                }
            }
            assert forall|x: u64| #[trigger] e.contains(x) implies exists|j: int| 0 <= j < order.len() && order[j] == x && free[j] by {
                let j = choose|j: int| 0 <= j < rest.len() && rest[j] == x && fr[j];
                assert(order[j + 1] == x && free[j + 1]);
            }
        }
    }
}

/// The usage before an eviction that brought it down by `size` to `now`.
spec fn old_usage_of(now: usize, size: nat) -> int {
    now + size
}

impl LruCache {
    /// Ids in access order, least recently used first.
    pub closed spec fn order(&self) -> Seq<u64> {
        ids(self.access_order@)
    }

    /// Size of every cached id.
    pub closed spec fn sizes(&self) -> Map<u64, nat> {
        Map::new(|k: u64| self.entries@.contains_key(k), |k: u64| self.entries@[k].size as nat)
    }

    pub closed spec fn usage_view(&self) -> nat {
        self.current_usage as nat
    }

    pub closed spec fn budget_view(&self) -> nat {
        self.budget as nat
    }

    /// Every cached id occurs once in the access order, and the usage is the
    /// sum of the cached sizes.
    pub open spec fn valid(&self) -> bool {
        &&& self.order().no_duplicates()
        &&& forall|k: u64| #[trigger] self.sizes().contains_key(k) <==> self.order().contains(k)
        &&& self.usage_view() == total_size(self.order(), self.sizes())
    }

    pub fn new(budget: usize) -> (c: Self)
        ensures
            c.valid(),
            c.order() == Seq::<u64>::empty(),
            c.sizes() == Map::<u64, nat>::empty(),
            c.usage_view() == 0,
            c.budget_view() == budget,
    {
        let c = LruCache { budget, current_usage: 0, entries: HashMap::new(), access_order: Vec::new() };
        proof {
            assert(c.order() =~= Seq::<u64>::empty());
            assert(c.sizes() =~= Map::<u64, nat>::empty());
        }
        c
    }

    pub fn usage(&self) -> (r: usize)
        ensures
            r == self.usage_view(),
    {
        self.current_usage
    }

    pub fn budget(&self) -> (r: usize)
        ensures
            r == self.budget_view(),
    {
        self.budget
    }

    pub fn len(&self) -> (r: usize)
        requires
            self.valid(),
        ensures
            r == self.order().len(),
    {
        broadcast use vstd::std_specs::hash::group_hash_axioms;
        proof {
            assert(self.entries@.dom() =~= self.order().to_set()) by {
                assert forall|k: u64| self.entries@.dom().contains(k) <==> self.order().to_set().contains(k) by {
                    assert(self.sizes().contains_key(k) <==> self.entries@.contains_key(k));
                }
            }
            self.order().unique_seq_to_set();
        }
        self.entries.len()
    }

    pub fn is_empty(&self) -> (r: bool)
        requires
            self.valid(),
        ensures
            r == (self.order().len() == 0),
    {
        broadcast use vstd::std_specs::hash::group_hash_axioms;
        proof {
            if self.order().len() > 0 {
                let k = self.order()[0];
                assert(self.order().contains(k));
                assert(self.sizes().contains_key(k));
                assert(self.entries@.dom().contains(k));
            }
            if self.order().len() == 0 {
                assert forall|k: u64| !self.entries@.dom().contains(k) by {
                    assert(self.sizes().contains_key(k) <==> self.entries@.contains_key(k));
                }
                assert(self.entries@.dom() =~= Set::<u64>::empty());
            }
        }
        self.entries.is_empty()
    }

    /// Track an asset of `size` bytes as most recently used. An id already
    /// cached is only touched: its size and the usage stay as they were.
    pub fn insert(&mut self, id: HandleId, size: usize, ref_count: RefCount)
        requires
            old(self).valid(),
            old(self).sizes().contains_key(id.0) || old(self).usage_view() + size <= usize::MAX,
        ensures
            final(self).valid(),
            final(self).budget_view() == old(self).budget_view(),
            old(self).sizes().contains_key(id.0) ==> {
                &&& final(self).order() == touched(old(self).order(), id.0)
                &&& final(self).sizes() == old(self).sizes()
                &&& final(self).usage_view() == old(self).usage_view()
            },
            !old(self).sizes().contains_key(id.0) ==> {
                &&& final(self).order() == old(self).order().push(id.0)
                &&& final(self).sizes() == old(self).sizes().insert(id.0, size as nat)
                &&& final(self).usage_view() == old(self).usage_view() + size
            },
            forall|k: u64| #[trigger] final(self).order().contains(k) <==> (old(self).order().contains(k) || k == id.0),
    {
        broadcast use vstd::std_specs::hash::group_hash_axioms;
        if self.entries.contains_key(&id.0) {
            self.touch(id);
            proof {
                assert(old(self).sizes().contains_key(id.0));
            }
            return;
        }
        let ghost o = self.order();
        let ghost sz = self.sizes();
        self.entries.insert(id.0, CacheEntry { size, ref_count });
        self.access_order.push(id);
        self.current_usage = self.current_usage + size;
        proof {
            assert(self.order() =~= o.push(id.0));
            assert(self.sizes() =~= sz.insert(id.0, size as nat));
            assert(!o.contains(id.0));
            lemma_push_contains(o, id.0);
            assert forall|a: int, b: int| 0 <= a < b < self.order().len() implies self.order()[a] != self.order()[b] by {
                if b == o.len() {
                    assert(o.contains(o[a]));
                }
            }
            assert forall|j: int| 0 <= j < o.len() implies sz[#[trigger] o[j]] == self.sizes()[o[j]] by {
                assert(o.contains(o[j]));
            }
            lemma_total_agree(o, sz, self.sizes());
            lemma_total_push(o, id.0, self.sizes());
        }
    }

    /// Mark a cached id as most recently used; other ids keep their order.
    pub fn touch(&mut self, id: HandleId)
        requires
            old(self).valid(),
        ensures
            final(self).valid(),
            final(self).order() == touched(old(self).order(), id.0),
            final(self).sizes() == old(self).sizes(),
            final(self).usage_view() == old(self).usage_view(),
            final(self).budget_view() == old(self).budget_view(),
            forall|k: u64| #[trigger] final(self).order().contains(k) <==> old(self).order().contains(k),
    {
        let ghost o = self.order();
        if order_contains(&self.access_order, id.0) {
            let rest = without_id(&self.access_order, id.0);
            self.access_order = rest;
            self.access_order.push(id);
            proof {
                let r = retain_not_in(o, seq![id.0]);
                assert(self.order() =~= r.push(id.0));
                lemma_retain_contains(o, seq![id.0]);
                assert(seq![id.0][0] == id.0);
                assert(!r.contains(id.0));
                lemma_push_contains(r, id.0);
                assert forall|a: int, b: int| 0 <= a < b < self.order().len() implies self.order()[a] != self.order()[b] by {
                    if b == r.len() {
                        assert(r.contains(r[a]));
                    }
                }
                assert forall|k: u64| #[trigger] self.sizes().contains_key(k) <==> self.order().contains(k) by {
                    if k != id.0 {
                        assert(!seq![id.0].contains(k)) by {
                            if seq![id.0].contains(k) {
                                let j = choose|j: int| 0 <= j < 1 && seq![id.0][j] == k;
                            }
                        }
                    }
                }
                lemma_retain_single_total(o, id.0, self.sizes());
                lemma_total_push(r, id.0, self.sizes());
            }
        }
    }

    pub fn contains(&self, id: HandleId) -> (r: bool)
        ensures
            r == self.sizes().contains_key(id.0),
    {
        broadcast use vstd::std_specs::hash::group_hash_axioms;
        self.entries.contains_key(&id.0)
    }

    /// Stop tracking an id. Returns whether it was cached.
    pub fn remove(&mut self, id: HandleId) -> (r: bool)
        requires
            old(self).valid(),
        ensures
            final(self).valid(),
            r == old(self).sizes().contains_key(id.0),
            final(self).sizes() == old(self).sizes().remove(id.0),
            r ==> final(self).order() == retain_not_in(old(self).order(), seq![id.0]),
            !r ==> final(self).order() == old(self).order(),
            final(self).usage_view() == old(self).usage_view() - (if r { old(self).sizes()[id.0] } else { 0 }),
            final(self).budget_view() == old(self).budget_view(),
    {
        broadcast use vstd::std_specs::hash::group_hash_axioms;
        let ghost o = self.order();
        let ghost sz = self.sizes();
        match self.entries.remove(&id.0) {
            Some(entry) => {
                proof {
                    assert(sz.contains_key(id.0));
                    assert(o.contains(id.0));
                    let j = choose|j: int| 0 <= j < o.len() && o[j] == id.0;
                    lemma_total_at_least(o, sz, j);
                }
                self.current_usage = self.current_usage - entry.size;
                let rest = without_id(&self.access_order, id.0);
                self.access_order = rest;
                proof {
                    let r = retain_not_in(o, seq![id.0]);
                    assert(self.sizes() =~= sz.remove(id.0));
                    lemma_retain_contains(o, seq![id.0]);
                    assert(seq![id.0][0] == id.0);
                    assert forall|k: u64| #[trigger] self.sizes().contains_key(k) <==> self.order().contains(k) by {
                        if k != id.0 {
                            assert(!seq![id.0].contains(k)) by {
                                if seq![id.0].contains(k) {
                                    let j = choose|j: int| 0 <= j < 1 && seq![id.0][j] == k;
                                }
                            }
                        }
                    }
                    lemma_retain_single_total(o, id.0, sz);
                    assert forall|j: int| 0 <= j < r.len() implies sz[#[trigger] r[j]] == self.sizes()[r[j]] by {
                        assert(r.contains(r[j]));
                    }
                    lemma_total_agree(r, sz, self.sizes());
                }
                true
            },
            None => {
                proof {
                    assert(self.sizes() =~= sz.remove(id.0));
                    assert(self.sizes() =~= sz);
                }
                false
            },
        }
    }

    /// Evict, least recently used first, the entries that `unreferenced`
    /// marks (one flag per id in access order) until the usage is within
    /// the budget or no marked entry is left. Returns the evicted ids in
    /// the order they went.
    pub fn evict_unreferenced(&mut self, unreferenced: &[bool]) -> (evicted: Vec<HandleId>)
        requires
            old(self).valid(),
            unreferenced@.len() == old(self).order().len(),
        ensures
            final(self).valid(),
            ids(evicted@) == eviction(
                old(self).order(),
                unreferenced@,
                old(self).sizes(),
                old(self).usage_view() as int,
                old(self).budget_view() as int,
            ),
            final(self).order() == retain_not_in(old(self).order(), ids(evicted@)),
            final(self).sizes() == old(self).sizes().restrict(final(self).order().to_set()),
            final(self).usage_view() + total_size(ids(evicted@), old(self).sizes()) == old(self).usage_view(),
            final(self).budget_view() == old(self).budget_view(),
            forall|k: u64| #[trigger] final(self).order().contains(k) <==> (old(self).order().contains(k) && !ids(evicted@).contains(k)),
    {
        broadcast use vstd::std_specs::hash::group_hash_axioms;
        let ghost o = self.order();
        let ghost sz = self.sizes();
        let ghost e0 = self.entries@;
        let ghost plan = eviction(o, unreferenced@, sz, self.current_usage as int, self.budget as int);
        proof {
            lemma_eviction_within(o, unreferenced@, sz, self.current_usage as int, self.budget as int);
            assert(o.skip(0) =~= o);
            assert(unreferenced@.skip(0) =~= unreferenced@);
            assert(o.subrange(0, 0) =~= Seq::<u64>::empty());
        }
        let n = self.access_order.len();
        let mut evicted: Vec<HandleId> = Vec::new();
        let mut kept: Vec<HandleId> = Vec::new();
        let mut i: usize = 0;
        proof {
            assert(ids(evicted@) =~= Seq::<u64>::empty());
            assert(ids(kept@) =~= Seq::<u64>::empty());
            assert(total_size(Seq::<u64>::empty(), sz) == 0);
            assert forall|k: u64| #[trigger] e0.contains_key(k) <==> o.contains(k) by {
                assert(sz.contains_key(k) <==> e0.contains_key(k));
            }
        }
        while i < n
            invariant
                n == o.len(),
                i <= n,
                unreferenced@.len() == n,
                o == ids(self.access_order@),
                o.no_duplicates(),
                plan == eviction(o, unreferenced@, sz, old(self).current_usage as int, self.budget as int),
                forall|x: u64| #[trigger] plan.contains(x) ==> o.contains(x),
                plan.no_duplicates(),
                ids(evicted@) + eviction(o.skip(i as int), unreferenced@.skip(i as int), sz, self.current_usage as int, self.budget as int) == plan,
                ids(kept@) == retain_not_in(o.subrange(0, i as int), plan),
                self.current_usage == total_size(ids(kept@), sz) + total_size(o.skip(i as int), sz),
                self.current_usage + total_size(ids(evicted@), sz) == old(self).current_usage,
                forall|x: u64| #[trigger] ids(evicted@).contains(x) ==> o.subrange(0, i as int).contains(x),
                forall|k: u64| #[trigger] self.entries@.contains_key(k) <==> (e0.contains_key(k) && !ids(evicted@).contains(k)),
                forall|k: u64| #[trigger] self.entries@.contains_key(k) ==> self.entries@[k] == e0[k],
                forall|k: u64| #[trigger] e0.contains_key(k) <==> o.contains(k),
                sz == Map::new(|k: u64| e0.contains_key(k), |k: u64| e0[k].size as nat),
                self.budget == old(self).budget,
            decreases n - i,
        {
            let h = self.access_order[i];
            let ghost rest = o.skip(i as int);
            let ghost fr = unreferenced@.skip(i as int);
            let ghost prefix = o.subrange(0, i as int);
            proof {
                assert(rest[0] == h.0);
                assert(rest.drop_first() =~= o.skip(i + 1));
                assert(fr.drop_first() =~= unreferenced@.skip(i + 1));
                assert(fr[0] == unreferenced@[i as int]);
                assert(o.subrange(0, i + 1) =~= prefix.push(h.0));
                assert(o.subrange(0, i + 1).drop_last() =~= prefix);
                lemma_push_contains(prefix, h.0);
                assert(!prefix.contains(h.0)) by {
                    if prefix.contains(h.0) {
                        let j = choose|j: int| 0 <= j < prefix.len() && prefix[j] == h.0;
                        assert(o[j] == o[i as int]);
                    }
                }
                assert(!ids(evicted@).contains(h.0));
                assert(o.contains(h.0)) by {
                    assert(o[i as int] == h.0);
                }
                assert(e0.contains_key(h.0));
                assert(self.entries@.contains_key(h.0));
                assert(total_size(rest, sz) == sz[h.0] + total_size(o.skip(i + 1), sz));
            }
            let ghost kept0 = ids(kept@);
            if self.current_usage > self.budget && unreferenced[i] {
                let ghost ev0 = ids(evicted@);
                let removed = self.entries.remove(&h.0);
                match removed {
                    Some(entry) => {
                        proof {
                            assert(entry.size == sz[h.0]);
                        }
                        self.current_usage = self.current_usage - entry.size;
                    },
                    None => {},
                }
                evicted.push(h);
                proof {
                    assert(ids(evicted@) =~= ev0.push(h.0));
                    lemma_total_push(ev0, h.0, sz);
                    lemma_push_contains(ev0, h.0);
                    let tail = eviction(o.skip(i + 1), unreferenced@.skip(i + 1), sz, self.current_usage as int, self.budget as int);
                    assert(eviction(rest, fr, sz, old_usage_of(self.current_usage, sz[h.0]), self.budget as int) == seq![h.0] + tail);
                    assert(ev0 + (seq![h.0] + tail) =~= ev0.push(h.0) + tail);
                    assert(plan.contains(h.0)) by {
                        assert(plan[ev0.len() as int] == h.0);
                    }
                    assert(seq![h.0] + Seq::<u64>::empty() =~= seq![h.0]);
                }
            } else {
                kept.push(h);
                proof {
                    assert(eviction(rest, fr, sz, self.current_usage as int, self.budget as int) == eviction(o.skip(i + 1), unreferenced@.skip(i + 1), sz, self.current_usage as int, self.budget as int));
                    assert(!plan.contains(h.0)) by {
                        if plan.contains(h.0) {
                            let j = choose|j: int| 0 <= j < plan.len() && plan[j] == h.0;
                            let ev = ids(evicted@);
                            if j < ev.len() {
                                assert(ev.contains(h.0)) by {
                                    assert(ev[j] == plan[j]);
                                }
                            } else {
                                let tail = eviction(o.skip(i + 1), unreferenced@.skip(i + 1), sz, self.current_usage as int, self.budget as int);
                                lemma_eviction_within(o.skip(i + 1), unreferenced@.skip(i + 1), sz, self.current_usage as int, self.budget as int);
                                assert(tail[j - ev.len()] == h.0);
                                assert(tail.contains(h.0));
                                let sk = o.skip(i + 1);
                                let m = choose|m: int| 0 <= m < sk.len() && sk[m] == h.0;
                                assert(o[i + 1 + m] == o[i as int]);
                            }
                        }
                    }
                    assert(ids(kept@) =~= kept0.push(h.0));
                    lemma_total_push(kept0, h.0, sz);
                    assert(ids(kept@) =~= retain_not_in(o.subrange(0, i as int), plan).push(h.0));
                }
            }
            i = i + 1;
        }
        proof {
            assert(o.skip(n as int) =~= Seq::<u64>::empty());
            assert(o.subrange(0, n as int) =~= o);
            assert(ids(evicted@) =~= plan);
        }
        self.access_order = kept;
        proof {
            let k = ids(self.access_order@);
            lemma_retain_contains(o, plan);
            assert forall|x: u64| #[trigger] self.sizes().contains_key(x) <==> k.contains(x) by {}
            assert forall|j: int| 0 <= j < k.len() implies sz[#[trigger] k[j]] == self.sizes()[k[j]] by {
                assert(k.contains(k[j]));
            }
            lemma_total_agree(k, sz, self.sizes());
            assert(self.sizes() =~= sz.restrict(k.to_set()));
        }
        evicted
    }

    /// Evict least recently used entries that no strong handle refers to
    /// until the usage is within the budget or nothing more can go. Each
    /// entry's count of strong handles is read once, in access order;
    /// other handles may change those counts at any time, so what holds is
    /// that some reading of them gives the ids returned.
    pub fn evict_if_needed(&mut self) -> (evicted: Vec<HandleId>)
        requires
            old(self).valid(),
        ensures
            final(self).valid(),
            exists|free: Seq<bool>|
                free.len() == old(self).order().len() && ids(evicted@) == eviction(
                    old(self).order(),
                    free,
                    old(self).sizes(),
                    old(self).usage_view() as int,
                    old(self).budget_view() as int,
                ),
            final(self).order() == retain_not_in(old(self).order(), ids(evicted@)),
            final(self).sizes() == old(self).sizes().restrict(final(self).order().to_set()),
            final(self).usage_view() + total_size(ids(evicted@), old(self).sizes()) == old(self).usage_view(),
            final(self).budget_view() == old(self).budget_view(),
            forall|k: u64| #[trigger] final(self).order().contains(k) <==> (old(self).order().contains(k) && !ids(evicted@).contains(k)),
    {
        broadcast use vstd::std_specs::hash::group_hash_axioms;
        let mut free: Vec<bool> = Vec::new();
        let mut i: usize = 0;
        while i < self.access_order.len()
            invariant
                i <= self.access_order@.len(),
                free@.len() == i,
            decreases self.access_order@.len() - i,
        {
            let id = self.access_order[i].0;
            let unreferenced = match self.entries.get(&id) {
                Some(entry) => strong_count(&entry.ref_count) == 0,
                None => false,
            };
            free.push(unreferenced);
            i = i + 1;
        }
        self.evict_unreferenced(free.as_slice())
    }

    /// The ids in access order, least recently used first.
    pub fn access_order(&self) -> (r: &[HandleId])
        ensures
            ids(r@) == self.order(),
    {
        self.access_order.as_slice()
    }
}

/// Whether `order` holds `id`.
fn order_contains(order: &Vec<HandleId>, id: u64) -> (r: bool)
    ensures
        r == ids(order@).contains(id),
{
    let mut i: usize = 0;
    while i < order.len()
        invariant
            i <= order@.len(),
            forall|j: int| 0 <= j < i ==> ids(order@)[j] != id,
        decreases order@.len() - i,
    {
        if order[i].0 == id {
            proof {
                assert(ids(order@)[i as int] == id);
            }
            return true;
        }
        i = i + 1;
    }
    false
}

/// `order` without `id`, the rest in order.
fn without_id(order: &Vec<HandleId>, id: u64) -> (r: Vec<HandleId>)
    ensures
        ids(r@) == retain_not_in(ids(order@), seq![id]),
{
    let ghost all = ids(order@);
    let mut out: Vec<HandleId> = Vec::new();
    let mut i: usize = 0;
    proof {
        assert(all.subrange(0, 0) =~= Seq::<u64>::empty());
        assert(ids(out@) =~= Seq::<u64>::empty());
    }
    while i < order.len()
        invariant
            i <= order@.len(),
            all == ids(order@),
            ids(out@) == retain_not_in(all.subrange(0, i as int), seq![id]),
        decreases order@.len() - i,
    {
        let h = order[i];
        let ghost prev = all.subrange(0, i as int);
        proof {
            assert(all.subrange(0, i + 1).drop_last() =~= prev);
            assert(all.subrange(0, i + 1).last() == h.0);
        }
        if h.0 != id {
            out.push(h);
            proof {
                assert(!seq![id].contains(h.0)) by {
                    if seq![id].contains(h.0) {
                        let j = choose|j: int| 0 <= j < 1 && seq![id][j] == h.0;
                    }
                }
                assert(ids(out@) =~= retain_not_in(prev, seq![id]).push(h.0));
            }
        } else {
            proof {
                assert(seq![id][0] == id);
                assert(seq![id].contains(h.0));
            }
        }
        i = i + 1;
    }
    proof {
        assert(all.subrange(0, order@.len() as int) =~= all);
    }
    out
}

} // verus!
