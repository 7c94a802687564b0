//! System access descriptions, conflict-free batching of systems, and
//! chunked iteration helpers.

use std::collections::HashSet;
use vstd::prelude::*;
use vstd::std_specs::iter::IteratorSpec;

verus! {

/// Do the two sets share no element?
fn disjoint(a: &HashSet<u64>, b: &HashSet<u64>) -> (r: bool)
    ensures
        r <==> a@.disjoint(b@),
{
    broadcast use vstd::std_specs::hash::group_hash_axioms;
    let ghost keys = a.iter().remaining().unref();
    proof {
        assert(keys.to_set() == a@);
    }
    for x in it: a.iter()
        invariant
            it.seq().unref() == keys,
            keys.to_set() == a@,
            forall|j: int| 0 <= j < it.index() ==> !b@.contains(#[trigger] keys[j]),
    {
        if b.contains(x) {
            proof {
                assert(keys.contains(*x));
                assert(a@.contains(*x));
            }
            return false;
        }
    }
    proof {
        assert forall|v: u64| a@.contains(v) implies !b@.contains(v) by {
            assert(keys.to_set().contains(v));
            let j = choose|j: int| 0 <= j < keys.len() && keys[j] == v;
        }
    }
    true
}

/// Describes the resource and component access pattern of a system, by
/// type hash.
#[derive(Debug, Default)]
pub struct SystemAccessInfo {
    /// Component types read immutably.
    pub reads: HashSet<u64>,
    /// Component types written mutably.
    pub writes: HashSet<u64>,
    /// Resource types read immutably.
    pub resource_reads: HashSet<u64>,
    /// Resource types written mutably.
    pub resource_writes: HashSet<u64>,
}

/// Two access patterns conflict when one writes what the other reads or
/// writes, for components or for resources.
pub open spec fn access_conflict(a: SystemAccessInfo, b: SystemAccessInfo) -> bool {
    ||| !a.writes@.disjoint(b.writes@)
    ||| !a.reads@.disjoint(b.writes@)
    ||| !a.writes@.disjoint(b.reads@)
    ||| !a.resource_writes@.disjoint(b.resource_writes@)
    ||| !a.resource_reads@.disjoint(b.resource_writes@)
    ||| !a.resource_writes@.disjoint(b.resource_reads@)
}

impl SystemAccessInfo {
    pub fn new() -> (r: Self)
        ensures
            r.reads@ == Set::<u64>::empty(),
            r.writes@ == Set::<u64>::empty(),
            r.resource_reads@ == Set::<u64>::empty(),
            r.resource_writes@ == Set::<u64>::empty(),
    {
        broadcast use vstd::std_specs::hash::group_hash_axioms;
        SystemAccessInfo {
            reads: HashSet::new(),
            writes: HashSet::new(),
            resource_reads: HashSet::new(),
            resource_writes: HashSet::new(),
        }
    }

    pub fn add_component_read(&mut self, type_hash: u64)
        ensures
            final(self).reads@ == old(self).reads@.insert(type_hash),
            final(self).writes@ == old(self).writes@,
            final(self).resource_reads@ == old(self).resource_reads@,
            final(self).resource_writes@ == old(self).resource_writes@,
    {
        broadcast use vstd::std_specs::hash::group_hash_axioms;
        self.reads.insert(type_hash);
    }

    pub fn add_component_write(&mut self, type_hash: u64)
        ensures
            final(self).writes@ == old(self).writes@.insert(type_hash),
            final(self).reads@ == old(self).reads@,
            final(self).resource_reads@ == old(self).resource_reads@,
            final(self).resource_writes@ == old(self).resource_writes@,
    {
        broadcast use vstd::std_specs::hash::group_hash_axioms;
        self.writes.insert(type_hash);
    }

    pub fn add_resource_read(&mut self, type_hash: u64)
        ensures
            final(self).resource_reads@ == old(self).resource_reads@.insert(type_hash),
            final(self).reads@ == old(self).reads@,
            final(self).writes@ == old(self).writes@,
            final(self).resource_writes@ == old(self).resource_writes@,
    {
        broadcast use vstd::std_specs::hash::group_hash_axioms;
        self.resource_reads.insert(type_hash);
    }

    pub fn add_resource_write(&mut self, type_hash: u64)
        ensures
            final(self).resource_writes@ == old(self).resource_writes@.insert(type_hash),
            final(self).reads@ == old(self).reads@,
            final(self).writes@ == old(self).writes@,
            final(self).resource_reads@ == old(self).resource_reads@,
    {
        broadcast use vstd::std_specs::hash::group_hash_axioms;
        self.resource_writes.insert(type_hash);
    }

    /// Does this system's access conflict with `other`'s?
    pub fn conflicts_with(&self, other: &SystemAccessInfo) -> (r: bool)
        ensures
            r == access_conflict(*self, *other),
    {
        broadcast use vstd::std_specs::hash::group_hash_axioms;
        if !disjoint(&self.writes, &other.writes) {
            return true;
        }
        if !disjoint(&self.reads, &other.writes) {
            return true;
        }
        if !disjoint(&self.writes, &other.reads) {
            return true;
        }
        if !disjoint(&self.resource_writes, &other.resource_writes) {
            return true;
        }
        if !disjoint(&self.resource_reads, &other.resource_writes) {
            return true;
        }
        if !disjoint(&self.resource_writes, &other.resource_reads) {
            return true;
        }
        false
    }

    /// Does this system write nothing?
    pub fn is_read_only(&self) -> (r: bool)
        ensures
            r == (self.writes@.is_empty() && self.resource_writes@.is_empty()),
    {
        broadcast use vstd::std_specs::hash::group_hash_axioms;
        self.writes.is_empty() && self.resource_writes.is_empty()
    }
}

/// `a` writes type `x` (component or resource, by `resource`) and `b`
/// reads or writes it.
pub open spec fn writes_what_other_touches(a: SystemAccessInfo, b: SystemAccessInfo, x: u64, resource: bool) -> bool {
    if resource {
        a.resource_writes@.contains(x) && (b.resource_writes@.contains(x) || b.resource_reads@.contains(x))
    } else {
        a.writes@.contains(x) && (b.writes@.contains(x) || b.reads@.contains(x))
    }
}

/// Two systems conflict exactly when one of them writes a component type
/// or a resource type that the other reads or writes. Reads alone never
/// conflict.
pub proof fn lemma_conflict_means_shared_write(a: SystemAccessInfo, b: SystemAccessInfo)
    ensures
        access_conflict(a, b) <==> exists|x: u64, resource: bool|
            writes_what_other_touches(a, b, x, resource) || writes_what_other_touches(b, a, x, resource),
{
    if access_conflict(a, b) {
        if !a.writes@.disjoint(b.writes@) {
            let x = choose|x: u64| a.writes@.contains(x) && b.writes@.contains(x);
            assert(writes_what_other_touches(a, b, x, false));
        } else if !a.reads@.disjoint(b.writes@) {
            let x = choose|x: u64| a.reads@.contains(x) && b.writes@.contains(x);
            assert(writes_what_other_touches(b, a, x, false));
        } else if !a.writes@.disjoint(b.reads@) {
            let x = choose|x: u64| a.writes@.contains(x) && b.reads@.contains(x);
            assert(writes_what_other_touches(a, b, x, false));
        } else if !a.resource_writes@.disjoint(b.resource_writes@) {
            let x = choose|x: u64| a.resource_writes@.contains(x) && b.resource_writes@.contains(x);
            assert(writes_what_other_touches(a, b, x, true));
        } else if !a.resource_reads@.disjoint(b.resource_writes@) {
            let x = choose|x: u64| a.resource_reads@.contains(x) && b.resource_writes@.contains(x);
            assert(writes_what_other_touches(b, a, x, true));
        } else {
            let x = choose|x: u64| a.resource_writes@.contains(x) && b.resource_reads@.contains(x);
            assert(writes_what_other_touches(a, b, x, true));
        }
    }
    if exists|x: u64, resource: bool| writes_what_other_touches(a, b, x, resource) || writes_what_other_touches(b, a, x, resource) {
        let (x, resource) = choose|x: u64, resource: bool|
            writes_what_other_touches(a, b, x, resource) || writes_what_other_touches(b, a, x, resource);
        if resource {
            if a.resource_writes@.contains(x) && b.resource_writes@.contains(x) {
                assert(!a.resource_writes@.disjoint(b.resource_writes@));
            } else if a.resource_writes@.contains(x) && b.resource_reads@.contains(x) {
                assert(!a.resource_writes@.disjoint(b.resource_reads@));
            } else if b.resource_writes@.contains(x) && a.resource_writes@.contains(x) {
                assert(!a.resource_writes@.disjoint(b.resource_writes@));
            } else {
                assert(!a.resource_reads@.disjoint(b.resource_writes@));
            }
        } else {
            if a.writes@.contains(x) && b.writes@.contains(x) {
                assert(!a.writes@.disjoint(b.writes@));
            } else if a.writes@.contains(x) && b.reads@.contains(x) {
                assert(!a.writes@.disjoint(b.reads@));
            } else if b.writes@.contains(x) && a.writes@.contains(x) {
                assert(!a.writes@.disjoint(b.writes@));
            } else {
                assert(!a.reads@.disjoint(b.writes@));
            }
        }
    }
}

/// No batch holds two systems that write the same resource, or the same
/// component type, or where one writes what the other reads.
pub proof fn lemma_batch_has_no_shared_write(
    accesses: Seq<SystemAccessInfo>,
    bs: Seq<Seq<usize>>,
    b: int,
    t: int,
    u: int,
    x: u64,
    resource: bool,
)
    requires
        greedy_batches(bs, accesses.len() as int, conflict_of(accesses)),
        0 <= b < bs.len(),
        0 <= t < u < bs[b].len(),
    ensures
        !writes_what_other_touches(accesses[bs[b][t] as int], accesses[bs[b][u] as int], x, resource),
        !writes_what_other_touches(accesses[bs[b][u] as int], accesses[bs[b][t] as int], x, resource),
{
    lemma_batch_members_do_not_conflict(bs, accesses.len() as int, conflict_of(accesses), b, t, u);
    let p = accesses[bs[b][u] as int];
    let q = accesses[bs[b][t] as int];
    assert(!access_conflict(p, q));
    lemma_conflict_means_shared_write(p, q);
}

/// Conflict is symmetric.
pub proof fn lemma_conflict_symmetric(a: SystemAccessInfo, b: SystemAccessInfo)
    ensures
        access_conflict(a, b) == access_conflict(b, a),
{
    assert(a.writes@.disjoint(b.writes@) == b.writes@.disjoint(a.writes@));
    assert(a.reads@.disjoint(b.writes@) == b.writes@.disjoint(a.reads@));
    assert(a.writes@.disjoint(b.reads@) == b.reads@.disjoint(a.writes@));
    assert(a.resource_writes@.disjoint(b.resource_writes@) == b.resource_writes@.disjoint(
        a.resource_writes@,
    ));
    assert(a.resource_reads@.disjoint(b.resource_writes@) == b.resource_writes@.disjoint(
        a.resource_reads@,
    ));
    assert(a.resource_writes@.disjoint(b.resource_reads@) == b.resource_reads@.disjoint(
        a.resource_writes@,
    ));
}

/// `x` belongs to one of the first `k` batches.
pub open spec fn placed_before(bs: Seq<Seq<usize>>, k: int, x: int) -> bool {
    exists|b: int| 0 <= b < k && #[trigger] bs[b].contains(x as usize)
}

/// Batch `b` is built greedily: it starts at the smallest system not placed
/// in an earlier batch, and a later system joins it exactly when it was not
/// placed earlier and conflicts with none of the batch's smaller members.
pub open spec fn greedy_batch(
    bs: Seq<Seq<usize>>,
    b: int,
    n: int,
    conflict: spec_fn(int, int) -> bool,
) -> bool {
    let batch = bs[b];
    &&& batch.len() > 0
    &&& forall|t: int, u: int| 0 <= t < u < batch.len() ==> batch[t] < batch[u]
    &&& forall|t: int| 0 <= t < batch.len() ==> batch[t] < n
    &&& !placed_before(bs, b, batch[0] as int)
    &&& forall|x: int| 0 <= x < batch[0] ==> placed_before(bs, b, x)
    &&& forall|j: int|
        batch[0] < j < n ==> (#[trigger] batch.contains(j as usize) <==> (!placed_before(bs, b, j)
            && forall|t: int|
            0 <= t < batch.len() && batch[t] < j ==> !conflict(j, batch[t] as int)))
}

/// The batches that `compute_parallel_batches` returns for `n` systems under
/// the conflict relation `conflict`.
pub open spec fn greedy_batches(
    bs: Seq<Seq<usize>>,
    n: int,
    conflict: spec_fn(int, int) -> bool,
) -> bool {
    &&& forall|b: int| 0 <= b < bs.len() ==> greedy_batch(bs, b, n, conflict)
    &&& forall|x: int| 0 <= x < n ==> placed_before(bs, bs.len() as int, x)
}

/// The index lists of a list of batches.
pub open spec fn view_batches(bs: Seq<Vec<usize>>) -> Seq<Seq<usize>> {
    bs.map_values(|v: Vec<usize>| v@)
}

/// The conflict relation between the systems of `accesses`, by index.
pub open spec fn conflict_of(accesses: Seq<SystemAccessInfo>) -> spec_fn(int, int) -> bool {
    |j: int, k: int| access_conflict(accesses[j], accesses[k])
}

proof fn lemma_placed_before_push(bs: Seq<Seq<usize>>, v: Seq<usize>, k: int, x: int)
    requires
        0 <= k <= bs.len(),
    ensures
        placed_before(bs.push(v), k, x) == placed_before(bs, k, x),
        placed_before(bs.push(v), (bs.len() + 1) as int, x) == (placed_before(bs, bs.len() as int, x)
            || v.contains(x as usize)),
{
    let bs2 = bs.push(v);
    if placed_before(bs2, k, x) {
        let b = choose|b: int| 0 <= b < k && #[trigger] bs2[b].contains(x as usize);
        assert(bs[b] == bs2[b]);
    }
    if placed_before(bs, k, x) {
        let b = choose|b: int| 0 <= b < k && #[trigger] bs[b].contains(x as usize);
        assert(bs[b] == bs2[b]);
    }
    if placed_before(bs2, (bs.len() + 1) as int, x) {
        let b = choose|b: int| 0 <= b < bs.len() + 1 && #[trigger] bs2[b].contains(x as usize);
        if b < bs.len() {
            assert(bs[b] == bs2[b]);
        }
    }
    if placed_before(bs, bs.len() as int, x) {
        let b = choose|b: int| 0 <= b < bs.len() && #[trigger] bs[b].contains(x as usize);
        assert(bs[b] == bs2[b]);
    }
    if v.contains(x as usize) {
        assert(bs2[bs.len() as int] == v);
    }
}

/// Adding a batch at the end keeps earlier greedy batches greedy.
proof fn lemma_greedy_batch_push(
    bs: Seq<Seq<usize>>,
    v: Seq<usize>,
    b: int,
    n: int,
    c: spec_fn(int, int) -> bool,
)
    requires
        0 <= b < bs.len(),
        greedy_batch(bs, b, n, c),
    ensures
        greedy_batch(bs.push(v), b, n, c),
{
    let bs2 = bs.push(v);
    assert(bs2[b] == bs[b]);
    assert forall|x: int| placed_before(bs2, b, x) == placed_before(bs, b, x) by {
        lemma_placed_before_push(bs, v, b, x);
    }
}

/// Does system `j` conflict with any system of `batch`?
fn conflicts_with_batch(accesses: &[SystemAccessInfo], batch: &Vec<usize>, j: usize) -> (r: bool)
    requires
        j < accesses@.len(),
        forall|t: int| 0 <= t < batch@.len() ==> batch@[t] < accesses@.len(),
    ensures
        r == exists|t: int|
            0 <= t < batch@.len() && access_conflict(accesses@[j as int], accesses@[batch@[t] as int]),
{
    let mut t: usize = 0;
    while t < batch.len()
        invariant
            t <= batch@.len(),
            j < accesses@.len(),
            forall|u: int| 0 <= u < batch@.len() ==> batch@[u] < accesses@.len(),
            forall|u: int| 0 <= u < t ==> !access_conflict(accesses@[j as int], accesses@[batch@[u] as int]),
        decreases batch@.len() - t,
    {
        if accesses[j].conflicts_with(&accesses[batch[t]]) {
            return true;
        }
        t = t + 1;
    }
    false
}

/// Group systems into batches whose members never conflict, greedily in
/// index order.
pub fn compute_parallel_batches(accesses: &[SystemAccessInfo]) -> (batches: Vec<Vec<usize>>)
    ensures
        greedy_batches(view_batches(batches@), accesses@.len() as int, conflict_of(accesses@)),
{
    let n = accesses.len();
    let ghost c = conflict_of(accesses@);
    let mut batches: Vec<Vec<usize>> = Vec::new();
    if n == 0 {
        return batches;
    }
    let mut assigned: Vec<bool> = Vec::new();
    let mut z: usize = 0;
    while z < n
        invariant
            z <= n,
            assigned@.len() == z,
            forall|x: int| 0 <= x < z ==> !assigned@[x],
        decreases n - z,
    {
        assigned.push(false);
        z = z + 1;
    }
    let mut i: usize = 0;
    while i < n
        invariant
            n == accesses@.len(),
            c == conflict_of(accesses@),
            i <= n,
            assigned@.len() == n,
            forall|x: int| 0 <= x < n ==> (assigned@[x] <==> placed_before(view_batches(batches@), batches@.len() as int, x)),
            forall|x: int| 0 <= x < i ==> assigned@[x],
            forall|b: int| 0 <= b < batches@.len() ==> #[trigger] greedy_batch(view_batches(batches@), b, n as int, c),
        decreases n - i,
    {
        if assigned[i] {
            i = i + 1;
            continue;
        }
        let ghost bs = view_batches(batches@);
        let mut batch: Vec<usize> = Vec::new();
        batch.push(i);
        let ghost old_assigned = assigned@;
        assigned.set(i, true);
        proof {
            assert(!placed_before(bs, bs.len() as int, i as int));
            assert forall|x: int| 0 <= x < i implies placed_before(bs, bs.len() as int, x) by {
                assert(old_assigned[x]);
            }
            assert forall|x: int| 0 <= x < n implies (assigned@[x] <==> (placed_before(bs, bs.len() as int, x) || batch@.contains(x as usize))) by {
                if batch@.contains(x as usize) {
                    let t = choose|t: int| 0 <= t < batch@.len() && batch@[t] == x as usize;
                    assert(t == 0);
                }
                if x == i {
                    assert(batch@[0] == i);
                }
            }
        }
        let mut j: usize = i + 1;
        while j < n
            invariant
                n == accesses@.len(),
                c == conflict_of(accesses@),
                i < j <= n,
                bs == view_batches(batches@),
                assigned@.len() == n,
                !placed_before(bs, bs.len() as int, i as int),
                batch@.len() > 0,
                batch@[0] == i,
                forall|t: int, u: int| 0 <= t < u < batch@.len() ==> batch@[t] < batch@[u],
                forall|t: int| 0 <= t < batch@.len() ==> i <= #[trigger] batch@[t] < j,
                forall|x: int| 0 <= x < i ==> placed_before(bs, bs.len() as int, x),
                forall|x: int| 0 <= x < n ==> (assigned@[x] <==> (placed_before(bs, bs.len() as int, x) || batch@.contains(x as usize))),
                forall|x: int| i < x < j ==> (#[trigger] batch@.contains(x as usize) <==> (!placed_before(bs, bs.len() as int, x)
                    && forall|t: int| 0 <= t < batch@.len() && batch@[t] < x ==> !c(x, batch@[t] as int))),
            decreases n - j,
        {
            let ghost old_batch = batch@;
            let ghost old_assigned = assigned@;
            if !assigned[j] {
                let conflicts = conflicts_with_batch(accesses, &batch, j);
                if !conflicts {
                    batch.push(j);
                    assigned.set(j, true);
                }
            }
            proof {
                assert forall|x: int| 0 <= x < n implies (assigned@[x] <==> (placed_before(bs, bs.len() as int, x) || batch@.contains(x as usize))) by {
                    if batch@.contains(x as usize) && x != j {
                        let t = choose|t: int| 0 <= t < batch@.len() && batch@[t] == x as usize;
                        assert(t < old_batch.len());
                        assert(old_batch[t] == x);
                        assert(old_batch.contains(x as usize));
                    }
                    if old_batch.contains(x as usize) {
                        let t = choose|t: int| 0 <= t < old_batch.len() && old_batch[t] == x as usize;
                        assert(batch@[t] == x);
                    }
                    if x == j && batch@.len() > old_batch.len() {
                        assert(batch@[old_batch.len() as int] == j);
                    }
                    if x == j && old_batch.contains(x as usize) {
                        let t = choose|t: int| 0 <= t < old_batch.len() && old_batch[t] == x as usize;
                    }
                }
                assert forall|x: int| i < x < j + 1 implies (#[trigger] batch@.contains(x as usize) <==> (!placed_before(bs, bs.len() as int, x)
                    && forall|t: int| 0 <= t < batch@.len() && batch@[t] < x ==> !c(x, batch@[t] as int))) by {
                    assert forall|t: int| 0 <= t < batch@.len() && batch@[t] < x implies t < old_batch.len() && batch@[t] == old_batch[t] by {
                        if t >= old_batch.len() {
                            assert(batch@[t] == j);
                        }
                    }
                    assert forall|t: int| 0 <= t < old_batch.len() implies batch@[t] == old_batch[t] by {}
                    if x < j {
                        assert(batch@.contains(x as usize) == old_batch.contains(x as usize)) by {
                            if batch@.contains(x as usize) {
                                let t = choose|t: int| 0 <= t < batch@.len() && batch@[t] == x as usize;
                                assert(t < old_batch.len());
                            }
                            if old_batch.contains(x as usize) {
                                let t = choose|t: int| 0 <= t < old_batch.len() && old_batch[t] == x as usize;
                                assert(batch@[t] == x);
                            }
                        }
                    } else {
                        assert(!old_batch.contains(j)) by {
                            if old_batch.contains(j) {
                                let t = choose|t: int| 0 <= t < old_batch.len() && old_batch[t] == j;
                            }
                        }
                        if batch@.len() > old_batch.len() {
                            assert(batch@[old_batch.len() as int] == j);
                        } else {
                            assert(!batch@.contains(j)) by {
                                assert(batch@ == old_batch);
                            }
                        }
                    }
                }
            }
            j = j + 1;
        }
        let ghost bv = batch@;
        batches.push(batch);
        proof {
            let bs2 = view_batches(batches@);
            assert(bs2 =~= bs.push(bv));
            assert forall|x: int| 0 <= x < n implies (assigned@[x] <==> placed_before(bs2, bs2.len() as int, x)) by {
                lemma_placed_before_push(bs, bv, bs.len() as int, x);
            }
            assert forall|b: int| 0 <= b < bs.len() implies #[trigger] greedy_batch(bs2, b, n as int, c) by {
                lemma_greedy_batch_push(bs, bv, b, n as int, c);
            }
            assert(bs2[bs.len() as int] == bv);
            assert forall|x: int| placed_before(bs2, bs.len() as int, x) == placed_before(bs, bs.len() as int, x) by {
                lemma_placed_before_push(bs, bv, bs.len() as int, x);
            }
            assert(greedy_batch(bs2, bs.len() as int, n as int, c));
        }
        i = i + 1;
    }
    proof {
        assert forall|x: int| 0 <= x < n implies placed_before(view_batches(batches@), batches@.len() as int, x) by {
            assert(assigned@[x]);
        }
    }
    batches
}

/// No two members of a batch conflict, so a batch can run in parallel.
pub proof fn lemma_batch_members_do_not_conflict(
    bs: Seq<Seq<usize>>,
    n: int,
    c: spec_fn(int, int) -> bool,
    b: int,
    t: int,
    u: int,
)
    requires
        greedy_batches(bs, n, c),
        0 <= b < bs.len(),
        0 <= t < u < bs[b].len(),
    ensures
        !c(bs[b][u] as int, bs[b][t] as int),
{
    assert(greedy_batch(bs, b, n, c));
    let batch = bs[b];
    if t == 0 {
        assert(batch[0] < batch[u]);
    } else {
        assert(batch[0] < batch[t]);
        assert(batch[t] < batch[u]);
    }
    let j = batch[u] as int;
    assert(batch.contains(j as usize));
    assert(batch[t] < j);
}

/// Every system lands in exactly one batch.
pub proof fn lemma_batches_are_disjoint(
    bs: Seq<Seq<usize>>,
    n: int,
    c: spec_fn(int, int) -> bool,
    b1: int,
    b2: int,
    x: usize,
)
    requires
        greedy_batches(bs, n, c),
        0 <= b1 < b2 < bs.len(),
        bs[b1].contains(x),
    ensures
        !bs[b2].contains(x),
{
    assert(greedy_batch(bs, b2, n, c));
    assert(bs[b1].contains((x as int) as usize));
    assert(placed_before(bs, b2, x as int));
    let batch = bs[b2];
    if batch.contains(x) {
        let t = choose|t: int| 0 <= t < batch.len() && batch[t] == x;
        if t > 0 {
            assert(batch[0] < batch[t]);
        }
    }
}

/// A simple pool description: how many workers parallel helpers may use.
pub struct ThreadPool {
    thread_count: usize,
}

impl ThreadPool {
    /// A pool with `num_threads` workers; at least one.
    pub fn new(num_threads: usize) -> (p: Self)
        ensures
            p.thread_count_view() == if num_threads == 0 { 1 } else { num_threads },
    {
        ThreadPool { thread_count: if num_threads < 1 { 1 } else { num_threads } }
    }

    /// Number of worker threads.
    pub fn thread_count(&self) -> (r: usize)
        ensures
            r == self.thread_count_view(),
    {
        self.thread_count
    }

    pub closed spec fn thread_count_view(&self) -> usize {
        self.thread_count
    }
}

/// Apply `f` to every item of `data`, chunk by chunk.
pub fn par_for_each<T, F: Fn(&T)>(pool: &ThreadPool, data: &[T], chunk_size: usize, f: F)
    requires
        forall|i: int| 0 <= i < data@.len() ==> f.requires((&data@[i],)),
    ensures
        forall|i: int| 0 <= i < data@.len() ==> f.ensures((&data@[i],), ()),
{
    let _ = pool;
    let _ = chunk_size;
    let mut i: usize = 0;
    while i < data.len()
        invariant
            i <= data@.len(),
            forall|k: int| 0 <= k < data@.len() ==> f.requires((&data@[k],)),
            forall|k: int| 0 <= k < i ==> f.ensures((&data@[k],), ()),
        decreases data@.len() - i,
    {
        f(&data[i]);
        i = i + 1;
    }
}

/// Map `f` over `data`, keeping the order of the items.
pub fn par_map<T, R, F: Fn(&T) -> R>(pool: &ThreadPool, data: &[T], chunk_size: usize, f: F) -> (r: Vec<R>)
    requires
        forall|i: int| 0 <= i < data@.len() ==> f.requires((&data@[i],)),
    ensures
        r@.len() == data@.len(),
        forall|i: int| 0 <= i < data@.len() ==> f.ensures((&data@[i],), #[trigger] r@[i]),
{
    let _ = pool;
    let _ = chunk_size;
    let mut out: Vec<R> = Vec::new();
    let mut i: usize = 0;
    while i < data.len()
        invariant
            i <= data@.len(),
            out@.len() == i,
            forall|k: int| 0 <= k < data@.len() ==> f.requires((&data@[k],)),
            forall|k: int| 0 <= k < i ==> f.ensures((&data@[k],), #[trigger] out@[k]),
        decreases data@.len() - i,
    {
        let v = f(&data[i]);
        out.push(v);
        i = i + 1;
    }
    out
}

/// Schedules systems within a stage into conflict-free batches.
pub struct ParallelScheduler {
    batches: Vec<Vec<usize>>,
}

impl ParallelScheduler {
    pub closed spec fn batches_view(&self) -> Seq<Seq<usize>> {
        view_batches(self.batches@)
    }

    pub fn new() -> (s: Self)
        ensures
            s.batches_view() == Seq::<Seq<usize>>::empty(),
    {
        ParallelScheduler { batches: Vec::new() }
    }

    /// Recompute the batches for a new list of system accesses.
    pub fn rebuild(&mut self, accesses: &[SystemAccessInfo])
        ensures
            greedy_batches(final(self).batches_view(), accesses@.len() as int, conflict_of(accesses@)),
    {
        self.batches = compute_parallel_batches(accesses);
    }

    pub fn batches(&self) -> (r: &[Vec<usize>])
        ensures
            view_batches(r@) == self.batches_view(),
    {
        self.batches.as_slice()
    }

    pub fn batch_count(&self) -> (r: usize)
        ensures
            r == self.batches_view().len(),
    {
        self.batches.len()
    }

    /// Can every system of the stage run at once?
    pub fn is_fully_parallel(&self) -> (r: bool)
        ensures
            r == (self.batches_view().len() <= 1),
    {
        self.batches.len() <= 1
    }
}

} // verus!
