//! Ordering the systems of a stage by their `before` / `after` constraints
//! (Kahn's algorithm). A constraint naming no system is ignored; when two
//! systems share a name, the later one is the one named.

use vstd::prelude::*;
use crate::text::str_eq;

verus! {

/// The index of the last system called `x`.
pub open spec fn find_name(names: Seq<Seq<char>>, x: Seq<char>) -> Option<int>
    decreases names.len(),
{
    if names.len() == 0 {
        None
    } else if names.last() == x {
        Some(names.len() - 1)
    } else {
        find_name(names.drop_last(), x)
    }
}

/// The edges that system `i`'s list of names gives: `i` runs before each
/// named system (`i_first`) or after it.
pub open spec fn list_edges(names: Seq<Seq<char>>, list: Seq<Seq<char>>, i: int, i_first: bool) -> Seq<(int, int)>
    decreases list.len(),
{
    if list.len() == 0 {
        Seq::empty()
    } else {
        let prev = list_edges(names, list.drop_last(), i, i_first);
        match find_name(names, list.last()) {
            Some(j) => prev.push(if i_first { (i, j) } else { (j, i) }),
            None => prev,
        }
    }
}

/// The edges `(u, v)`, "u runs before v", of the first `k` systems'
/// constraints: each system's `before` list, then its `after` list.
pub open spec fn dependency_edges(
    names: Seq<Seq<char>>,
    before: Seq<Seq<Seq<char>>>,
    after: Seq<Seq<Seq<char>>>,
    k: int,
) -> Seq<(int, int)>
    decreases k,
{
    if k <= 0 {
        Seq::empty()
    } else {
        dependency_edges(names, before, after, k - 1) + list_edges(names, before[k - 1], k - 1, true) + list_edges(
            names,
            after[k - 1],
            k - 1,
            false,
        )
    }
}

/// `u` comes before `v` in `order`.
pub open spec fn precedes(order: Seq<usize>, u: int, v: int) -> bool {
    exists|a: int, b: int| 0 <= a < b < order.len() && order[a] == u && order[b] == v
}

/// `order` lists each of `0..n` once.
pub open spec fn is_permutation(order: Seq<usize>, n: int) -> bool {
    &&& order.len() == n
    &&& order.no_duplicates()
    &&& forall|a: int| 0 <= a < order.len() ==> #[trigger] order[a] < n
}

/// Every edge's source comes before its target.
pub open spec fn respects(order: Seq<usize>, edges: Seq<(int, int)>) -> bool {
    forall|k: int| 0 <= k < edges.len() ==> precedes(order, #[trigger] edges[k].0, edges[k].1)
}

/// Every system of `rest` has an edge into it from a system of `rest`.
pub open spec fn blocked(rest: Seq<usize>, edges: Seq<(int, int)>) -> bool {
    forall|a: int|
        0 <= a < rest.len() ==> exists|k: int|
            0 <= k < edges.len() && edges[k].1 == #[trigger] rest[a] as int && rest.contains(edges[k].0 as usize)
}

/// A nonempty set of systems each waiting on another of the set can never
/// be ordered: no permutation of the systems respects all edges.
pub proof fn lemma_blocked_has_no_order(rest: Seq<usize>, edges: Seq<(int, int)>, order: Seq<usize>, n: int)
    requires
        rest.len() > 0,
        n <= usize::MAX,
        forall|a: int| 0 <= a < rest.len() ==> #[trigger] rest[a] < n,
        blocked(rest, edges),
        is_permutation(order, n),
    ensures
        !respects(order, edges),
{
    if respects(order, edges) {
        lemma_perm_contains(order, n);
        lemma_rest_not_in_prefix(rest, edges, order, n, n);
        assert(order.contains(rest[0]));
        let p = choose|p: int| 0 <= p < order.len() && order[p] == rest[0];
        assert(order[p] != rest[0]);
    }
}

/// No system of a blocked set sits among the first `k` of an order that
/// respects the edges.
proof fn lemma_rest_not_in_prefix(rest: Seq<usize>, edges: Seq<(int, int)>, order: Seq<usize>, n: int, k: int)
    requires
        0 <= k <= n,
        respects(order, edges),
        is_permutation(order, n),
        blocked(rest, edges),
    ensures
        forall|a: int, p: int| 0 <= a < rest.len() && 0 <= p < k ==> #[trigger] order[p] != #[trigger] rest[a],
    decreases k,
{
    if k > 0 {
        lemma_rest_not_in_prefix(rest, edges, order, n, k - 1);
        assert forall|a: int| 0 <= a < rest.len() implies order[k - 1] != #[trigger] rest[a] by {
            if order[k - 1] == rest[a] {
                let e = choose|e: int| 0 <= e < edges.len() && edges[e].1 == rest[a] as int && rest.contains(edges[e].0 as usize);
                assert(precedes(order, edges[e].0, edges[e].1));
                let (p, q) = choose|p: int, q: int| 0 <= p < q < order.len() && order[p] == edges[e].0 && order[q] == edges[e].1;
                assert(order[q] == order[k - 1]);
                assert(q == k - 1);
                let b = choose|b: int| 0 <= b < rest.len() && rest[b] == edges[e].0 as usize;
                assert(order[p] != rest[b]);
            }
        }
    }
}

proof fn lemma_perm_contains(order: Seq<usize>, n: int)
    requires
        is_permutation(order, n),
        n <= usize::MAX,
    ensures
        forall|x: usize| x < n ==> #[trigger] order.contains(x),
{
    broadcast use vstd::set::group_set_axioms;
    let s = order.to_set();
    order.unique_seq_to_set();
    let full = Set::new(|x: usize| x < n);
    lemma_full_len(n);
    assert forall|x: usize| x < n implies #[trigger] order.contains(x) by {
        if !order.contains(x) {
            assert forall|y: usize| s.contains(y) implies full.remove(x).contains(y) by {
                let a = choose|a: int| 0 <= a < order.len() && order[a] == y;
            }
            assert(full.contains(x));
            vstd::set_lib::lemma_len_subset(s, full.remove(x));
        }
    }
}

proof fn lemma_full_len(n: int)
    requires
        0 <= n <= usize::MAX,
    ensures
        Set::new(|x: usize| x < n).finite(),
        Set::new(|x: usize| x < n).len() == n,
    decreases n,
{
    let full = Set::new(|x: usize| x < n);
    if n == 0 {
        assert(full =~= Set::<usize>::empty());
    } else {
        lemma_full_len(n - 1);
        let smaller = Set::new(|x: usize| x < n - 1);
        assert(full =~= smaller.insert((n - 1) as usize));
    }
}

/// The edges into `v` whose source is not among `done`.
pub open spec fn count_into(edges: Seq<(int, int)>, v: int, done: Seq<usize>) -> nat
    decreases edges.len(),
{
    if edges.len() == 0 {
        0
    } else {
        count_into(edges.drop_last(), v, done) + if edges.last().1 == v && !done.contains(edges.last().0 as usize) {
            1nat
        } else {
            0nat
        }
    }
}

/// How many times the edge `(u, v)` occurs.
pub open spec fn occurrences(edges: Seq<(int, int)>, u: int, v: int) -> nat
    decreases edges.len(),
{
    if edges.len() == 0 {
        0
    } else {
        occurrences(edges.drop_last(), u, v) + if edges.last() == (u, v) {
            1nat
        } else {
            0nat
        }
    }
}

proof fn lemma_count_done_push(edges: Seq<(int, int)>, v: int, done: Seq<usize>, u: usize)
    requires
        !done.contains(u),
        forall|k: int| 0 <= k < edges.len() ==> 0 <= #[trigger] edges[k].0 <= usize::MAX,
    ensures
        count_into(edges, v, done.push(u)) + occurrences(edges, u as int, v) == count_into(edges, v, done),
    decreases edges.len(),
{
    if edges.len() > 0 {
        assert forall|k: int| 0 <= k < edges.drop_last().len() implies 0 <= #[trigger] edges.drop_last()[k].0 <= usize::MAX by {
            assert(edges.drop_last()[k] == edges[k]);
        }
        lemma_count_done_push(edges.drop_last(), v, done, u);
        let e = edges.last();
        assert(0 <= e.0 <= usize::MAX) by {
            assert(e == edges[edges.len() - 1]);
        }
        assert(done.push(u).contains(e.0 as usize) <==> (done.contains(e.0 as usize) || e.0 as usize == u)) by {
            if done.push(u).contains(e.0 as usize) {
                let j = choose|j: int| 0 <= j < done.push(u).len() && done.push(u)[j] == e.0 as usize;
                if j < done.len() {
                    assert(done[j] == e.0 as usize);
                }
            }
            if done.contains(e.0 as usize) {
                let j = choose|j: int| 0 <= j < done.len() && done[j] == e.0 as usize;
                assert(done.push(u)[j] == e.0 as usize);
            }
            if e.0 as usize == u {
                assert(done.push(u)[done.len() as int] == u);
            }
        }
        if e.1 == v && e.0 as usize == u {
            assert(e == (u as int, v));
        }
    }
}

proof fn lemma_count_zero(edges: Seq<(int, int)>, v: int, done: Seq<usize>)
    ensures
        count_into(edges, v, done) == 0 ==> forall|k: int|
            0 <= k < edges.len() && #[trigger] edges[k].1 == v ==> done.contains(edges[k].0 as usize),
        count_into(edges, v, done) > 0 ==> exists|k: int|
            0 <= k < edges.len() && #[trigger] edges[k].1 == v && !done.contains(edges[k].0 as usize),
    decreases edges.len(),
{
    if edges.len() > 0 {
        let d = edges.drop_last();
        lemma_count_zero(d, v, done);
        if count_into(edges, v, done) == 0 {
            assert forall|k: int| 0 <= k < edges.len() && #[trigger] edges[k].1 == v implies done.contains(edges[k].0 as usize) by {
                if k < d.len() {
                    assert(d[k] == edges[k]);
                }
            }
        }
        if count_into(edges, v, done) > 0 {
            if count_into(d, v, done) > 0 {
                let k = choose|k: int| 0 <= k < d.len() && #[trigger] d[k].1 == v && !done.contains(d[k].0 as usize);
                assert(edges[k] == d[k]);
            } else {
                assert(edges[edges.len() - 1].1 == v);
            }
        }
    }
}

proof fn lemma_occ_bound(edges: Seq<(int, int)>, u: int, v: int, k: int)
    requires
        0 <= k <= edges.len(),
    ensures
        occurrences(edges.subrange(0, k), u, v) <= occurrences(edges, u, v),
        k < edges.len() ==> occurrences(edges.subrange(0, k + 1), u, v) == occurrences(edges.subrange(0, k), u, v) + if edges[k]
            == (u, v) {
            1nat
        } else {
            0nat
        },
    decreases edges.len() - k,
{
    if k < edges.len() {
        assert(edges.subrange(0, k + 1).drop_last() =~= edges.subrange(0, k));
        lemma_occ_bound(edges, u, v, k + 1);
    } else {
        assert(edges.subrange(0, k) =~= edges);
    }
}

/// The number of constraints, before and after, over all systems.
pub open spec fn constraint_count(before: Seq<Seq<Seq<char>>>, after: Seq<Seq<Seq<char>>>, k: int) -> int
    decreases k,
{
    if k <= 0 {
        0
    } else {
        constraint_count(before, after, k - 1) + before[k - 1].len() + after[k - 1].len()
    }
}

proof fn lemma_list_edges_len(names: Seq<Seq<char>>, list: Seq<Seq<char>>, i: int, i_first: bool)
    ensures
        list_edges(names, list, i, i_first).len() <= list.len(),
    decreases list.len(),
{
    if list.len() > 0 {
        lemma_list_edges_len(names, list.drop_last(), i, i_first);
    }
}

proof fn lemma_dependency_edges_len(names: Seq<Seq<char>>, before: Seq<Seq<Seq<char>>>, after: Seq<Seq<Seq<char>>>, k: int)
    ensures
        dependency_edges(names, before, after, k).len() <= constraint_count(before, after, k),
    decreases k,
{
    if k > 0 {
        lemma_dependency_edges_len(names, before, after, k - 1);
        lemma_list_edges_len(names, before[k - 1], k - 1, true);
        lemma_list_edges_len(names, after[k - 1], k - 1, false);
    }
}

proof fn lemma_find_name_range(names: Seq<Seq<char>>, x: Seq<char>)
    ensures
        find_name(names, x) matches Some(j) ==> 0 <= j < names.len(),
    decreases names.len(),
{
    if names.len() > 0 {
        lemma_find_name_range(names.drop_last(), x);
    }
}

/// The index of the last of `names` equal to `x`.
fn find_system(names: &[String], x: &str) -> (r: Option<usize>)
    ensures
        match r {
            Some(j) => find_name(names@.map_values(|s: String| s@), x@) == Some(j as int),
            None => find_name(names@.map_values(|s: String| s@), x@) is None,
        },
{
    let ghost nv = names@.map_values(|s: String| s@);
    let mut i = names.len();
    proof {
        assert(nv.subrange(0, i as int) =~= nv);
    }
    while i > 0
        invariant
            i <= names@.len(),
            nv == names@.map_values(|s: String| s@),
            find_name(nv, x@) == find_name(nv.subrange(0, i as int), x@),
        decreases i,
    {
        let ghost sub = nv.subrange(0, i as int);
        proof {
            assert(sub.drop_last() =~= nv.subrange(0, i - 1));
            assert(sub.last() == names@[i - 1]@);
        }
        if str_eq(names[i - 1].as_str(), x) {
            return Some(i - 1);
        }
        i = i - 1;
    }
    None
}

pub open spec fn names_view(names: Seq<String>) -> Seq<Seq<char>> {
    names.map_values(|s: String| s@)
}

pub open spec fn lists_view(lists: Seq<Vec<String>>) -> Seq<Seq<Seq<char>>> {
    lists.map_values(|l: Vec<String>| l@.map_values(|s: String| s@))
}

/// Edges with integer endpoints.
pub open spec fn edges_view(edges: Seq<(usize, usize)>) -> Seq<(int, int)> {
    edges.map_values(|e: (usize, usize)| (e.0 as int, e.1 as int))
}

proof fn lemma_count_bound(edges: Seq<(int, int)>, v: int, done: Seq<usize>)
    ensures
        count_into(edges, v, done) <= edges.len(),
    decreases edges.len(),
{
    if edges.len() > 0 {
        lemma_count_bound(edges.drop_last(), v, done);
    }
}

proof fn lemma_constraint_count_mono(before: Seq<Seq<Seq<char>>>, after: Seq<Seq<Seq<char>>>, i: int, k: int)
    requires
        0 <= i <= k,
    ensures
        constraint_count(before, after, i) <= constraint_count(before, after, k),
    decreases k - i,
{
    if i < k {
        lemma_constraint_count_mono(before, after, i, k - 1);
    }
}

/// Extend `edges` and the in-degrees with the constraints of `list`, which
/// belongs to system `i`.
fn add_list_edges(
    names: &[String],
    list: &Vec<String>,
    i: usize,
    i_first: bool,
    edges: &mut Vec<(usize, usize)>,
    indeg: &mut Vec<usize>,
)
    requires
        i < names@.len(),
        old(indeg)@.len() == names@.len(),
        old(edges)@.len() + list@.len() <= usize::MAX,
        forall|k: int| 0 <= k < old(edges)@.len() ==> (#[trigger] old(edges)@[k]).0 < names@.len() && old(edges)@[k].1 < names@.len(),
        forall|v: int| 0 <= v < names@.len() ==> #[trigger] old(indeg)@[v] == count_into(edges_view(old(edges)@), v, Seq::empty()),
    ensures
        edges_view(final(edges)@) == edges_view(old(edges)@) + list_edges(names_view(names@), list@.map_values(|s: String| s@), i as int, i_first),
        final(indeg)@.len() == names@.len(),
        forall|k: int| 0 <= k < final(edges)@.len() ==> (#[trigger] final(edges)@[k]).0 < names@.len() && final(edges)@[k].1 < names@.len(),
        forall|v: int| 0 <= v < names@.len() ==> #[trigger] final(indeg)@[v] == count_into(edges_view(final(edges)@), v, Seq::empty()),
{
    let ghost nv = names_view(names@);
    let ghost lv = list@.map_values(|s: String| s@);
    let ghost e0 = edges_view(edges@);
    let mut j: usize = 0;
    proof {
        assert(lv.subrange(0, 0) =~= Seq::<Seq<char>>::empty());
        assert(e0 + list_edges(nv, lv.subrange(0, 0), i as int, i_first) =~= e0);
    }
    while j < list.len()
        invariant
            j <= list@.len(),
            i < names@.len(),
            nv == names_view(names@),
            lv == list@.map_values(|s: String| s@),
            indeg@.len() == names@.len(),
            edges@.len() <= old(edges)@.len() + j,
            old(edges)@.len() + list@.len() <= usize::MAX,
            edges_view(edges@) == e0 + list_edges(nv, lv.subrange(0, j as int), i as int, i_first),
            forall|k: int| 0 <= k < edges@.len() ==> (#[trigger] edges@[k]).0 < names@.len() && edges@[k].1 < names@.len(),
            forall|v: int| 0 <= v < names@.len() ==> #[trigger] indeg@[v] == count_into(edges_view(edges@), v, Seq::empty()),
        decreases list@.len() - j,
    {
        let ghost sub = lv.subrange(0, j + 1);
        proof {
            assert(sub.drop_last() =~= lv.subrange(0, j as int));
            assert(sub.last() == list@[j as int]@);
        }
        match find_system(names, list[j].as_str()) {
            Some(t) => {
                proof {
                    lemma_find_name_range(nv, list@[j as int]@);
                }
                let e = if i_first { (i, t) } else { (t, i) };
                let target = e.1;
                let ghost before = edges_view(edges@);
                edges.push(e);
                proof {
                    assert(edges_view(edges@) =~= before.push((e.0 as int, e.1 as int)));
                    lemma_count_bound(before, target as int, Seq::empty());
                }
                let d = indeg[target] + 1;
                indeg.set(target, d);
                proof {
                    assert(edges_view(edges@).drop_last() =~= before);
                    assert(edges_view(edges@) =~= e0 + list_edges(nv, sub, i as int, i_first));
                }
            },
            None => {},
        }
        j = j + 1;
    }
    proof {
        assert(lv.subrange(0, list@.len() as int) =~= lv);
    }
}

/// What ordering `n` systems under `edges` gives: an order that runs each
/// system after those it must follow, or, when there is none, the systems
/// that can never run: the largest set of systems each waiting on another
/// of the set, in index order.
pub open spec fn order_result(r: Result<Vec<usize>, Vec<usize>>, n: int, edges: Seq<(int, int)>) -> bool {
    match r {
        Ok(order) => is_permutation(order@, n) && respects(order@, edges),
        Err(rest) => {
            &&& rest@.len() > 0
            &&& blocked(rest@, edges)
            &&& forall|a: int, b: int| 0 <= a < b < rest@.len() ==> rest@[a] < rest@[b]
            &&& forall|a: int| 0 <= a < rest@.len() ==> #[trigger] rest@[a] < n
            &&& forall|other: Seq<usize>|
                #![trigger blocked(other, edges)]
                blocked(other, edges) && (forall|a: int| 0 <= a < other.len() ==> #[trigger] other[a] < n) ==> forall|a: int|
                    0 <= a < other.len() ==> rest@.contains(#[trigger] other[a])
        },
    }
}

/// The systems in an order that runs each after those it must follow, or,
/// when no such order exists, the systems that can never run: the largest
/// set of systems each waiting on another of the set, in index order.
pub fn system_order(names: &[String], before: &[Vec<String>], after: &[Vec<String>]) -> (r: Result<Vec<usize>, Vec<usize>>)
    requires
        before@.len() == names@.len(),
        after@.len() == names@.len(),
        constraint_count(lists_view(before@), lists_view(after@), names@.len() as int) <= usize::MAX,
    ensures
        order_result(
            r,
            names@.len() as int,
            dependency_edges(names_view(names@), lists_view(before@), lists_view(after@), names@.len() as int),
        ),
{
    let n = names.len();
    let ghost nv = names_view(names@);
    let ghost bv = lists_view(before@);
    let ghost av = lists_view(after@);
    let mut indeg: Vec<usize> = Vec::new();
    let mut z: usize = 0;
    while z < n
        invariant
            z <= n,
            indeg@.len() == z,
            forall|v: int| 0 <= v < z ==> #[trigger] indeg@[v] == 0,
        decreases n - z,
    {
        indeg.push(0);
        z = z + 1;
    }
    let mut edges: Vec<(usize, usize)> = Vec::new();
    let mut i: usize = 0;
    proof {
        assert(edges_view(edges@) =~= Seq::<(int, int)>::empty());
    }
    while i < n
        invariant
            i <= n,
            n == names@.len(),
            before@.len() == n,
            after@.len() == n,
            nv == names_view(names@),
            bv == lists_view(before@),
            av == lists_view(after@),
            constraint_count(bv, av, n as int) <= usize::MAX,
            indeg@.len() == n,
            edges@.len() <= constraint_count(bv, av, i as int),
            edges_view(edges@) == dependency_edges(nv, bv, av, i as int),
            forall|k: int| 0 <= k < edges@.len() ==> (#[trigger] edges@[k]).0 < n && edges@[k].1 < n,
            forall|v: int| 0 <= v < n ==> #[trigger] indeg@[v] == count_into(edges_view(edges@), v, Seq::empty()),
        decreases n - i,
    {
        proof {
            lemma_constraint_count_mono(bv, av, i as int + 1, n as int);
            assert(bv[i as int] == before@[i as int]@.map_values(|s: String| s@));
            assert(av[i as int] == after@[i as int]@.map_values(|s: String| s@));
            assert(constraint_count(bv, av, i as int + 1) == constraint_count(bv, av, i as int) + before@[i as int]@.len()
                + after@[i as int]@.len());
        }
        let ghost len0 = edges@.len();
        add_list_edges(names, &before[i], i, true, &mut edges, &mut indeg);
        proof {
            lemma_list_edges_len(nv, bv[i as int], i as int, true);
            assert(edges@.len() == edges_view(edges@).len());
            assert(edges@.len() <= len0 + before@[i as int]@.len());
        }
        let ghost len1 = edges@.len();
        add_list_edges(names, &after[i], i, false, &mut edges, &mut indeg);
        proof {
            lemma_list_edges_len(nv, av[i as int], i as int, false);
            assert(edges@.len() == edges_view(edges@).len());
            assert(edges@.len() <= len1 + after@[i as int]@.len());
            assert(edges_view(edges@) =~= dependency_edges(nv, bv, av, i as int + 1));
        }
        i = i + 1;
    }
    let ghost e = edges_view(edges@);
    proof {
        assert forall|k: int| 0 <= k < e.len() implies 0 <= #[trigger] e[k].0 <= usize::MAX && 0 <= e[k].1 < n by {
            assert(e[k] == (edges@[k].0 as int, edges@[k].1 as int));
        }
    }
    let mut q: Vec<usize> = Vec::new();
    let mut v: usize = 0;
    while v < n
        invariant
            v <= n,
            indeg@.len() == n,
            q@.no_duplicates(),
            forall|a: int| 0 <= a < q@.len() ==> #[trigger] q@[a] < v,
            forall|x: int| 0 <= x < q@.len() ==> #[trigger] indeg@[q@[x] as int] == 0,
            forall|x: int| 0 <= x < v ==> #[trigger] indeg@[x] == 0 ==> q@.contains(x as usize),
            q@.len() <= v,
        decreases n - v,
    {
        if indeg[v] == 0 {
            let ghost before = q@;
            q.push(v);
            proof {
                assert(!before.contains(v)) by {
                    if before.contains(v) {
                        let a = choose|a: int| 0 <= a < before.len() && before[a] == v;
                    }
                }
                assert forall|a: int, b: int| 0 <= a < b < q@.len() implies q@[a] != q@[b] by {
                    if b == before.len() {
                        assert(before.contains(before[a]));
                    }
                }
                assert(q@[before.len() as int] == v);
                assert forall|x: usize| #[trigger] before.contains(x) implies q@.contains(x) by {
                    let a = choose|a: int| 0 <= a < before.len() && before[a] == x;
                    assert(q@[a] == x);
                }
            }
        }
        v = v + 1;
    }
    proof {
        assert forall|x: usize| #[trigger] q@.contains(x) implies indeg@[x as int] == 0 by {
            let a = choose|a: int| 0 <= a < q@.len() && q@[a] == x;
        }
        assert forall|k: int| 0 <= k < e.len() && #[trigger] q@.contains(e[k].1 as usize) implies precedes(q@, e[k].0, e[k].1) by {
            lemma_count_zero(e, e[k].1, Seq::empty());
        }
        assert forall|b: Seq<usize>|
            #![trigger blocked(b, e)]
            blocked(b, e) && (forall|a: int| 0 <= a < b.len() ==> #[trigger] b[a] < n) implies forall|a: int|
                0 <= a < b.len() ==> !q@.contains(#[trigger] b[a]) by {
            assert forall|a: int| 0 <= a < b.len() implies !q@.contains(#[trigger] b[a]) by {
                if q@.contains(b[a]) {
                    let k = choose|k: int| 0 <= k < e.len() && e[k].1 == b[a] as int && b.contains(e[k].0 as usize);
                    lemma_count_zero(e, b[a] as int, Seq::empty());
                }
            }
        }
        assert(q@.subrange(0, 0) =~= Seq::<usize>::empty());
    }
    let mut head: usize = 0;
    while head < q.len()
        invariant
            n == names@.len(),
            e == edges_view(edges@),
            e == dependency_edges(nv, bv, av, n as int),
            nv == names_view(names@),
            bv == lists_view(before@),
            av == lists_view(after@),
            forall|k: int| 0 <= k < edges@.len() ==> (#[trigger] edges@[k]).0 < n && edges@[k].1 < n,
            forall|k: int| 0 <= k < e.len() ==> 0 <= #[trigger] e[k].0 <= usize::MAX && 0 <= e[k].1 < n,
            indeg@.len() == n,
            head <= q@.len() <= n,
            q@.no_duplicates(),
            forall|a: int| 0 <= a < q@.len() ==> #[trigger] q@[a] < n,
            forall|x: int| 0 <= x < n ==> #[trigger] indeg@[x] == count_into(e, x, q@.subrange(0, head as int)),
            forall|x: usize| #[trigger] q@.contains(x) ==> indeg@[x as int] == 0,
            forall|x: int| 0 <= x < n ==> #[trigger] indeg@[x] == 0 ==> q@.contains(x as usize),
            forall|k: int| 0 <= k < e.len() && #[trigger] q@.contains(e[k].1 as usize) ==> precedes(q@, e[k].0, e[k].1),
            forall|b: Seq<usize>|
                #![trigger blocked(b, e)]
                blocked(b, e) && (forall|a: int| 0 <= a < b.len() ==> #[trigger] b[a] < n) ==> forall|a: int|
                    0 <= a < b.len() ==> !q@.contains(#[trigger] b[a]),
        decreases n - head,
    {
        let u = q[head];
        let ghost done_old = q@.subrange(0, head as int);
        head = head + 1;
        let ghost done_new = q@.subrange(0, head as int);
        proof {
            assert(done_new =~= done_old.push(u));
            assert(!done_old.contains(u)) by {
                if done_old.contains(u) {
                    let a = choose|a: int| 0 <= a < done_old.len() && done_old[a] == u;
                    assert(q@[a] == q@[head - 1]);
                }
            }
            assert forall|x: int| 0 <= x < n implies #[trigger] indeg@[x] + occurrences(e.subrange(0, 0), u as int, x) == count_into(e, x, done_old) by {
                assert(e.subrange(0, 0) =~= Seq::<(int, int)>::empty());
            }
        }
        let m = edges.len();
        let mut k: usize = 0;
        while k < m
            invariant
                m == edges@.len(),
                k <= m,
                n == names@.len(),
                e == edges_view(edges@),
                forall|k2: int| 0 <= k2 < edges@.len() ==> (#[trigger] edges@[k2]).0 < n && edges@[k2].1 < n,
                forall|k2: int| 0 <= k2 < e.len() ==> 0 <= #[trigger] e[k2].0 <= usize::MAX && 0 <= e[k2].1 < n,
                indeg@.len() == n,
                1 <= head <= q@.len() <= n,
                u == q@[head - 1],
                done_old == q@.subrange(0, head - 1),
                done_new == q@.subrange(0, head as int),
                done_new == done_old.push(u),
                !done_old.contains(u),
                q@.no_duplicates(),
                forall|a: int| 0 <= a < q@.len() ==> #[trigger] q@[a] < n,
                forall|x: int| 0 <= x < n ==> #[trigger] indeg@[x] + occurrences(e.subrange(0, k as int), u as int, x) == count_into(e, x, done_old),
                forall|x: usize| #[trigger] q@.contains(x) ==> indeg@[x as int] == 0,
                forall|x: int| 0 <= x < n ==> #[trigger] indeg@[x] == 0 ==> q@.contains(x as usize),
                forall|k2: int| 0 <= k2 < e.len() && #[trigger] q@.contains(e[k2].1 as usize) ==> precedes(q@, e[k2].0, e[k2].1),
                forall|b: Seq<usize>|
                    #![trigger blocked(b, e)]
                    blocked(b, e) && (forall|a: int| 0 <= a < b.len() ==> #[trigger] b[a] < n) ==> forall|a: int|
                        0 <= a < b.len() ==> !q@.contains(#[trigger] b[a]),
            decreases m - k,
        {
            let (src, dst) = edges[k];
            proof {
                assert(e[k as int] == (src as int, dst as int));
                lemma_occ_bound(e, u as int, dst as int, k as int);
                lemma_occ_bound(e, u as int, dst as int, k as int + 1);
            }
            proof {
                lemma_occ_step(e, u as int, k as int);
            }
            if src == u {
                proof {
                    lemma_count_done_push(e, dst as int, done_old, u);
                }
                let d = indeg[dst] - 1;
                indeg.set(dst, d);
                if d == 0 {
                    let ghost q_before = q@;
                    proof {
                        assert(!q_before.contains(dst)) by {
                            if q_before.contains(dst) {
                                assert(indeg@[dst as int] == 0);
                            }
                        }
                        assert(count_into(e, dst as int, done_new) == 0);
                        lemma_count_zero(e, dst as int, done_new);
                        lemma_push_ready(e, q_before, head as int, dst, n as int);
                        lemma_distinct_bound(q_before.push(dst), n as int);
                    }
                    q.push(dst);
                    proof {
                        assert(q@ == q_before.push(dst));
                        assert(q@.subrange(0, head as int) =~= done_new);
                        assert(q@.subrange(0, head - 1) =~= done_old);
                    }
                }
            }
            k = k + 1;
        }
        proof {
            assert(e.subrange(0, m as int) =~= e);
            assert forall|x: int| 0 <= x < n implies #[trigger] indeg@[x] == count_into(e, x, q@.subrange(0, head as int)) by {
                lemma_count_done_push(e, x, done_old, u);
                assert(q@.subrange(0, head as int) =~= done_new);
            }
        }
    }
    if q.len() == n {
        proof {
            assert forall|kk: int| 0 <= kk < e.len() implies precedes(q@, #[trigger] e[kk].0, e[kk].1) by {
                lemma_perm_contains(q@, n as int);
                assert(q@.contains(e[kk].1 as usize));
            }
        }
        return Ok(q);
    }
    proof {
        assert(q@.subrange(0, head as int) =~= q@);
    }
    let mut rest: Vec<usize> = Vec::new();
    let mut x: usize = 0;
    while x < n
        invariant
            x <= n,
            indeg@.len() == n,
            forall|a: int| 0 <= a < rest@.len() ==> #[trigger] rest@[a] < x,
            forall|a: int, b: int| 0 <= a < b < rest@.len() ==> rest@[a] < rest@[b],
            forall|y: int| 0 <= y < x ==> (#[trigger] rest@.contains(y as usize) <==> indeg@[y] > 0),
        decreases n - x,
    {
        let ghost before = rest@;
        if indeg[x] > 0 {
            rest.push(x);
            proof {
                assert forall|y: int| 0 <= y < x + 1 implies (#[trigger] rest@.contains(y as usize) <==> indeg@[y] > 0) by {
                    if rest@.contains(y as usize) && y < x {
                        let a = choose|a: int| 0 <= a < rest@.len() && rest@[a] == y as usize;
                        if a < before.len() {
                            assert(before[a] == y as usize);
                        }
                    }
                    if y < x && before.contains(y as usize) {
                        let a = choose|a: int| 0 <= a < before.len() && before[a] == y as usize;
                        assert(rest@[a] == y as usize);
                    }
                    if y == x {
                        assert(rest@[before.len() as int] == x);
                    }
                }
            }
        } else {
            proof {
                assert(!before.contains(x)) by {
                    if before.contains(x) {
                        let a = choose|a: int| 0 <= a < before.len() && before[a] == x;
                    }
                }
            }
        }
        x = x + 1;
    }
    proof {
        lemma_rest_blocked(e, q@, indeg@, rest@, n as int);
    }
    Err(rest)
}

/// A sequence of distinct indices below `n` that holds every index below
/// `n` has length `n`.
proof fn lemma_all_in_queue(q: Seq<usize>, n: int)
    requires
        q.no_duplicates(),
        q.len() <= n <= usize::MAX,
        forall|a: int| 0 <= a < q.len() ==> #[trigger] q[a] < n,
        forall|y: usize| y < n ==> #[trigger] q.contains(y),
    ensures
        q.len() == n,
{
    broadcast use vstd::set::group_set_axioms;
    q.unique_seq_to_set();
    lemma_full_len(n);
    let full = Set::new(|x: usize| x < n);
    assert forall|y: usize| full.contains(y) implies q.to_set().contains(y) by {}
    vstd::set_lib::lemma_len_subset(full, q.to_set());
}

proof fn lemma_occ_step(e: Seq<(int, int)>, u: int, k: int)
    requires
        0 <= k < e.len(),
    ensures
        forall|x: int| #[trigger] occurrences(e.subrange(0, k + 1), u, x) == occurrences(e.subrange(0, k), u, x) + if e[k] == (u, x) {
            1nat
        } else {
            0nat
        },
        forall|x: int| occurrences(e.subrange(0, k + 1), u, x) <= #[trigger] occurrences(e, u, x),
{
    assert forall|x: int| #[trigger] occurrences(e.subrange(0, k + 1), u, x) == occurrences(e.subrange(0, k), u, x) + if e[k] == (u, x) {
        1nat
    } else {
        0nat
    } by {
        lemma_occ_bound(e, u, x, k);
    }
    assert forall|x: int| occurrences(e.subrange(0, k + 1), u, x) <= #[trigger] occurrences(e, u, x) by {
        lemma_occ_bound(e, u, x, k + 1);
    }
}

/// Distinct indices below `n` number at most `n`.
proof fn lemma_distinct_bound(q: Seq<usize>, n: int)
    requires
        q.no_duplicates(),
        0 <= n <= usize::MAX,
        forall|a: int| 0 <= a < q.len() ==> #[trigger] q[a] < n,
    ensures
        q.len() <= n,
{
    broadcast use vstd::set::group_set_axioms;
    q.unique_seq_to_set();
    lemma_full_len(n);
    let full = Set::new(|x: usize| x < n);
    assert forall|y: usize| q.to_set().contains(y) implies full.contains(y) by {
        let a = choose|a: int| 0 <= a < q.len() && q[a] == y;
    }
    vstd::set_lib::lemma_len_subset(q.to_set(), full);
}

/// Appending `dst`, all of whose sources are among the first `head` of
/// `q`, keeps `q` free of repeats, keeps every queued target behind its
/// sources, and keeps the queue clear of blocked sets.
proof fn lemma_push_ready(e: Seq<(int, int)>, q: Seq<usize>, head: int, dst: usize, n: int)
    requires
        q.no_duplicates(),
        forall|a: int| 0 <= a < q.len() ==> #[trigger] q[a] < n,
        !q.contains(dst),
        dst < n,
        0 <= n <= usize::MAX,
        1 <= head <= q.len(),
        forall|k: int| 0 <= k < e.len() ==> 0 <= #[trigger] e[k].0 <= usize::MAX,
        forall|k: int| 0 <= k < e.len() ==> 0 <= #[trigger] e[k].1 < n,
        forall|k: int| 0 <= k < e.len() && #[trigger] e[k].1 == dst ==> q.subrange(0, head).contains(e[k].0 as usize),
        forall|k2: int| 0 <= k2 < e.len() && #[trigger] q.contains(e[k2].1 as usize) ==> precedes(q, e[k2].0, e[k2].1),
        forall|b: Seq<usize>|
            #![trigger blocked(b, e)]
            blocked(b, e) && (forall|a: int| 0 <= a < b.len() ==> #[trigger] b[a] < n) ==> forall|a: int|
                0 <= a < b.len() ==> !q.contains(#[trigger] b[a]),
    ensures
        q.push(dst).no_duplicates(),
        forall|a: int| 0 <= a < q.push(dst).len() ==> #[trigger] q.push(dst)[a] < n,
        forall|x: usize| #[trigger] q.push(dst).contains(x) <==> (q.contains(x) || x == dst),
        forall|k2: int| 0 <= k2 < e.len() && #[trigger] q.push(dst).contains(e[k2].1 as usize) ==> precedes(q.push(dst), e[k2].0, e[k2].1),
        forall|b: Seq<usize>|
            #![trigger blocked(b, e)]
            blocked(b, e) && (forall|a: int| 0 <= a < b.len() ==> #[trigger] b[a] < n) ==> forall|a: int|
                0 <= a < b.len() ==> !q.push(dst).contains(#[trigger] b[a]),
{
    let q2 = q.push(dst);
    assert forall|a: int, b: int| 0 <= a < b < q2.len() implies q2[a] != q2[b] by {
        if b == q.len() {
            assert(q.contains(q[a]));
        }
    }
    assert forall|x: usize| #[trigger] q2.contains(x) <==> (q.contains(x) || x == dst) by {
        if q2.contains(x) {
            let a = choose|a: int| 0 <= a < q2.len() && q2[a] == x;
            if a < q.len() {
                assert(q[a] == x);
            }
        }
        if q.contains(x) {
            let a = choose|a: int| 0 <= a < q.len() && q[a] == x;
            assert(q2[a] == x);
        }
        if x == dst {
            assert(q2[q.len() as int] == x);
        }
    }
    assert forall|k2: int| 0 <= k2 < e.len() && #[trigger] q2.contains(e[k2].1 as usize) implies precedes(q2, e[k2].0, e[k2].1) by {
        if q.contains(e[k2].1 as usize) {
            let (a, b) = choose|a: int, b: int| 0 <= a < b < q.len() && q[a] == e[k2].0 && q[b] == e[k2].1;
            assert(q2[a] == q[a] && q2[b] == q[b]);
        } else {
            assert(e[k2].1 as usize == dst);
            assert(0 <= e[k2].1 < n);
            assert(e[k2].1 == dst as int);
            let sub = q.subrange(0, head);
            assert(sub.contains(e[k2].0 as usize));
            let a = choose|a: int| 0 <= a < sub.len() && sub[a] == e[k2].0 as usize;
            assert(q2[a] == e[k2].0 as usize);
            assert(q2[q.len() as int] == dst);
        }
    }
    assert forall|b: Seq<usize>|
        #![trigger blocked(b, e)]
        blocked(b, e) && (forall|a: int| 0 <= a < b.len() ==> #[trigger] b[a] < n) implies forall|a: int|
            0 <= a < b.len() ==> !q2.contains(#[trigger] b[a]) by {
        assert forall|a: int| 0 <= a < b.len() implies !q2.contains(#[trigger] b[a]) by {
            if b[a] == dst {
                let k3 = choose|k3: int| 0 <= k3 < e.len() && e[k3].1 == b[a] as int && b.contains(e[k3].0 as usize);
                let sub = q.subrange(0, head);
                assert(sub.contains(e[k3].0 as usize));
                let a2 = choose|a2: int| 0 <= a2 < b.len() && b[a2] == e[k3].0 as usize;
                let a3 = choose|a3: int| 0 <= a3 < sub.len() && sub[a3] == e[k3].0 as usize;
                assert(q[a3] == b[a2]);
                assert(q.contains(b[a2]));
            }
        }
    }
}

/// What the systems left over by Kahn's algorithm satisfy: with `q`
/// holding every system whose remaining in-degree reached 0, the systems
/// with a positive remaining in-degree form a nonempty blocked set that
/// holds every blocked set.
proof fn lemma_rest_blocked(e: Seq<(int, int)>, q: Seq<usize>, indeg: Seq<usize>, r: Seq<usize>, n: int)
    requires
        0 <= n <= usize::MAX,
        q.len() < n,
        q.no_duplicates(),
        indeg.len() == n,
        forall|a: int| 0 <= a < q.len() ==> #[trigger] q[a] < n,
        forall|k: int| 0 <= k < e.len() ==> 0 <= #[trigger] e[k].0 < n,
        forall|x: int| 0 <= x < n ==> #[trigger] indeg[x] == count_into(e, x, q),
        forall|x: usize| #[trigger] q.contains(x) ==> indeg[x as int] == 0,
        forall|x: int| 0 <= x < n ==> #[trigger] indeg[x] == 0 ==> q.contains(x as usize),
        forall|b: Seq<usize>|
            #![trigger blocked(b, e)]
            blocked(b, e) && (forall|a: int| 0 <= a < b.len() ==> #[trigger] b[a] < n) ==> forall|a: int|
                0 <= a < b.len() ==> !q.contains(#[trigger] b[a]),
        forall|a: int| 0 <= a < r.len() ==> #[trigger] r[a] < n,
        forall|y: int| 0 <= y < n ==> (#[trigger] r.contains(y as usize) <==> indeg[y] > 0),
    ensures
        r.len() > 0,
        blocked(r, e),
        forall|other: Seq<usize>|
            #![trigger blocked(other, e)]
            blocked(other, e) && (forall|a: int| 0 <= a < other.len() ==> #[trigger] other[a] < n) ==> forall|a: int|
                0 <= a < other.len() ==> r.contains(#[trigger] other[a]),
{
    if r.len() == 0 {
        assert forall|y: usize| y < n implies #[trigger] q.contains(y) by {
            assert(!r.contains((y as int) as usize));
            assert(indeg[y as int] == 0);
        }
        lemma_all_in_queue(q, n);
    }
    assert forall|a: int| 0 <= a < r.len() implies exists|kk: int|
        0 <= kk < e.len() && e[kk].1 == #[trigger] r[a] as int && r.contains(e[kk].0 as usize) by {
        let y = r[a];
        assert(r.contains(y));
        assert(r.contains((y as int) as usize));
        assert(indeg[y as int] > 0);
        lemma_count_zero(e, y as int, q);
        let kk = choose|kk: int| 0 <= kk < e.len() && #[trigger] e[kk].1 == y as int && !q.contains(e[kk].0 as usize);
        let w = e[kk].0;
        assert(0 <= w < n);
        assert(!q.contains((w as usize) as usize));
        assert(indeg[w] != 0);
        assert(r.contains(w as usize));
    }
    assert forall|other: Seq<usize>|
        #![trigger blocked(other, e)]
        blocked(other, e) && (forall|a: int| 0 <= a < other.len() ==> #[trigger] other[a] < n) implies forall|a: int|
            0 <= a < other.len() ==> r.contains(#[trigger] other[a]) by {
        assert forall|a: int| 0 <= a < other.len() implies r.contains(#[trigger] other[a]) by {
            assert(!q.contains(other[a]));
            assert(indeg[other[a] as int] != 0);
            assert(r.contains((other[a] as int) as usize));
        }
    }
}


} // verus!
