//! Lists of entries under distinct `u64` keys, read as maps from key to
//! value.

use vstd::prelude::*;

verus! {

/// No two entries share a key.
pub open spec fn keys_distinct<V>(e: Seq<(u64, V)>) -> bool {
    forall|i: int, j: int| 0 <= i < j < e.len() ==> #[trigger] e[i].0 != #[trigger] e[j].0
}

/// The map that a list of entries with distinct keys stands for.
pub open spec fn keyed_map<V>(e: Seq<(u64, V)>) -> Map<u64, V> {
    Map::new(
        |k: u64| exists|i: int| 0 <= i < e.len() && #[trigger] e[i].0 == k,
        |k: u64| e[choose|i: int| 0 <= i < e.len() && #[trigger] e[i].0 == k].1,
    )
}

/// Entry `i` is the map's value under its key.
pub proof fn lemma_keyed_at<V>(e: Seq<(u64, V)>, i: int)
    requires
        keys_distinct(e),
        0 <= i < e.len(),
    ensures
        keyed_map(e).contains_key(e[i].0),
        keyed_map(e)[e[i].0] == e[i].1,
{
    let k = e[i].0;
    assert(exists|j: int| 0 <= j < e.len() && #[trigger] e[j].0 == k);
    let j = choose|j: int| 0 <= j < e.len() && #[trigger] e[j].0 == k;
    assert(j == i);
}

/// A key that no entry holds is not in the map.
pub proof fn lemma_keyed_absent<V>(e: Seq<(u64, V)>, k: u64)
    requires
        forall|j: int| 0 <= j < e.len() ==> #[trigger] e[j].0 != k,
    ensures
        !keyed_map(e).contains_key(k),
{
}

/// Replacing the value of entry `i` replaces the value under its key.
pub proof fn lemma_keyed_update<V>(e: Seq<(u64, V)>, i: int)
    requires
        keys_distinct(e),
        0 <= i < e.len(),
    ensures
        forall|x: V| #[trigger] keyed_map(e.update(i, (e[i].0, x))) == keyed_map(e).insert(e[i].0, x),
        forall|x: V| keys_distinct(#[trigger] e.update(i, (e[i].0, x))),
{
    let k = e[i].0;
    assert forall|x: V| #[trigger] keyed_map(e.update(i, (k, x))) == keyed_map(e).insert(k, x) by {
        let e2 = e.update(i, (k, x));
        assert forall|c: u64| #[trigger] keyed_map(e2).contains_key(c) == keyed_map(e).insert(k, x).contains_key(c) by {
            if exists|j: int| 0 <= j < e.len() && #[trigger] e[j].0 == c {
                let j = choose|j: int| 0 <= j < e.len() && #[trigger] e[j].0 == c;
                assert(e2[j].0 == c);
            }
            if exists|j: int| 0 <= j < e2.len() && #[trigger] e2[j].0 == c {
                let j = choose|j: int| 0 <= j < e2.len() && #[trigger] e2[j].0 == c;
                assert(e[j].0 == c);
            }
            assert(e2[i].0 == k);
            assert(e[i].0 == k);
        }
        assert forall|c: u64| #[trigger] keyed_map(e2).contains_key(c) implies keyed_map(e2)[c] == keyed_map(e).insert(
            k,
            x,
        )[c] by {
            let j2 = choose|j: int| 0 <= j < e2.len() && #[trigger] e2[j].0 == c;
            if c == k {
                assert(j2 == i);
            } else {
                let j = choose|j: int| 0 <= j < e.len() && #[trigger] e[j].0 == c;
                assert(e2[j].0 == c);
                assert(j == j2);
            }
        }
        assert(keyed_map(e2) =~= keyed_map(e).insert(k, x));
    }
    assert forall|x: V| keys_distinct(#[trigger] e.update(i, (k, x))) by {
        let e2 = e.update(i, (k, x));
        assert forall|a: int, b: int| 0 <= a < b < e2.len() implies #[trigger] e2[a].0 != #[trigger] e2[b].0 by {
            assert(e2[a].0 == e[a].0);
            assert(e2[b].0 == e[b].0);
        }
    }
}

/// Adding an entry under a new key adds that key to the map.
pub proof fn lemma_keyed_push<V>(e: Seq<(u64, V)>, k: u64, x: V)
    requires
        keys_distinct(e),
        forall|j: int| 0 <= j < e.len() ==> #[trigger] e[j].0 != k,
    ensures
        keys_distinct(e.push((k, x))),
        keyed_map(e.push((k, x))) == keyed_map(e).insert(k, x),
{
    let e2 = e.push((k, x));
    assert forall|c: u64| #[trigger] keyed_map(e2).contains_key(c) == keyed_map(e).insert(k, x).contains_key(c) by {
        if exists|j: int| 0 <= j < e.len() && #[trigger] e[j].0 == c {
            let j = choose|j: int| 0 <= j < e.len() && #[trigger] e[j].0 == c;
            assert(e2[j].0 == c);
        }
        if exists|j: int| 0 <= j < e2.len() && #[trigger] e2[j].0 == c {
            let j = choose|j: int| 0 <= j < e2.len() && #[trigger] e2[j].0 == c;
            if j < e.len() {
                assert(e[j].0 == c);
            }
        }
        assert(e2[e.len() as int].0 == k);
    }
    assert forall|c: u64| #[trigger] keyed_map(e2).contains_key(c) implies keyed_map(e2)[c] == keyed_map(e).insert(
        k,
        x,
    )[c] by {
        let j2 = choose|j: int| 0 <= j < e2.len() && #[trigger] e2[j].0 == c;
        if c == k {
            assert(j2 == e.len());
        } else {
            let j = choose|j: int| 0 <= j < e.len() && #[trigger] e[j].0 == c;
            assert(e2[j].0 == c);
            assert(j == j2);
        }
    }
    assert(keyed_map(e2) =~= keyed_map(e).insert(k, x));
}

/// Dropping entry `i` drops its key from the map.
pub proof fn lemma_keyed_remove<V>(e: Seq<(u64, V)>, i: int)
    requires
        keys_distinct(e),
        0 <= i < e.len(),
    ensures
        keys_distinct(e.remove(i)),
        keyed_map(e.remove(i)) == keyed_map(e).remove(e[i].0),
{
    let k = e[i].0;
    let e2 = e.remove(i);
    assert forall|a: int, b: int| 0 <= a < b < e2.len() implies #[trigger] e2[a].0 != #[trigger] e2[b].0 by {
        let a1 = if a < i { a } else { a + 1 };
        let b1 = if b < i { b } else { b + 1 };
        assert(e2[a] == e[a1]);
        assert(e2[b] == e[b1]);
    }
    assert forall|c: u64| #[trigger] keyed_map(e2).contains_key(c) == keyed_map(e).remove(k).contains_key(c) by {
        if exists|j: int| 0 <= j < e.len() && #[trigger] e[j].0 == c {
            let j = choose|j: int| 0 <= j < e.len() && #[trigger] e[j].0 == c;
            if j < i {
                assert(e2[j].0 == c);
            } else if j > i {
                assert(e2[j - 1].0 == c);
            }
        }
        if exists|j: int| 0 <= j < e2.len() && #[trigger] e2[j].0 == c {
            let j = choose|j: int| 0 <= j < e2.len() && #[trigger] e2[j].0 == c;
            let j1 = if j < i { j } else { j + 1 };
            assert(e[j1].0 == c);
        }
    }
    assert forall|c: u64| #[trigger] keyed_map(e2).contains_key(c) implies keyed_map(e2)[c] == keyed_map(e).remove(
        k,
    )[c] by {
        let j2 = choose|j: int| 0 <= j < e2.len() && #[trigger] e2[j].0 == c;
        let j1 = if j2 < i { j2 } else { j2 + 1 };
        assert(e[j1].0 == c);
        let j = choose|j: int| 0 <= j < e.len() && #[trigger] e[j].0 == c;
        assert(j == j1);
    }
    assert(keyed_map(e2) =~= keyed_map(e).remove(k));
}

/// Where the entry under `key` stands, if there is one.
pub fn find_key<V>(e: &Vec<(u64, V)>, key: u64) -> (r: Option<usize>)
    ensures
        match r {
            Some(i) => i < e@.len() && e@[i as int].0 == key,
            None => forall|i: int| 0 <= i < e@.len() ==> #[trigger] e@[i].0 != key,
        },
{
    let mut i: usize = 0;
    while i < e.len()
        invariant
            i <= e@.len(),
            forall|j: int| 0 <= j < i ==> #[trigger] e@[j].0 != key,
        decreases e@.len() - i,
    {
        if e[i].0 == key {
            return Some(i);
        }
        i = i + 1;
    }
    None
}

} // verus!
