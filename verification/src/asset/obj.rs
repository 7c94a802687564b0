//! The integer side of Wavefront OBJ meshes: face vertex references
//! (`v`, `v/vt`, `v//vn`, `v/vt/vn`, 1-based or negative from the end),
//! their resolution against the numbers of positions, texture coordinates
//! and normals, the sharing of equal vertices, and the fan triangulation of
//! polygons. Reading the coordinates themselves is left to the caller.

use std::collections::HashMap;
use vstd::prelude::*;
use vstd::std_specs::iter::IteratorSpec;
use crate::text::string_from_chars;

verus! {

/// Why faces of an OBJ file cannot be turned into triangles.
#[derive(Clone, Copy, Debug, PartialEq, Eq, Structural)]
pub enum ObjError {
    /// Face `f` has fewer than three vertices.
    FaceTooSmall(usize),
    InvalidVertexIndex,
    InvalidTexcoordIndex,
    InvalidNormalIndex,
    /// A face vertex with more than two `/`.
    InvalidFaceVertex,
    /// Index 0, which OBJ never uses.
    IndexZero,
    /// A negative index reaching before the first element of `count`.
    NegativeIndexOutOfRange(i64, usize),
    /// A positive index past the last element of `count`.
    IndexOutOfRange(i64, usize),
}

/// A vertex: 0-based position, texture coordinate and normal indices.
pub type VertexKey = (usize, Option<usize>, Option<usize>);

/// A face vertex as written: 1-based (or negative, from the end) indices.
pub type FaceVertex = (i64, Option<i64>, Option<i64>);

/// The 0-based index that OBJ index `idx` names among `count` elements.
pub open spec fn obj_index_spec(idx: i64, count: usize) -> Result<usize, ObjError> {
    if idx > 0 {
        if idx - 1 >= count {
            Err(ObjError::IndexOutOfRange(idx, count))
        } else {
            Ok((idx - 1) as usize)
        }
    } else if idx < 0 {
        if -idx > count {
            Err(ObjError::NegativeIndexOutOfRange(idx, count))
        } else {
            Ok((count + idx) as usize)
        }
    } else {
        Err(ObjError::IndexZero)
    }
}

/// Convert a 1-based OBJ index, or a negative one counted from the end, to
/// a 0-based index among `count` elements.
pub fn obj_index(idx: i64, count: usize) -> (r: Result<usize, ObjError>)
    ensures
        r == obj_index_spec(idx, count),
{
    if idx > 0 {
        let i: u64 = (idx - 1) as u64;
        if i >= count as u64 {
            return Err(ObjError::IndexOutOfRange(idx, count));
        }
        Ok(i as usize)
    } else if idx < 0 {
        let abs: u64 = if idx == i64::MIN {
            0x8000_0000_0000_0000u64
        } else {
            (-idx) as u64
        };
        if abs > count as u64 {
            return Err(ObjError::NegativeIndexOutOfRange(idx, count));
        }
        Ok(count - abs as usize)
    } else {
        Err(ObjError::IndexZero)
    }
}

/// Resolve a face vertex against the numbers of positions, texture
/// coordinates and normals; the position is checked first, the normal last.
pub open spec fn resolve_spec(fv: FaceVertex, positions: usize, texcoords: usize, normals: usize) -> Result<VertexKey, ObjError> {
    match obj_index_spec(fv.0, positions) {
        Err(e) => Err(e),
        Ok(p) => match fv.1 {
            Some(t) => match obj_index_spec(t, texcoords) {
                Err(e) => Err(e),
                Ok(t0) => match fv.2 {
                    Some(n) => match obj_index_spec(n, normals) {
                        Err(e) => Err(e),
                        Ok(n0) => Ok((p, Some(t0), Some(n0))),
                    },
                    None => Ok((p, Some(t0), None)),
                },
            },
            None => match fv.2 {
                Some(n) => match obj_index_spec(n, normals) {
                    Err(e) => Err(e),
                    Ok(n0) => Ok((p, None, Some(n0))),
                },
                None => Ok((p, None, None)),
            },
        },
    }
}

pub fn resolve(fv: FaceVertex, positions: usize, texcoords: usize, normals: usize) -> (r: Result<VertexKey, ObjError>)
    ensures
        r == resolve_spec(fv, positions, texcoords, normals),
{
    let p = match obj_index(fv.0, positions) {
        Ok(p) => p,
        Err(e) => return Err(e),
    };
    let t = match fv.1 {
        Some(t) => match obj_index(t, texcoords) {
            Ok(t0) => Some(t0),
            Err(e) => return Err(e),
        },
        None => None,
    };
    let n = match fv.2 {
        Some(n) => match obj_index(n, normals) {
            Ok(n0) => Some(n0),
            Err(e) => return Err(e),
        },
        None => None,
    };
    Ok((p, t, n))
}

/// The 0-based element that OBJ index `idx` names among `count` elements:
/// `1..=count` name `0..count`, and `-1..=-count` name them from the last
/// one back; any other index names none.
pub open spec fn named_element(idx: i64, count: usize) -> Option<int> {
    if 1 <= idx && idx <= count {
        Some(idx - 1)
    } else if idx < 0 && -idx <= count {
        Some(count + idx)
    } else {
        None
    }
}

/// An OBJ index converts exactly when it names an element among `count`,
/// and then to that element's 0-based index, which is below `count`.
pub proof fn lemma_obj_index_names(idx: i64, count: usize)
    ensures
        obj_index_spec(idx, count) is Ok <==> named_element(idx, count) is Some,
        obj_index_spec(idx, count) matches Ok(i) ==> Some(i as int) == named_element(idx, count) && i < count,
{
}

/// A face vertex resolves component by component, each against its own
/// count: the position index among `positions`, the texture coordinate
/// index among `texcoords` and the normal index among `normals`. It resolves
/// exactly when every index it has names an element of its own kind, and
/// each part of the key is that element (absent where the face vertex has
/// no such index); so the texture coordinate and normal a vertex gets do
/// not depend on how many positions there are.
pub proof fn lemma_resolve_components(fv: FaceVertex, positions: usize, texcoords: usize, normals: usize)
    ensures
        resolve_spec(fv, positions, texcoords, normals) is Ok <==> {
            &&& named_element(fv.0, positions) is Some
            &&& (fv.1 matches Some(t) ==> named_element(t, texcoords) is Some)
            &&& (fv.2 matches Some(n) ==> named_element(n, normals) is Some)
        },
        resolve_spec(fv, positions, texcoords, normals) matches Ok(k) ==> {
            &&& Some(k.0 as int) == named_element(fv.0, positions)
            &&& match fv.1 {
                Some(t) => k.1 matches Some(x) && Some(x as int) == named_element(t, texcoords),
                None => k.1 is None,
            }
            &&& match fv.2 {
                Some(n) => k.2 matches Some(x) && Some(x as int) == named_element(n, normals),
                None => k.2 is None,
            }
        },
{
    lemma_obj_index_names(fv.0, positions);
    if let Some(t) = fv.1 {
        lemma_obj_index_names(t, texcoords);
    }
    if let Some(n) = fv.2 {
        lemma_obj_index_names(n, normals);
    }
}

/// `keys` with each of `more` appended unless it is already there.
pub open spec fn add_keys(keys: Seq<VertexKey>, more: Seq<VertexKey>) -> Seq<VertexKey>
    decreases more.len(),
{
    if more.len() == 0 {
        keys
    } else {
        let k = more.last();
        let prev = add_keys(keys, more.drop_last());
        if prev.contains(k) {
            prev
        } else {
            prev.push(k)
        }
    }
}

/// The triangles of a polygon with vertex indices `v`, fanned out from its
/// first vertex: `(v0, v1, v2), (v0, v2, v3), ...`.
pub open spec fn fan(v: Seq<u32>) -> Seq<u32>
    decreases v.len(),
{
    if v.len() < 3 {
        Seq::empty()
    } else {
        fan(v.drop_last()) + seq![v[0], v[v.len() - 2], v.last()]
    }
}

/// Read face-vertex token `t` and resolve it.
pub open spec fn resolve_token(t: Seq<char>, positions: usize, texcoords: usize, normals: usize) -> Result<VertexKey, ObjError> {
    match face_vertex_spec(t) {
        Err(e) => Err(e),
        Ok(fv) => resolve_spec(fv, positions, texcoords, normals),
    }
}

/// Read and resolve every vertex token of a face, in order, stopping at the
/// first failure.
pub open spec fn resolve_face(face: Seq<Seq<char>>, positions: usize, texcoords: usize, normals: usize) -> Result<
    Seq<VertexKey>,
    ObjError,
>
    decreases face.len(),
{
    if face.len() == 0 {
        Ok(Seq::empty())
    } else {
        match resolve_face(face.drop_last(), positions, texcoords, normals) {
            Err(e) => Err(e),
            Ok(ks) => match resolve_token(face.last(), positions, texcoords, normals) {
                Err(e) => Err(e),
                Ok(k) => Ok(ks.push(k)),
            },
        }
    }
}

/// Faces `f..` added to the vertices `keys` and triangle indices `tris`
/// built from the faces before: each face needs three vertex tokens, each
/// token reads as a face vertex that resolves, equal vertices are shared (numbered by first
/// appearance), and each face is fanned into triangles.
pub open spec fn faces_spec(
    faces: Seq<Seq<Seq<char>>>,
    f: int,
    positions: usize,
    texcoords: usize,
    normals: usize,
    keys: Seq<VertexKey>,
    tris: Seq<u32>,
) -> Result<(Seq<VertexKey>, Seq<u32>), ObjError>
    decreases faces.len() - f,
{
    if f < 0 || f >= faces.len() {
        Ok((keys, tris))
    } else if faces[f].len() < 3 {
        Err(ObjError::FaceTooSmall(f as usize))
    } else {
        match resolve_face(faces[f], positions, texcoords, normals) {
            Err(e) => Err(e),
            Ok(ks) => {
                let keys2 = add_keys(keys, ks);
                let ids = ks.map_values(|k: VertexKey| keys2.index_of(k) as u32);
                faces_spec(faces, f + 1, positions, texcoords, normals, keys2, tris + fan(ids))
            },
        }
    }
}

/// The vertex tokens of one face, as text.
pub open spec fn tokens_view(face: Seq<String>) -> Seq<Seq<char>> {
    face.map_values(|t: String| t@)
}

/// The faces' vertex tokens, as text.
pub open spec fn faces_view(faces: Seq<Vec<String>>) -> Seq<Seq<Seq<char>>> {
    faces.map_values(|f: Vec<String>| tokens_view(f@))
}

/// Every vertex of `keys` is registered in `buckets` under its position
/// index, with its number, and every registration names a vertex of `keys`.
spec fn buckets_match(keys: Seq<VertexKey>, buckets: Map<usize, Vec<(Option<usize>, Option<usize>, usize)>>) -> bool {
    &&& forall|i: int|
        0 <= i < keys.len() ==> buckets.contains_key(#[trigger] keys[i].0 ) && exists|j: int|
            0 <= j < buckets[keys[i].0 ]@.len() && #[trigger] buckets[keys[i].0 ]@[j] == (keys[i].1, keys[i].2, i as usize)
    &&& forall|p: usize, j: int|
        #![trigger buckets[p]@[j]]
        buckets.contains_key(p) && 0 <= j < buckets[p]@.len() ==> {
            let e = buckets[p]@[j];
            &&& e.2 < keys.len()
            &&& keys[e.2 as int] == (p, e.0, e.1)
        }
}

proof fn lemma_index_of_unique(s: Seq<VertexKey>, i: int)
    requires
        s.no_duplicates(),
        0 <= i < s.len(),
    ensures
        s.index_of(s[i]) == i,
{
    assert(s.contains(s[i]));
    let c = s.index_of(s[i]);
    assert(0 <= c < s.len() && s[c] == s[i]);
}

/// The vertex number of `key` in `keys`, adding it when new.
fn intern_key(
    keys: &mut Vec<VertexKey>,
    buckets: &mut HashMap<usize, Vec<(Option<usize>, Option<usize>, usize)>>,
    key: VertexKey,
) -> (idx: usize)
    requires
        old(keys)@.no_duplicates(),
        buckets_match(old(keys)@, old(buckets)@),
    ensures
        final(keys)@.no_duplicates(),
        buckets_match(final(keys)@, final(buckets)@),
        final(keys)@ == add_keys(old(keys)@, seq![key]),
        idx < final(keys)@.len(),
        final(keys)@[idx as int] == key,
        final(keys)@.len() >= old(keys)@.len(),
        forall|i: int| 0 <= i < old(keys)@.len() ==> #[trigger] final(keys)@[i] == old(keys)@[i],
{
    broadcast use vstd::std_specs::hash::group_hash_axioms;
    let p = key.0;
    proof {
        assert(seq![key].drop_last() =~= Seq::<VertexKey>::empty());
        assert(seq![key].last() == key);
    }
    match buckets.get(&p) {
        Some(bucket) => {
            let mut j: usize = 0;
            while j < bucket.len()
                invariant
                    j <= bucket@.len(),
                    p == key.0,
                    buckets@.contains_key(p),
                    *bucket == buckets@[p],
                    buckets_match(keys@, buckets@),
                    keys@ == old(keys)@,
                    keys@.no_duplicates(),
                    forall|m: int| 0 <= m < j ==> (#[trigger] bucket@[m]).0 != key.1 || bucket@[m].1 != key.2,
                decreases bucket@.len() - j,
            {
                let e = bucket[j];
                if e.0 == key.1 && e.1 == key.2 {
                    proof {
                        assert(buckets@[p]@[j as int] == e);
                        assert(keys@[e.2 as int] == key);
                        assert(keys@.contains(key));
                        assert(seq![key].drop_last() =~= Seq::<VertexKey>::empty());
                        assert(seq![key].last() == key);
                        assert(add_keys(keys@, Seq::<VertexKey>::empty()) == keys@);
                        assert(add_keys(keys@, seq![key]) == keys@);
                    }
                    return e.2;
                }
                j = j + 1;
            }
            proof {
                if keys@.contains(key) {
                    let i = choose|i: int| 0 <= i < keys@.len() && keys@[i] == key;
                    let m = choose|m: int| 0 <= m < buckets@[keys@[i].0 ]@.len() && #[trigger] buckets@[keys@[i].0 ]@[m] == (keys@[i].1, keys@[i].2, i as usize);
                    assert(bucket@[m] == (key.1, key.2, i as usize));
                }
            }
        },
        None => {
            proof {
                if keys@.contains(key) {
                    let i = choose|i: int| 0 <= i < keys@.len() && keys@[i] == key;
                    assert(buckets@.contains_key(keys@[i].0 ));
                }
            }
        },
    }
    let idx = keys.len();
    let ghost old_keys = keys@;
    let ghost old_buckets = buckets@;
    keys.push(key);
    let mut bucket = match buckets.remove(&p) {
        Some(b) => b,
        None => Vec::new(),
    };
    let ghost old_bucket = bucket@;
    let ghost mid = buckets@;
    proof {
        assert(mid == old_buckets.remove(p));
        if old_buckets.contains_key(p) {
            assert(old_bucket == old_buckets[p]@);
        }
    }
    bucket.push((key.1, key.2, idx));
    buckets.insert(p, bucket);
    proof {
        assert(!old_keys.contains(key));
        assert(add_keys(old_keys, Seq::<VertexKey>::empty()) == old_keys);
        assert(keys@ =~= old_keys.push(key));
        assert forall|a: int, b: int| 0 <= a < b < keys@.len() implies keys@[a] != keys@[b] by {
            if b == old_keys.len() {
                assert(old_keys.contains(old_keys[a]));
            }
        }
        assert forall|i: int| 0 <= i < keys@.len() implies buckets@.contains_key(#[trigger] keys@[i].0 ) && exists|j: int|
            0 <= j < buckets@[keys@[i].0 ]@.len() && #[trigger] buckets@[keys@[i].0 ]@[j] == (keys@[i].1, keys@[i].2, i as usize) by {
            if i == old_keys.len() {
                assert(keys@[i] == key);
                assert(buckets@[p]@[old_bucket.len() as int] == (key.1, key.2, idx));
            } else {
                assert(keys@[i] == old_keys[i]);
                let q = keys@[i].0;
                assert(old_buckets.contains_key(q));
                let j = choose|j: int| 0 <= j < old_buckets[q]@.len() && #[trigger] old_buckets[q]@[j] == (old_keys[i].1, old_keys[i].2, i as usize);
                if q == p {
                    assert(old_bucket == old_buckets[p]@);
                    assert(buckets@[q]@[j] == old_buckets[q]@[j]);
                } else {
                    assert(buckets@[q] == old_buckets[q]);
                }
            }
        }
        assert forall|q: usize, j: int|
            #![trigger buckets@[q]@[j]]
            buckets@.contains_key(q) && 0 <= j < buckets@[q]@.len() implies {
                let e = buckets@[q]@[j];
                &&& e.2 < keys@.len()
                &&& keys@[e.2 as int] == (q, e.0, e.1)
            } by {
            if q == p {
                if j < old_bucket.len() {
                    assert(old_buckets.contains_key(p));
                    assert(old_bucket == old_buckets[p]@);
                    assert(buckets@[q]@[j] == old_buckets[p]@[j]);
                }
            } else {
                assert(buckets@[q] == old_buckets[q]);
            }
        }
    }
    idx
}

/// Turn faces, each a list of vertex tokens such as `1/2/3`, into shared
/// vertices and triangle indices. Face by face: a face must have three
/// tokens or more; token by token, each must read as a face vertex whose
/// references lie within the numbers of positions, texture coordinates and
/// normals.
pub fn build_faces(faces: &[Vec<String>], positions: usize, texcoords: usize, normals: usize) -> (r: Result<
    (Vec<VertexKey>, Vec<u32>),
    ObjError,
>)
    ensures
        match r {
            Ok((keys, tris)) => {
                &&& faces_spec(faces_view(faces@), 0, positions, texcoords, normals, Seq::empty(), Seq::empty())
                    == Ok::<(Seq<VertexKey>, Seq<u32>), ObjError>((keys@, tris@))
                &&& keys@.no_duplicates()
                &&& tris@.len() % 3 == 0
                &&& forall|i: int| 0 <= i < tris@.len() ==> #[trigger] tris@[i] < keys@.len()
            },
            Err(e) => faces_spec(faces_view(faces@), 0, positions, texcoords, normals, Seq::empty(), Seq::empty())
                == Err::<(Seq<VertexKey>, Seq<u32>), ObjError>(e),
        },
{
    broadcast use vstd::std_specs::hash::group_hash_axioms;
    let ghost fs = faces_view(faces@);
    let ghost goal = faces_spec(fs, 0, positions, texcoords, normals, Seq::empty(), Seq::empty());
    let mut keys: Vec<VertexKey> = Vec::new();
    let mut buckets: HashMap<usize, Vec<(Option<usize>, Option<usize>, usize)>> = HashMap::new();
    let mut tris: Vec<u32> = Vec::new();
    let n = faces.len();
    let mut f: usize = 0;
    proof {
        assert(buckets_match(keys@, buckets@));
    }
    while f < n
        invariant
            f <= n,
            n == faces@.len(),
            fs == faces_view(faces@),
            goal == faces_spec(fs, 0, positions, texcoords, normals, Seq::empty(), Seq::empty()),
            goal == faces_spec(fs, f as int, positions, texcoords, normals, keys@, tris@),
            keys@.no_duplicates(),
            buckets_match(keys@, buckets@),
            tris@.len() % 3 == 0,
            forall|i: int| 0 <= i < tris@.len() ==> #[trigger] tris@[i] < keys@.len(),
        decreases n - f,
    {
        let face = &faces[f];
        let ghost tv = tokens_view(face@);
        proof {
            assert(fs[f as int] == tv);
        }
        let m = face.len();
        if m < 3 {
            return Err(ObjError::FaceTooSmall(f));
        }
        let mut ks: Vec<VertexKey> = Vec::new();
        let mut j: usize = 0;
        proof {
            assert(tv.subrange(0, 0) =~= Seq::<Seq<char>>::empty());
        }
        while j < m
            invariant
                j <= m,
                m == face@.len(),
                tv == tokens_view(face@),
                m >= 3,
                f < n,
                n == faces@.len(),
                fs == faces_view(faces@),
                fs[f as int] == tv,
                goal == faces_spec(fs, 0, positions, texcoords, normals, Seq::empty(), Seq::empty()),
                goal == faces_spec(fs, f as int, positions, texcoords, normals, keys@, tris@),
                ks@.len() == j,
                resolve_face(tv.subrange(0, j as int), positions, texcoords, normals) == Ok::<Seq<VertexKey>, ObjError>(ks@),
            decreases m - j,
        {
            proof {
                assert(tv.subrange(0, j + 1).drop_last() =~= tv.subrange(0, j as int));
                assert(tv.subrange(0, j + 1).last() == face@[j as int]@);
            }
            let key = match parse_face_vertex(face[j].as_str()) {
                Ok(fv) => resolve(fv, positions, texcoords, normals),
                Err(e) => Err(e),
            };
            match key {
                Ok(k) => ks.push(k),
                Err(e) => {
                    proof {
                        assert(resolve_face(tv.subrange(0, j + 1), positions, texcoords, normals) == Err::<Seq<VertexKey>, ObjError>(e));
                        lemma_resolve_prefix_err(tv, j as int + 1, positions, texcoords, normals);
                    }
                    return Err(e);
                },
            }
            j = j + 1;
        }
        proof {
            assert(tv.subrange(0, m as int) =~= tv);
        }
        let ghost keys0 = keys@;
        let mut ids: Vec<usize> = Vec::new();
        let mut j: usize = 0;
        proof {
            assert(ks@.subrange(0, 0) =~= Seq::<VertexKey>::empty());
        }
        while j < m
            invariant
                j <= m,
                ks@.len() == m,
                ids@.len() == j,
                keys@.no_duplicates(),
                buckets_match(keys@, buckets@),
                keys@ == add_keys(keys0, ks@.subrange(0, j as int)),
                forall|a: int| 0 <= a < j ==> #[trigger] ids@[a] < keys@.len() && keys@[ids@[a] as int] == ks@[a],
                keys@.len() >= keys0.len(),
                tris@.len() % 3 == 0,
                forall|t: int| 0 <= t < tris@.len() ==> #[trigger] tris@[t] < keys0.len(),
            decreases m - j,
        {
            let ghost before = keys@;
            let idx = intern_key(&mut keys, &mut buckets, ks[j]);
            ids.push(idx);
            proof {
                assert(ks@.subrange(0, j + 1).drop_last() =~= ks@.subrange(0, j as int));
                assert(ks@.subrange(0, j + 1).last() == ks@[j as int]);
                assert(seq![ks@[j as int]].drop_last() =~= Seq::<VertexKey>::empty());
                assert(seq![ks@[j as int]].last() == ks@[j as int]);
                assert(add_keys(before, Seq::<VertexKey>::empty()) == before);
                assert(add_keys(keys0, ks@.subrange(0, j + 1)) == add_keys(before, seq![ks@[j as int]]));
                assert forall|a: int| 0 <= a < j + 1 implies #[trigger] ids@[a] < keys@.len() && keys@[ids@[a] as int] == ks@[a] by {
                    if a < j {
                        assert(keys@[ids@[a] as int] == before[ids@[a] as int]);
                    }
                }
            }
            j = j + 1;
        }
        proof {
            assert(ks@.subrange(0, m as int) =~= ks@);
        }
        let ghost spec_ids = ks@.map_values(|k: VertexKey| keys@.index_of(k) as u32);
        proof {
            assert forall|a: int| 0 <= a < m implies #[trigger] spec_ids[a] == ids@[a] as u32 by {
                lemma_index_of_unique(keys@, ids@[a] as int);
            }
        }
        let ghost tris0 = tris@;
        let mut i: usize = 1;
        proof {
            assert(spec_ids.subrange(0, 2).len() == 2);
            assert(fan(spec_ids.subrange(0, 2)) =~= Seq::<u32>::empty());
            assert(tris@ =~= tris0 + fan(spec_ids.subrange(0, 2)));
        }
        while i + 1 < m
            invariant
                1 <= i < m,
                m == spec_ids.len(),
                ids@.len() == m,
                forall|a: int| 0 <= a < m ==> #[trigger] spec_ids[a] == ids@[a] as u32,
                tris@ == tris0 + fan(spec_ids.subrange(0, i + 1)),
                tris@.len() % 3 == 0,
                forall|a: int| 0 <= a < m ==> #[trigger] ids@[a] < keys@.len(),
                forall|t: int| 0 <= t < tris@.len() ==> #[trigger] tris@[t] < keys@.len(),
            decreases m - i,
        {
            tris.push(ids[0] as u32);
            tris.push(ids[i] as u32);
            tris.push(ids[i + 1] as u32);
            proof {
                let sub = spec_ids.subrange(0, i + 2);
                assert(sub.drop_last() =~= spec_ids.subrange(0, i + 1));
                assert(sub[0] == spec_ids[0]);
                assert(sub[sub.len() - 2] == spec_ids[i as int]);
                assert(sub.last() == spec_ids[i + 1]);
                assert(tris@ =~= tris0 + fan(sub));
            }
            i = i + 1;
        }
        proof {
            assert(spec_ids.subrange(0, m as int) =~= spec_ids);
        }
        f = f + 1;
    }
    Ok((keys, tris))
}

proof fn lemma_resolve_prefix_err(face: Seq<Seq<char>>, j: int, positions: usize, texcoords: usize, normals: usize)
    requires
        0 < j <= face.len(),
        resolve_face(face.subrange(0, j), positions, texcoords, normals) is Err,
    ensures
        resolve_face(face, positions, texcoords, normals) == resolve_face(face.subrange(0, j), positions, texcoords, normals),
    decreases face.len() - j,
{
    if j < face.len() {
        assert(face.subrange(0, j + 1).drop_last() =~= face.subrange(0, j));
        lemma_resolve_prefix_err(face, j + 1, positions, texcoords, normals);
    } else {
        assert(face.subrange(0, j) =~= face);
    }
}

/// The pieces of `s` between `/` characters, empty ones included.
pub open spec fn split_slash(s: Seq<char>) -> Seq<Seq<char>>
    decreases s.len(),
{
    if s.len() == 0 {
        seq![Seq::empty()]
    } else {
        let r = split_slash(s.drop_last());
        if s.last() == '/' {
            r.push(Seq::empty())
        } else {
            r.update(r.len() - 1, r.last().push(s.last()))
        }
    }
}

proof fn lemma_split_nonempty(s: Seq<char>)
    ensures
        split_slash(s).len() >= 1,
    decreases s.len(),
{
    if s.len() > 0 {
        lemma_split_nonempty(s.drop_last());
    }
}

/// The value of the ASCII digits `s`.
pub open spec fn digits_value(s: Seq<char>) -> int
    decreases s.len(),
{
    if s.len() == 0 {
        0
    } else {
        digits_value(s.drop_last()) * 10 + (s.last() as int - '0' as int)
    }
}

/// `s` is one or more ASCII digits.
pub open spec fn all_digits(s: Seq<char>) -> bool {
    s.len() > 0 && forall|i: int| 0 <= i < s.len() ==> '0' <= #[trigger] s[i] <= '9'
}

/// What `i64`'s `FromStr` accepts: an optional `+` or `-`, then one or
/// more ASCII digits, with a value in range.
pub open spec fn decimal_i64(s: Seq<char>) -> Option<i64> {
    let signed = s.len() > 0 && (s[0] == '-' || s[0] == '+');
    let body = if signed { s.drop_first() } else { s };
    let v = if s.len() > 0 && s[0] == '-' { -digits_value(body) } else { digits_value(body) };
    if all_digits(body) && i64::MIN <= v <= i64::MAX {
        Some(v as i64)
    } else {
        None
    }
}

/// Calls `str::parse::<i64>`, which the standard library documents as
/// accepting exactly an optional sign followed by digits whose value fits.
#[verifier::external_body]
fn parse_i64(s: &str) -> (r: Option<i64>)
    ensures
        r == decimal_i64(s@),
{
    s.parse::<i64>().ok()
}

/// The pieces of `s` between `/` characters.
fn split_on_slash(s: &str) -> (parts: Vec<&str>)
    ensures
        parts@.map_values(|p: &str| p@) == split_slash(s@),
{
    let n = s.unicode_len();
    let mut parts: Vec<&str> = Vec::new();
    let mut start: usize = 0;
    let mut i: usize = 0;
    proof {
        assert(s@.subrange(0, 0) =~= Seq::<char>::empty());
        assert(parts@.map_values(|p: &str| p@).push(s@.subrange(0, 0)) =~= seq![Seq::<char>::empty()]);
    }
    while i < n
        invariant
            i <= n,
            n == s@.len(),
            start <= i,
            split_slash(s@.subrange(0, i as int)) == parts@.map_values(|p: &str| p@).push(s@.subrange(start as int, i as int)),
        decreases n - i,
    {
        let c = s.get_char(i);
        let ghost prev = s@.subrange(0, i as int);
        proof {
            assert(s@.subrange(0, i + 1).drop_last() =~= prev);
            assert(s@.subrange(0, i + 1).last() == c);
        }
        if c == '/' {
            let piece = s.substring_char(start, i);
            parts.push(piece);
            start = i + 1;
            proof {
                assert(s@.subrange(start as int, i + 1) =~= Seq::<char>::empty());
            }
        } else {
            proof {
                assert(s@.subrange(start as int, i + 1) =~= s@.subrange(start as int, i as int).push(c));
            }
        }
        i = i + 1;
        proof {
            assert(parts@.map_values(|p: &str| p@).push(s@.subrange(start as int, i as int)) =~= split_slash(s@.subrange(0, i as int)));
        }
    }
    let last = s.substring_char(start, n);
    parts.push(last);
    proof {
        assert(s@.subrange(0, n as int) =~= s@);
        assert(parts@.map_values(|p: &str| p@) =~= split_slash(s@));
    }
    parts
}

/// A face vertex `v`, `v/vt`, `v//vn` or `v/vt/vn` as written in `s`, or
/// which part is not a number.
pub open spec fn face_vertex_spec(s: Seq<char>) -> Result<FaceVertex, ObjError> {
    let parts = split_slash(s);
    if parts.len() == 1 {
        match decimal_i64(parts[0]) {
            Some(v) => Ok((v, None, None)),
            None => Err(ObjError::InvalidVertexIndex),
        }
    } else if parts.len() == 2 {
        match decimal_i64(parts[0]) {
            None => Err(ObjError::InvalidVertexIndex),
            Some(v) => match decimal_i64(parts[1]) {
                None => Err(ObjError::InvalidTexcoordIndex),
                Some(t) => Ok((v, Some(t), None)),
            },
        }
    } else if parts.len() == 3 {
        match decimal_i64(parts[0]) {
            None => Err(ObjError::InvalidVertexIndex),
            Some(v) => {
                let t = if parts[1].len() == 0 {
                    Ok(None)
                } else {
                    match decimal_i64(parts[1]) {
                        None => Err(ObjError::InvalidTexcoordIndex),
                        Some(t) => Ok(Some(t)),
                    }
                };
                match t {
                    Err(e) => Err(e),
                    Ok(t) => match decimal_i64(parts[2]) {
                        None => Err(ObjError::InvalidNormalIndex),
                        Some(n) => Ok((v, t, Some(n))),
                    },
                }
            },
        }
    } else {
        Err(ObjError::InvalidFaceVertex)
    }
}

/// Read a face vertex such as `3`, `3/1`, `3//2` or `3/1/2`.
pub fn parse_face_vertex(s: &str) -> (r: Result<FaceVertex, ObjError>)
    ensures
        r == face_vertex_spec(s@),
{
    let parts = split_on_slash(s);
    let ghost ps = parts@.map_values(|p: &str| p@);
    proof {
        assert(parts@.len() == ps.len());
    }
    let count = parts.len();
    if count == 1 {
        proof {
            assert(ps[0] == parts@[0]@);
        }
        match parse_i64(parts[0]) {
            Some(v) => Ok((v, None, None)),
            None => Err(ObjError::InvalidVertexIndex),
        }
    } else if count == 2 {
        proof {
            assert(ps[0] == parts@[0]@);
            assert(ps[1] == parts@[1]@);
        }
        let v = match parse_i64(parts[0]) {
            Some(v) => v,
            None => return Err(ObjError::InvalidVertexIndex),
        };
        match parse_i64(parts[1]) {
            Some(t) => Ok((v, Some(t), None)),
            None => Err(ObjError::InvalidTexcoordIndex),
        }
    } else if count == 3 {
        proof {
            assert(ps[0] == parts@[0]@);
            assert(ps[1] == parts@[1]@);
            assert(ps[2] == parts@[2]@);
        }
        let v = match parse_i64(parts[0]) {
            Some(v) => v,
            None => return Err(ObjError::InvalidVertexIndex),
        };
        let t = if parts[1].unicode_len() == 0 {
            None
        } else {
            match parse_i64(parts[1]) {
                Some(t) => Some(t),
                None => return Err(ObjError::InvalidTexcoordIndex),
            }
        };
        match parse_i64(parts[2]) {
            Some(n) => Ok((v, t, Some(n))),
            None => Err(ObjError::InvalidNormalIndex),
        }
    } else {
        Err(ObjError::InvalidFaceVertex)
    }
}


// ----- Lines of OBJ text -----

/// White space as Rust's `char::is_whitespace` has it: the characters of
/// the Unicode White_Space property.
pub open spec fn is_ws(c: char) -> bool {
    ||| c == ' '
    ||| ('\t' <= c && c <= '\r')
    ||| c == '\u{85}'
    ||| c == '\u{a0}'
    ||| c == '\u{1680}'
    ||| ('\u{2000}' <= c && c <= '\u{200a}')
    ||| c == '\u{2028}'
    ||| c == '\u{2029}'
    ||| c == '\u{202f}'
    ||| c == '\u{205f}'
    ||| c == '\u{3000}'
}

fn white(c: char) -> (r: bool)
    ensures
        r == is_ws(c),
{
    c == ' ' || ('\t' <= c && c <= '\r') || c == '\u{85}' || c == '\u{a0}' || c == '\u{1680}' || ('\u{2000}' <= c
        && c <= '\u{200a}') || c == '\u{2028}' || c == '\u{2029}' || c == '\u{202f}' || c == '\u{205f}' || c
        == '\u{3000}'
}

/// The pieces of `s` between line feeds, empty ones included.
pub open spec fn split_lines(s: Seq<char>) -> Seq<Seq<char>>
    decreases s.len(),
{
    if s.len() == 0 {
        seq![Seq::empty()]
    } else {
        let r = split_lines(s.drop_last());
        if s.last() == '\n' {
            r.push(Seq::empty())
        } else {
            r.update(r.len() - 1, r.last().push(s.last()))
        }
    }
}

/// `s` without its leading white space.
pub open spec fn trim_start(s: Seq<char>) -> Seq<char>
    decreases s.len(),
{
    if s.len() > 0 && is_ws(s[0]) {
        trim_start(s.drop_first())
    } else {
        s
    }
}

/// `s` without its trailing white space.
pub open spec fn trim_end(s: Seq<char>) -> Seq<char>
    decreases s.len(),
{
    if s.len() > 0 && is_ws(s.last()) {
        trim_end(s.drop_last())
    } else {
        s
    }
}

/// `s` without white space at either end.
pub open spec fn trim(s: Seq<char>) -> Seq<char> {
    trim_end(trim_start(s))
}

/// The words of `s`: its longest runs of characters that are not white
/// space, in order.
pub open spec fn words(s: Seq<char>) -> Seq<Seq<char>>
    decreases s.len(),
{
    if s.len() == 0 {
        Seq::empty()
    } else {
        let w = words(s.drop_last());
        let c = s.last();
        if is_ws(c) {
            w
        } else if s.len() >= 2 && !is_ws(s[s.len() - 2]) {
            w.update(w.len() - 1, w.last().push(c))
        } else {
            w.push(seq![c])
        }
    }
}

/// The kinds of OBJ line the reader keeps.
#[derive(Clone, Copy, Debug, PartialEq, Eq, Structural)]
pub enum ObjKind {
    /// `v`: a position.
    Position,
    /// `vn`: a normal.
    Normal,
    /// `vt`: a texture coordinate.
    Texcoord,
    /// `f`: a face.
    Face,
}

/// The kind a line's first word names, if it is one the reader keeps.
pub open spec fn keyword_kind(k: Seq<char>) -> Option<ObjKind> {
    if k == seq!['v'] {
        Some(ObjKind::Position)
    } else if k == seq!['v', 'n'] {
        Some(ObjKind::Normal)
    } else if k == seq!['v', 't'] {
        Some(ObjKind::Texcoord)
    } else if k == seq!['f'] {
        Some(ObjKind::Face)
    } else {
        None
    }
}

/// What a piece of text between line feeds stands for: its kind, the line
/// with white space trimmed from both ends, and its words after the first.
/// Blank lines, comments (a first character `#` after the white space)
/// and lines of other keywords stand for nothing.
pub open spec fn line_record(piece: Seq<char>) -> Option<(ObjKind, Seq<char>, Seq<Seq<char>>)> {
    let ws = words(piece);
    if ws.len() == 0 || ws[0][0] == '#' {
        None
    } else {
        match keyword_kind(ws[0]) {
            None => None,
            Some(k) => Some((k, trim(piece), ws.drop_first())),
        }
    }
}

/// The records of `pieces`, in order.
pub open spec fn records_of(pieces: Seq<Seq<char>>) -> Seq<(ObjKind, Seq<char>, Seq<Seq<char>>)>
    decreases pieces.len(),
{
    if pieces.len() == 0 {
        Seq::empty()
    } else {
        let r = records_of(pieces.drop_last());
        match line_record(pieces.last()) {
            None => r,
            Some(x) => r.push(x),
        }
    }
}

/// The records of OBJ text, line by line.
pub open spec fn obj_records(text: Seq<char>) -> Seq<(ObjKind, Seq<char>, Seq<Seq<char>>)> {
    records_of(split_lines(text))
}


/// Every word holds at least one character, none of them white space.
proof fn lemma_words_nonempty(s: Seq<char>)
    ensures
        forall|k: int| 0 <= k < words(s).len() ==> (#[trigger] words(s)[k]).len() > 0 && !is_ws(words(s)[k][0]),
        s.len() > 0 && !is_ws(s.last()) ==> words(s).len() > 0,
    decreases s.len(),
{
    if s.len() > 0 {
        lemma_words_nonempty(s.drop_last());
        let w = words(s.drop_last());
        if !is_ws(s.last()) && s.len() >= 2 && !is_ws(s[s.len() - 2]) {
            assert(s.drop_last().last() == s[s.len() - 2]);
            assert(words(s) == w.update(w.len() - 1, w.last().push(s.last())));
            assert forall|k: int| 0 <= k < words(s).len() implies (#[trigger] words(s)[k]).len() > 0 && !is_ws(words(s)[k][0]) by {
                if k < w.len() - 1 {
                    assert(words(s)[k] == w[k]);
                } else {
                    assert(words(s)[k] == w.last().push(s.last()));
                    assert(w[w.len() - 1].len() > 0);
                    assert(words(s)[k][0] == w.last()[0]);
                }
            }
        }
    }
}

/// The words of `cs[a..b]`.
fn words_in(cs: &Vec<char>, a: usize, b: usize) -> (r: Vec<Vec<char>>)
    requires
        a <= b <= cs@.len(),
    ensures
        r@.map_values(|w: Vec<char>| w@) == words(cs@.subrange(a as int, b as int)),
{
    let mut out: Vec<Vec<char>> = Vec::new();
    let mut cur: Vec<char> = Vec::new();
    let mut i: usize = a;
    proof {
        assert(cs@.subrange(a as int, a as int) =~= Seq::<char>::empty());
        assert(out@.map_values(|w: Vec<char>| w@) =~= Seq::<Seq<char>>::empty());
    }
    while i < b
        invariant
            a <= i <= b <= cs@.len(),
            cur@.len() > 0 <==> (i > a && !is_ws(cs@[i - 1])),
            words(cs@.subrange(a as int, i as int)) == if cur@.len() > 0 {
                out@.map_values(|w: Vec<char>| w@).push(cur@)
            } else {
                out@.map_values(|w: Vec<char>| w@)
            },
        decreases b - i,
    {
        let c = cs[i];
        let ghost ov = out@.map_values(|w: Vec<char>| w@);
        let ghost sub = cs@.subrange(a as int, i + 1);
        proof {
            assert(sub.drop_last() =~= cs@.subrange(a as int, i as int));
            assert(sub.last() == c);
            if i > a {
                assert(sub[sub.len() - 2] == cs@[i - 1]);
            }
        }
        if white(c) {
            if cur.len() > 0 {
                let w = cur;
                cur = Vec::new();
                out.push(w);
                proof {
                    assert(out@.map_values(|w: Vec<char>| w@) =~= ov.push(w@));
                }
            }
        } else {
            let ghost was = cur@;
            cur.push(c);
            proof {
                if was.len() > 0 {
                    assert(ov.push(was).update(ov.len() as int, was.push(c)) =~= ov.push(cur@));
                } else {
                    assert(cur@ =~= seq![c]);
                }
            }
        }
        i = i + 1;
    }
    if cur.len() > 0 {
        out.push(cur);
    }
    out
}

/// `cs[lo..hi]` is `cs[a..b]` with white space trimmed from both ends.
fn trim_bounds(cs: &Vec<char>, a: usize, b: usize) -> (r: (usize, usize))
    requires
        a <= b <= cs@.len(),
    ensures
        a <= r.0 <= r.1 <= b,
        trim(cs@.subrange(a as int, b as int)) == cs@.subrange(r.0 as int, r.1 as int),
{
    let mut lo = a;
    while lo < b && white(cs[lo])
        invariant
            a <= lo <= b <= cs@.len(),
            trim_start(cs@.subrange(a as int, b as int)) == trim_start(cs@.subrange(lo as int, b as int)),
        decreases b - lo,
    {
        proof {
            assert(cs@.subrange(lo as int, b as int).drop_first() =~= cs@.subrange(lo + 1, b as int));
        }
        lo = lo + 1;
    }
    let mut hi = b;
    while hi > lo && white(cs[hi - 1])
        invariant
            a <= lo <= hi <= b <= cs@.len(),
            trim_start(cs@.subrange(a as int, b as int)) == cs@.subrange(lo as int, b as int),
            trim_end(cs@.subrange(lo as int, b as int)) == trim_end(cs@.subrange(lo as int, hi as int)),
        decreases hi - lo,
    {
        proof {
            assert(cs@.subrange(lo as int, hi as int).drop_last() =~= cs@.subrange(lo as int, hi - 1));
        }
        hi = hi - 1;
    }
    (lo, hi)
}

/// The kind a keyword names, if the reader keeps lines of that kind.
fn keyword_of(w: &Vec<char>) -> (r: Option<ObjKind>)
    ensures
        r == keyword_kind(w@),
{
    if w.len() == 1 && w[0] == 'v' {
        proof {
            assert(w@ =~= seq!['v']);
        }
        Some(ObjKind::Position)
    } else if w.len() == 2 && w[0] == 'v' && w[1] == 'n' {
        proof {
            assert(w@ =~= seq!['v', 'n']);
        }
        Some(ObjKind::Normal)
    } else if w.len() == 2 && w[0] == 'v' && w[1] == 't' {
        proof {
            assert(w@ =~= seq!['v', 't']);
        }
        Some(ObjKind::Texcoord)
    } else if w.len() == 1 && w[0] == 'f' {
        proof {
            assert(w@ =~= seq!['f']);
        }
        Some(ObjKind::Face)
    } else {
        proof {
            if w@ == seq!['v'] || w@ == seq!['f'] {
                assert(w@.len() == 1 && w@[0] == w@[0]);
            }
            if w@ == seq!['v', 'n'] || w@ == seq!['v', 't'] {
                assert(w@.len() == 2);
            }
        }
        None
    }
}


/// A line of OBJ text that the reader keeps.
pub struct ObjLine {
    pub kind: ObjKind,
    /// The line with white space trimmed from both ends.
    pub line: String,
    /// The line's words after its keyword.
    pub words: Vec<String>,
}

pub open spec fn obj_line_view(l: ObjLine) -> (ObjKind, Seq<char>, Seq<Seq<char>>) {
    (l.kind, l.line@, l.words@.map_values(|w: String| w@))
}

/// What the text `cs[a..b]` between line feeds stands for.
fn line_at(cs: &Vec<char>, a: usize, b: usize) -> (r: Option<ObjLine>)
    requires
        a <= b <= cs@.len(),
    ensures
        match line_record(cs@.subrange(a as int, b as int)) {
            None => r is None,
            Some(x) => r matches Some(l) && obj_line_view(l) == x,
        },
{
    let ghost piece = cs@.subrange(a as int, b as int);
    let ws = words_in(cs, a, b);
    let ghost wv = ws@.map_values(|w: Vec<char>| w@);
    proof {
        lemma_words_nonempty(piece);
    }
    if ws.len() == 0 {
        return None;
    }
    proof {
        assert(wv[0] == ws@[0]@);
    }
    if ws[0][0] == '#' {
        return None;
    }
    let kind = match keyword_of(&ws[0]) {
        Some(k) => k,
        None => return None,
    };
    let (lo, hi) = trim_bounds(cs, a, b);
    let line = string_from_chars(&cs.as_slice()[lo..hi]);
    let mut rest: Vec<String> = Vec::new();
    let mut j: usize = 1;
    while j < ws.len()
        invariant
            1 <= j <= ws@.len(),
            wv == ws@.map_values(|w: Vec<char>| w@),
            rest@.map_values(|w: String| w@) == wv.subrange(1, j as int),
        decreases ws@.len() - j,
    {
        let w = string_from_chars(ws[j].as_slice());
        proof {
            assert(wv[j as int] == ws@[j as int]@);
            assert(w@ == wv[j as int]);
        }
        let ghost rv = rest@.map_values(|w: String| w@);
        let ghost wview = w@;
        rest.push(w);
        proof {
            assert(rest@.map_values(|w: String| w@) =~= rv.push(wview));
            assert(wv.subrange(1, j + 1) =~= wv.subrange(1, j as int).push(wv[j as int]));
        }
        j = j + 1;
    }
    proof {
        assert(wv.subrange(1, ws@.len() as int) =~= wv.drop_first());
    }
    Some(ObjLine { kind, line, words: rest })
}

/// The lines of OBJ text that the reader keeps, in order: for each line,
/// its kind (`v`, `vn`, `vt` or `f`), the line trimmed, and its words after
/// the keyword. Blank lines, comments and other keywords are skipped.
pub fn obj_lines(text: &str) -> (r: Vec<ObjLine>)
    ensures
        r@.map_values(|l: ObjLine| obj_line_view(l)) == obj_records(text@),
{
    let mut cs: Vec<char> = Vec::new();
    for c in it: text.chars()
        invariant
            cs@ == it.seq().take(it.index()),
    {
        cs.push(c);
        proof {
            assert(cs@ =~= it.seq().take(it.index() + 1));
        }
    }
    proof {
        assert(cs@ =~= text@);
    }
    let n = cs.len();
    let mut out: Vec<ObjLine> = Vec::new();
    let mut start: usize = 0;
    let mut i: usize = 0;
    let ghost mut done: Seq<Seq<char>> = Seq::empty();
    proof {
        assert(cs@.subrange(0, 0) =~= Seq::<char>::empty());
        assert(done.push(cs@.subrange(0, 0)) =~= seq![Seq::<char>::empty()]);
    }
    while i < n
        invariant
            i <= n,
            n == cs@.len(),
            start <= i,
            split_lines(cs@.subrange(0, i as int)) == done.push(cs@.subrange(start as int, i as int)),
            out@.map_values(|l: ObjLine| obj_line_view(l)) == records_of(done),
        decreases n - i,
    {
        let c = cs[i];
        proof {
            assert(cs@.subrange(0, i + 1).drop_last() =~= cs@.subrange(0, i as int));
            assert(cs@.subrange(0, i + 1).last() == c);
        }
        if c == '\n' {
            let ghost piece = cs@.subrange(start as int, i as int);
            let ghost before = out@.map_values(|l: ObjLine| obj_line_view(l));
            match line_at(&cs, start, i) {
                Some(l) => {
                    out.push(l);
                    proof {
                        assert(out@.map_values(|l: ObjLine| obj_line_view(l)) =~= before.push(obj_line_view(l)));
                    }
                },
                None => {},
            }
            proof {
                assert(done.push(piece).drop_last() =~= done);
                done = done.push(piece);
            }
            start = i + 1;
            proof {
                assert(cs@.subrange(start as int, i + 1) =~= Seq::<char>::empty());
            }
        } else {
            proof {
                assert(cs@.subrange(start as int, i + 1) =~= cs@.subrange(start as int, i as int).push(c));
            }
        }
        i = i + 1;
        proof {
            assert(done.push(cs@.subrange(start as int, i as int)) =~= split_lines(cs@.subrange(0, i as int)));
        }
    }
    let ghost piece = cs@.subrange(start as int, n as int);
    let ghost before = out@.map_values(|l: ObjLine| obj_line_view(l));
    match line_at(&cs, start, n) {
        Some(l) => {
            out.push(l);
            proof {
                assert(out@.map_values(|l: ObjLine| obj_line_view(l)) =~= before.push(obj_line_view(l)));
            }
        },
        None => {},
    }
    proof {
        assert(cs@.subrange(0, n as int) =~= cs@);
        assert(done.push(piece).drop_last() =~= done);
    }
    out
}

} // verus!
