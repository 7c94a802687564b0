//! Where asset bytes come from: a trait for platform readers, an in-memory
//! store, and the web stub.

use vstd::prelude::*;
use vstd::string::*;
use crate::text::str_eq;

verus! {

/// Why a read failed.
#[derive(Debug)]
pub struct IoError(pub String);

/// Platform-specific source of asset bytes.
pub trait AssetIo {
    fn read(&self, path: &str) -> Result<Vec<u8>, IoError>;
}

/// The files as a map from path to contents; a later entry for a path
/// wins over an earlier one.
pub open spec fn files_map(es: Seq<(Seq<char>, Seq<u8>)>) -> Map<Seq<char>, Seq<u8>>
    decreases es.len(),
{
    if es.len() == 0 {
        Map::empty()
    } else {
        files_map(es.drop_last()).insert(es.last().0, es.last().1)
    }
}

/// No path occurs twice.
pub open spec fn distinct_paths(es: Seq<(Seq<char>, Seq<u8>)>) -> bool {
    forall|i: int, j: int| 0 <= i < j < es.len() ==> (#[trigger] es[i]).0 != (#[trigger] es[j]).0
}

proof fn lemma_files_map_get(es: Seq<(Seq<char>, Seq<u8>)>, i: int)
    requires
        distinct_paths(es),
        0 <= i < es.len(),
    ensures
        files_map(es).contains_key(es[i].0),
        files_map(es)[es[i].0] == es[i].1,
    decreases es.len(),
{
    if i < es.len() - 1 {
        let d = es.drop_last();
        assert(d[i] == es[i]);
        assert(distinct_paths(d)) by {
            assert forall|a: int, b: int| 0 <= a < b < d.len() implies (#[trigger] d[a]).0 != (#[trigger] d[b]).0 by {
                assert(d[a] == es[a] && d[b] == es[b]);
            }
        }
        lemma_files_map_get(d, i);
        assert(es[i].0 != es[es.len() - 1].0);
    }
}

proof fn lemma_files_map_absent(es: Seq<(Seq<char>, Seq<u8>)>, p: Seq<char>)
    requires
        forall|i: int| 0 <= i < es.len() ==> (#[trigger] es[i]).0 != p,
    ensures
        !files_map(es).contains_key(p),
    decreases es.len(),
{
    if es.len() > 0 {
        let d = es.drop_last();
        assert forall|i: int| 0 <= i < d.len() implies (#[trigger] d[i]).0 != p by {
            assert(d[i] == es[i]);
        }
        lemma_files_map_absent(d, p);
    }
}

proof fn lemma_files_map_keys(es: Seq<(Seq<char>, Seq<u8>)>, p: Seq<char>)
    requires
        files_map(es).contains_key(p),
    ensures
        exists|i: int| 0 <= i < es.len() && (#[trigger] es[i]).0 == p,
    decreases es.len(),
{
    if es.len() > 0 && es.last().0 != p {
        let d = es.drop_last();
        lemma_files_map_keys(d, p);
        let i = choose|i: int| 0 <= i < d.len() && (#[trigger] d[i]).0 == p;
        assert(es[i] == d[i]);
    } else if es.len() > 0 {
        assert(es[es.len() - 1].0 == p);
    }
}

/// Assets held in memory, for tests and embedded data.
pub struct MemoryIo {
    files: Vec<(String, Vec<u8>)>,
}

impl MemoryIo {
    pub closed spec fn entries(&self) -> Seq<(Seq<char>, Seq<u8>)> {
        self.files@.map_values(|e: (String, Vec<u8>)| (e.0@, e.1@))
    }

    /// The stored files, path to contents.
    pub open spec fn files(&self) -> Map<Seq<char>, Seq<u8>> {
        files_map(self.entries())
    }

    #[verifier::type_invariant]
    spec fn paths_distinct(&self) -> bool {
        distinct_paths(self.entries())
    }

    pub fn new() -> (io: Self)
        ensures
            io.files() == Map::<Seq<char>, Seq<u8>>::empty(),
    {
        let io = MemoryIo { files: Vec::new() };
        proof {
            assert(io.entries() =~= Seq::<(Seq<char>, Seq<u8>)>::empty());
        }
        io
    }

    /// Store `data` under `path`, replacing what was there.
    pub fn add(&mut self, path: &str, data: Vec<u8>)
        ensures
            final(self).files() == old(self).files().insert(path@, data@),
    {
        proof {
            use_type_invariant(&*self);
        }
        let ghost es = self.entries();
        let ghost d = data@;
        let mut files: Vec<(String, Vec<u8>)> = Vec::new();
        std::mem::swap(&mut files, &mut self.files);
        proof {
            assert(es =~= files@.map_values(|e: (String, Vec<u8>)| (e.0@, e.1@)));
        }
        let mut i: usize = 0;
        while i < files.len()
            invariant
                i <= files@.len(),
                es == files@.map_values(|e: (String, Vec<u8>)| (e.0@, e.1@)),
                data@ == d,
                es == old(self).entries(),
                distinct_paths(es),
                forall|j: int| 0 <= j < i ==> (#[trigger] es[j]).0 != path@,
            decreases files@.len() - i,
        {
            if str_eq(files[i].0.as_str(), path) {
                let entry = (files[i].0.clone(), data);
                files.set(i, entry);
                let ghost ns = files@.map_values(|e: (String, Vec<u8>)| (e.0@, e.1@));
                proof {
                    assert(ns =~= es.update(i as int, (path@, d)));
                    assert(distinct_paths(ns)) by {
                        assert forall|a: int, b: int| 0 <= a < b < ns.len() implies (#[trigger] ns[a]).0 != (#[trigger] ns[b]).0 by {
                            assert(ns[a].0 == es[a].0 && ns[b].0 == es[b].0);
                        }
                    }
                    assert(files_map(ns) =~= files_map(es).insert(path@, d)) by {
                        assert forall|p: Seq<char>| files_map(ns).contains_key(p) <==> files_map(es).insert(path@, d).contains_key(p) by {
                            if files_map(ns).contains_key(p) {
                                lemma_files_map_keys(ns, p);
                                let k = choose|k: int| 0 <= k < ns.len() && (#[trigger] ns[k]).0 == p;
                                if k != i {
                                    lemma_files_map_get(es, k);
                                }
                            }
                            if files_map(es).contains_key(p) && p != path@ {
                                lemma_files_map_keys(es, p);
                                let k = choose|k: int| 0 <= k < es.len() && (#[trigger] es[k]).0 == p;
                                lemma_files_map_get(ns, k);
                            }
                            if p == path@ {
                                lemma_files_map_get(ns, i as int);
                            }
                        }
                        assert forall|p: Seq<char>| files_map(ns).contains_key(p) implies files_map(ns)[p] == files_map(es).insert(path@, d)[p] by {
                            lemma_files_map_keys(ns, p);
                            let k = choose|k: int| 0 <= k < ns.len() && (#[trigger] ns[k]).0 == p;
                            lemma_files_map_get(ns, k);
                            if k != i {
                                lemma_files_map_get(es, k);
                                assert(ns[k] == es[k]);
                                assert(ns[k].0 != ns[i as int].0);
                            }
                        }
                    }
                }
                self.files = files;
                proof {
                    assert(self.entries() == ns);
                }
                return;
            }
            i = i + 1;
        }
        files.push((path.to_owned(), data));
        let ghost ns = files@.map_values(|e: (String, Vec<u8>)| (e.0@, e.1@));
        proof {
            assert(ns =~= es.push((path@, d)));
            assert(ns.drop_last() =~= es);
            assert(distinct_paths(ns)) by {
                assert forall|a: int, b: int| 0 <= a < b < ns.len() implies (#[trigger] ns[a]).0 != (#[trigger] ns[b]).0 by {
                    if b == es.len() {
                        assert(ns[a] == es[a]);
                    } else {
                        assert(ns[a] == es[a] && ns[b] == es[b]);
                    }
                }
            }
        }
        self.files = files;
        proof {
            assert(self.entries() == ns);
        }
    }

    /// `add`, by value, for building a store in one expression.
    pub fn with(self, path: &str, data: Vec<u8>) -> (io: Self)
        ensures
            io.files() == self.files().insert(path@, data@),
    {
        let mut io = self;
        io.add(path, data);
        io
    }
}

impl Default for MemoryIo {
    fn default() -> (io: Self)
        ensures
            io.files() == Map::<Seq<char>, Seq<u8>>::empty(),
    {
        MemoryIo::new()
    }
}

/// The message of a failed in-memory read.
pub open spec fn not_found_message(path: Seq<char>) -> Seq<char> {
    "file not found: "@ + path
}

impl AssetIo for MemoryIo {
    /// The bytes stored under `path`, or an error naming the missing path.
    fn read(&self, path: &str) -> (r: Result<Vec<u8>, IoError>)
        ensures
            match r {
                Ok(data) => self.files().contains_key(path@) && data@ == self.files()[path@],
                Err(e) => !self.files().contains_key(path@) && e.0@ == not_found_message(path@),
            },
    {
        proof {
            use_type_invariant(self);
        }
        let ghost es = self.entries();
        let mut i: usize = 0;
        while i < self.files.len()
            invariant
                i <= self.files@.len(),
                es == self.entries(),
                distinct_paths(es),
                forall|j: int| 0 <= j < i ==> (#[trigger] es[j]).0 != path@,
            decreases self.files@.len() - i,
        {
            if str_eq(self.files[i].0.as_str(), path) {
                let data = self.files[i].1.clone();
                proof {
                    lemma_files_map_get(es, i as int);
                    assert(data@ =~= self.files@[i as int].1@);
                }
                return Ok(data);
            }
            i = i + 1;
        }
        proof {
            lemma_files_map_absent(es, path@);
        }
        let msg = String::from_str("file not found: ");
        Err(IoError(msg.concat(path)))
    }
}

/// Reader for the web target, where synchronous reads are not available.
pub struct WasmIo {
    base_url: String,
}

/// The message of every web read.
pub open spec fn wasm_read_message(base_url: Seq<char>, path: Seq<char>) -> Seq<char> {
    "WasmIo::read is not available as synchronous; use async load path for "@ + base_url + path
}

impl WasmIo {
    pub closed spec fn base_url_view(&self) -> Seq<char> {
        self.base_url@
    }

    pub fn new(base_url: &str) -> (io: Self)
        ensures
            io.base_url_view() == base_url@,
    {
        WasmIo { base_url: base_url.to_owned() }
    }
}

impl AssetIo for WasmIo {
    /// Always fails, naming the requested location.
    fn read(&self, path: &str) -> (r: Result<Vec<u8>, IoError>)
        ensures
            match r {
                Ok(_) => false,
                Err(e) => e.0@ == wasm_read_message(self.base_url_view(), path@),
            },
    {
        let msg = String::from_str("WasmIo::read is not available as synchronous; use async load path for ");
        let msg = msg.concat(self.base_url.as_str());
        Err(IoError(msg.concat(path)))
    }
}

} // verus!
