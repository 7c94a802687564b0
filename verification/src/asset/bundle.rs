//! Asset bundle: concatenated binary blobs behind a manifest header, as a
//! single-file distribution format.
//!
//! Layout, all integers little-endian:
//! magic `ABND`, version `1u32`, entry count `u32`; then per entry a `u16`
//! type-tag length, the UTF-8 type tag, a `u16` path length, the UTF-8 path,
//! a `u64` data offset and a `u64` data size; then the data section.

use vstd::bytes::*;
use vstd::prelude::*;
use vstd::string::*;
use vstd::utf8::*;
use crate::text::{append_bytes, bytes_equal_at, copy_range, str_eq, utf8_to_string};

verus! {

/// One entry of a bundle manifest.
#[derive(Clone, Debug)]
pub struct BundleEntry {
    pub type_tag: String,
    pub path: String,
    pub offset: u64,
    pub size: u64,
}

/// Several assets packed into one binary.
pub struct AssetBundle {
    pub entries: Vec<BundleEntry>,
    pub data: Vec<u8>,
}

/// Why a byte string is not a bundle.
#[derive(Clone, Debug, PartialEq, Eq, Structural)]
pub enum BundleError {
    /// Fewer than the twelve header bytes.
    TooShort,
    /// The first four bytes are not `ABND`.
    InvalidMagic,
    UnsupportedVersion(u32),
    /// The manifest ends inside entry `i`'s type-tag length.
    TruncatedTagLength(u32),
    TruncatedTag(u32),
    InvalidTagUtf8(u32),
    TruncatedPathLength(u32),
    TruncatedPath(u32),
    InvalidPathUtf8(u32),
    TruncatedOffsetSize(u32),
    /// Entry `i`'s data range runs past the data section.
    DataOutOfRange(u32),
}

/// An entry as plain values: type tag, path, offset, size.
pub type EntryModel = (Seq<char>, Seq<char>, u64, u64);

pub open spec fn entry_model(e: BundleEntry) -> EntryModel {
    (e.type_tag@, e.path@, e.offset, e.size)
}

pub open spec fn entries_model(es: Seq<BundleEntry>) -> Seq<EntryModel> {
    es.map_values(|e: BundleEntry| entry_model(e))
}

pub open spec fn magic() -> Seq<u8> {
    seq![0x41u8, 0x42u8, 0x4eu8, 0x44u8]
}

/// The bytes of one manifest entry. A length field holds the byte length
/// truncated to 16 bits, as the writer stores it.
pub open spec fn entry_bytes(m: EntryModel) -> Seq<u8> {
    let tag = encode_utf8(m.0);
    let path = encode_utf8(m.1);
    spec_u16_to_le_bytes(tag.len() as u16) + tag + spec_u16_to_le_bytes(path.len() as u16) + path
        + spec_u64_to_le_bytes(m.2) + spec_u64_to_le_bytes(m.3)
}

/// The bytes of a manifest: its entries one after the other.
pub open spec fn manifest_bytes(ms: Seq<EntryModel>) -> Seq<u8>
    decreases ms.len(),
{
    if ms.len() == 0 {
        Seq::empty()
    } else {
        entry_bytes(ms[0]) + manifest_bytes(ms.drop_first())
    }
}

/// The serialized form of a bundle.
pub open spec fn bundle_bytes(ms: Seq<EntryModel>, data: Seq<u8>) -> Seq<u8> {
    magic() + spec_u32_to_le_bytes(1u32) + spec_u32_to_le_bytes(ms.len() as u32) + manifest_bytes(ms)
        + data
}

/// Every entry's data range lies inside a data section of `len` bytes.
pub open spec fn ranges_fit(ms: Seq<EntryModel>, len: int) -> bool {
    forall|k: int| 0 <= k < ms.len() ==> range_fits(#[trigger] ms[k], len)
}

/// The entry's data range lies inside a data section of `len` bytes.
pub open spec fn range_fits(m: EntryModel, len: int) -> bool {
    m.2 + m.3 <= len
}


/// Little-endian `u16` at byte `p`.
pub open spec fn u16_at(b: Seq<u8>, p: int) -> int {
    spec_u16_from_le_bytes(b.subrange(p, p + 2)) as int
}

/// Little-endian `u64` at byte `p`.
pub open spec fn u64_at(b: Seq<u8>, p: int) -> u64 {
    spec_u64_from_le_bytes(b.subrange(p, p + 8))
}

/// Read manifest entry `i` from the front of `b`: the entry and the number
/// of bytes it takes, or why it cannot be read.
pub open spec fn parse_entry(b: Seq<u8>, i: u32) -> Result<(EntryModel, int), BundleError> {
    if b.len() < 2 {
        Err(BundleError::TruncatedTagLength(i))
    } else {
        let tl = u16_at(b, 0);
        if 2 + tl > b.len() {
            Err(BundleError::TruncatedTag(i))
        } else if !valid_utf8(b.subrange(2, 2 + tl)) {
            Err(BundleError::InvalidTagUtf8(i))
        } else {
            let p = 2 + tl;
            if p + 2 > b.len() {
                Err(BundleError::TruncatedPathLength(i))
            } else {
                let pl = u16_at(b, p);
                if p + 2 + pl > b.len() {
                    Err(BundleError::TruncatedPath(i))
                } else if !valid_utf8(b.subrange(p + 2, p + 2 + pl)) {
                    Err(BundleError::InvalidPathUtf8(i))
                } else {
                    let q = p + 2 + pl;
                    if q + 16 > b.len() {
                        Err(BundleError::TruncatedOffsetSize(i))
                    } else {
                        Ok(
                            (
                                (
                                    decode_utf8(b.subrange(2, 2 + tl)),
                                    decode_utf8(b.subrange(p + 2, q)),
                                    u64_at(b, q),
                                    u64_at(b, q + 8),
                                ),
                                q + 16,
                            ),
                        )
                    }
                }
            }
        }
    }
}

/// Read manifest entries `i` up to `count` from the front of `b`: the
/// entries and the number of bytes they take, or the first failure.
pub open spec fn parse_manifest(b: Seq<u8>, i: nat, count: nat) -> Result<(Seq<EntryModel>, int), BundleError>
    decreases count - i,
{
    if i >= count {
        Ok((Seq::empty(), 0))
    } else {
        match parse_entry(b, i as u32) {
            Err(e) => Err(e),
            Ok((m, used)) => match parse_manifest(b.skip(used), i + 1, count) {
                Err(e) => Err(e),
                Ok((ms, rest)) => Ok((seq![m] + ms, used + rest)),
            },
        }
    }
}

/// Entry `k` is the first whose data range does not fit.
pub open spec fn first_misfit(ms: Seq<EntryModel>, len: int, k: int) -> bool {
    &&& 0 <= k < ms.len()
    &&& !range_fits(ms[k], len)
    &&& forall|j: int| 0 <= j < k ==> range_fits(#[trigger] ms[j], len)
}

/// What `from_bytes` makes of `b`: the manifest entries and the data
/// section, or the first reason `b` is not a bundle.
pub open spec fn parse_bundle(b: Seq<u8>) -> Result<(Seq<EntryModel>, Seq<u8>), BundleError> {
    if b.len() < 12 {
        Err(BundleError::TooShort)
    } else if b.subrange(0, 4) != magic() {
        Err(BundleError::InvalidMagic)
    } else if spec_u32_from_le_bytes(b.subrange(4, 8)) != 1 {
        Err(BundleError::UnsupportedVersion(spec_u32_from_le_bytes(b.subrange(4, 8))))
    } else {
        let count = spec_u32_from_le_bytes(b.subrange(8, 12));
        match parse_manifest(b.skip(12), 0, count as nat) {
            Err(e) => Err(e),
            Ok((ms, used)) => {
                let data = b.skip(12 + used);
                if exists|k: int| first_misfit(ms, data.len() as int, k) {
                    Err(BundleError::DataOutOfRange((choose|k: int| first_misfit(ms, data.len() as int, k)) as u32))
                } else {
                    Ok((ms, data))
                }
            },
        }
    }
}

/// The twelve header bytes are a bundle header of version 1 announcing
/// `count` entries.
pub open spec fn header_ok(b: Seq<u8>, count: u32) -> bool {
    &&& b.len() >= 12
    &&& b.subrange(0, 4) == magic()
    &&& spec_u32_from_le_bytes(b.subrange(4, 8)) == 1
    &&& spec_u32_from_le_bytes(b.subrange(8, 12)) == count
}

/// `parse_manifest`'s result after `ms` already read in `used` bytes.
pub open spec fn after(ms: Seq<EntryModel>, used: int, r: Result<(Seq<EntryModel>, int), BundleError>) -> Result<(Seq<EntryModel>, int), BundleError> {
    match r {
        Err(e) => Err(e),
        Ok((ms2, u2)) => Ok((ms + ms2, used + u2)),
    }
}

impl AssetBundle {
    pub fn new() -> (b: Self)
        ensures
            b.entries@ == Seq::<BundleEntry>::empty(),
            b.data@ == Seq::<u8>::empty(),
    {
        AssetBundle { entries: Vec::new(), data: Vec::new() }
    }

    /// Append an asset: its bytes go to the end of the data section.
    pub fn add(&mut self, path: &str, type_tag: &str, data: &[u8])
        requires
            old(self).data@.len() + data@.len() <= u64::MAX,
        ensures
            final(self).data@ == old(self).data@ + data@,
            final(self).entries@.len() == old(self).entries@.len() + 1,
            final(self).entries@.drop_last() == old(self).entries@,
            entry_model(final(self).entries@.last()) == (
                type_tag@,
                path@,
                old(self).data@.len() as u64,
                data@.len() as u64,
            ),
            range_fits(entry_model(final(self).entries@.last()), final(self).data@.len() as int),
            ranges_fit(entries_model(old(self).entries@), old(self).data@.len() as int) ==> ranges_fit(
                entries_model(final(self).entries@),
                final(self).data@.len() as int,
            ),
    {
        let offset = self.data.len() as u64;
        let size = data.len() as u64;
        append_bytes(&mut self.data, data);
        let entry = BundleEntry {
            type_tag: type_tag.to_owned(),
            path: path.to_owned(),
            offset,
            size,
        };
        self.entries.push(entry);
        proof {
            assert(self.entries@.drop_last() =~= old(self).entries@);
            let ms0 = entries_model(old(self).entries@);
            let ms1 = entries_model(self.entries@);
            if ranges_fit(ms0, old(self).data@.len() as int) {
                assert forall|k: int| 0 <= k < ms1.len() implies range_fits(#[trigger] ms1[k], self.data@.len() as int) by {
                    if k < ms0.len() {
                        assert(ms1[k] == ms0[k]);
                        assert(range_fits(ms0[k], old(self).data@.len() as int));
                    }
                }
            }
        }
    }

    /// Serialize the bundle.
    pub fn to_bytes(&self) -> (r: Vec<u8>)
        ensures
            r@ == bundle_bytes(entries_model(self.entries@), self.data@),
    {
        proof {
            lemma_auto_spec_u16_to_from_le_bytes();
            lemma_auto_spec_u32_to_from_le_bytes();
            lemma_auto_spec_u64_to_from_le_bytes();
        }
        let ghost ms = entries_model(self.entries@);
        let mut out: Vec<u8> = Vec::new();
        out.push(0x41u8);
        out.push(0x42u8);
        out.push(0x4eu8);
        out.push(0x44u8);
        let version = u32_to_le_bytes(1u32);
        append_bytes(&mut out, version.as_slice());
        let count = u32_to_le_bytes(self.entries.len() as u32);
        append_bytes(&mut out, count.as_slice());
        let ghost header = out@;
        proof {
            assert(header =~= magic() + spec_u32_to_le_bytes(1u32) + spec_u32_to_le_bytes(ms.len() as u32));
        }
        let mut i: usize = 0;
        while i < self.entries.len()
            invariant
                i <= self.entries@.len(),
                ms == entries_model(self.entries@),
                out@ == header + manifest_prefix(ms, i as int),
            decreases self.entries@.len() - i,
        {
            let entry = &self.entries[i];
            let tag = entry.type_tag.as_str().as_bytes();
            let tag_len = u16_to_le_bytes(tag.len() as u16);
            append_bytes(&mut out, tag_len.as_slice());
            append_bytes(&mut out, tag);
            let path = entry.path.as_str().as_bytes();
            let path_len = u16_to_le_bytes(path.len() as u16);
            append_bytes(&mut out, path_len.as_slice());
            append_bytes(&mut out, path);
            let off = u64_to_le_bytes(entry.offset);
            append_bytes(&mut out, off.as_slice());
            let size = u64_to_le_bytes(entry.size);
            append_bytes(&mut out, size.as_slice());
            proof {
                lemma_manifest_prefix_step(ms, i as int);
                assert(ms[i as int] == entry_model(*entry));
                assert(out@ =~= header + manifest_prefix(ms, i as int) + entry_bytes(ms[i as int]));
            }
            i = i + 1;
        }
        append_bytes(&mut out, self.data.as_slice());
        proof {
            lemma_manifest_prefix_full(ms);
        }
        out
    }

    /// Parse a bundle from its serialized form.
    pub fn from_bytes(bytes: &[u8]) -> (r: Result<AssetBundle, BundleError>)
        ensures
            match r {
                Ok(b) => parse_bundle(bytes@) == Ok::<(Seq<EntryModel>, Seq<u8>), BundleError>((entries_model(b.entries@), b.data@)),
                Err(e) => parse_bundle(bytes@) == Err::<(Seq<EntryModel>, Seq<u8>), BundleError>(e),
            },
    {
        let n = bytes.len();
        if n < 12 {
            return Err(BundleError::TooShort);
        }
        let magic_bytes: Vec<u8> = vec![0x41u8, 0x42u8, 0x4eu8, 0x44u8];
        if !bytes_equal_at(bytes, 0, magic_bytes.as_slice()) {
            proof {
                assert(magic_bytes@ =~= magic());
            }
            return Err(BundleError::InvalidMagic);
        }
        proof {
            assert(magic_bytes@ =~= magic());
        }
        let version = u32_from_le_bytes(&bytes[4..8]);
        if version != 1 {
            return Err(BundleError::UnsupportedVersion(version));
        }
        let count = u32_from_le_bytes(&bytes[8..12]);
        proof {
            assert(header_ok(bytes@, count));
        }
        let ghost whole = parse_manifest(bytes@.skip(12), 0, count as nat);
        let mut entries: Vec<BundleEntry> = Vec::new();
        let mut pos: usize = 12;
        let mut i: u32 = 0;
        proof {
            lemma_after_empty(whole);
        }
        while i < count
            invariant
                n == bytes@.len(),
                12 <= pos <= n,
                i <= count,
                entries@.len() == i,
                header_ok(bytes@, count),
                whole == parse_manifest(bytes@.skip(12), 0, count as nat),
                whole == after(entries_model(entries@), pos - 12, parse_manifest(bytes@.skip(pos as int), i as nat, count as nat)),
            decreases count - i,
        {
            match parse_entry_at(bytes, pos, i) {
                Err(e) => {
                    proof {
                        assert(parse_manifest(bytes@.skip(pos as int), i as nat, count as nat) == Err::<(Seq<EntryModel>, int), BundleError>(e));
                    }
                    return Err(e);
                },
                Ok((entry, used)) => {
                    let ghost ms0 = entries_model(entries@);
                    let ghost m = entry_model(entry);
                    let ghost rest = parse_manifest(bytes@.skip(pos + used), (i + 1) as nat, count as nat);
                    proof {
                        assert(bytes@.skip(pos as int).skip(used as int) =~= bytes@.skip(pos + used));
                        lemma_after_step(ms0, pos - 12, m, used as int, rest);
                    }
                    entries.push(entry);
                    proof {
                        assert(entries_model(entries@) =~= ms0.push(m));
                    }
                    pos = pos + used;
                    i = i + 1;
                },
            }
        }
        let ghost ms = entries_model(entries@);
        proof {
            assert(parse_manifest(bytes@.skip(pos as int), count as nat, count as nat) == Ok::<(Seq<EntryModel>, int), BundleError>((Seq::empty(), 0)));
            assert(ms + Seq::<EntryModel>::empty() =~= ms);
        }
        let data = copy_range(bytes, pos, n);
        proof {
            assert(data@ =~= bytes@.skip(12 + (pos - 12)));
        }
        let dlen = data.len() as u64;
        let mut k: usize = 0;
        while k < entries.len()
            invariant
                k <= entries@.len(),
                entries@.len() == count,
                ms == entries_model(entries@),
                dlen == data@.len(),
                header_ok(bytes@, count),
                parse_manifest(bytes@.skip(12), 0, count as nat) == Ok::<(Seq<EntryModel>, int), BundleError>((ms, pos - 12)),
                data@ == bytes@.skip(12 + (pos - 12)),
                forall|j: int| 0 <= j < k ==> range_fits(#[trigger] ms[j], data@.len() as int),
            decreases entries@.len() - k,
        {
            let off = entries[k].offset;
            let size = entries[k].size;
            if off > dlen || size > dlen - off {
                proof {
                    assert(first_misfit(ms, data@.len() as int, k as int));
                    let c = choose|c: int| first_misfit(ms, data@.len() as int, c);
                    if c < k {
                        assert(range_fits(ms[c], data@.len() as int));
                    }
                    if c > k {
                        assert(range_fits(ms[k as int], data@.len() as int));
                    }
                }
                return Err(BundleError::DataOutOfRange(k as u32));
            }
            k = k + 1;
        }
        proof {
            assert forall|c: int| !first_misfit(ms, data@.len() as int, c) by {
                if 0 <= c < ms.len() {
                    assert(range_fits(ms[c], data@.len() as int));
                }
            }
        }
        Ok(AssetBundle { entries, data })
    }

    /// The data of the first entry whose path is `path`.
    pub fn get(&self, path: &str) -> (r: Option<&[u8]>)
        requires
            forall|k: int|
                0 <= k < self.entries@.len() && #[trigger] self.entries@[k].path@ == path@ && (forall|j: int|
                    0 <= j < k ==> self.entries@[j].path@ != path@) ==> range_fits(
                    entry_model(self.entries@[k]),
                    self.data@.len() as int,
                ),
        ensures
            match r {
                Some(bytes) => exists|k: int|
                    0 <= k < self.entries@.len() && self.entries@[k].path@ == path@
                        && (forall|j: int| 0 <= j < k ==> self.entries@[j].path@ != path@)
                        && bytes@ == self.data@.subrange(
                        self.entries@[k].offset as int,
                        self.entries@[k].offset + self.entries@[k].size,
                    ),
                None => forall|k: int| 0 <= k < self.entries@.len() ==> self.entries@[k].path@ != path@,
            },
    {
        let dlen = self.data.len();
        let mut i: usize = 0;
        while i < self.entries.len()
            invariant
                i <= self.entries@.len(),
                dlen == self.data@.len(),
                forall|k: int|
                    0 <= k < self.entries@.len() && #[trigger] self.entries@[k].path@ == path@ && (forall|j: int|
                        0 <= j < k ==> self.entries@[j].path@ != path@) ==> range_fits(
                        entry_model(self.entries@[k]),
                        self.data@.len() as int,
                    ),
                forall|j: int| 0 <= j < i ==> self.entries@[j].path@ != path@,
            decreases self.entries@.len() - i,
        {
            if str_eq(self.entries[i].path.as_str(), path) {
                proof {
                    assert(range_fits(entry_model(self.entries@[i as int]), self.data@.len() as int));
                }
                let start = self.entries[i].offset as usize;
                let end = (self.entries[i].offset + self.entries[i].size) as usize;
                return Some(&self.data.as_slice()[start..end]);
            }
            i = i + 1;
        }
        None
    }

    /// The data of entry `index`.
    pub fn get_by_index(&self, index: usize) -> (r: Option<&[u8]>)
        requires
            index < self.entries@.len() ==> range_fits(entry_model(self.entries@[index as int]), self.data@.len() as int),
        ensures
            match r {
                Some(bytes) => index < self.entries@.len() && bytes@ == self.data@.subrange(
                    self.entries@[index as int].offset as int,
                    self.entries@[index as int].offset + self.entries@[index as int].size,
                ),
                None => index >= self.entries@.len(),
            },
    {
        let dlen = self.data.len();
        if index < self.entries.len() {
            let start = self.entries[index].offset as usize;
            let end = (self.entries[index].offset + self.entries[index].size) as usize;
            Some(&self.data.as_slice()[start..end])
        } else {
            None
        }
    }

    /// Each path of the bundle once, in the order paths first appear, with
    /// the index of the last entry that has it.
    pub fn build_index(&self) -> (r: Vec<(String, usize)>)
        ensures
            index_wf(r@, self.entries@),
            index_covers(r@, self.entries@, self.entries@.len() as int),
    {
        let mut index: Vec<(String, usize)> = Vec::new();
        let mut i: usize = 0;
        while i < self.entries.len()
            invariant
                i <= self.entries@.len(),
                index_wf_upto(index@, self.entries@, i as int),
                index_covers(index@, self.entries@, i as int),
            decreases self.entries@.len() - i,
        {
            let ghost before = index@;
            let ghost e = self.entries@;
            let ghost p = e[i as int].path@;
            let ghost mut slot: int = 0;
            match find_path(&index, self.entries[i].path.as_str()) {
                Some(j) => {
                    let name = index[j].0.clone();
                    index.set(j, (name, i));
                    proof {
                        slot = j as int;
                        assert(index@ == before.update(j as int, (name, i)));
                        assert forall|a: int, b: int| 0 <= a < b < index@.len() implies (#[trigger] index@[a]).0@
                            != (#[trigger] index@[b]).0@ by {
                            assert(index@[a].0@ == before[a].0@);
                            assert(index@[b].0@ == before[b].0@);
                        }
                        assert forall|t: int| 0 <= t < index@.len() implies {
                            let k = (#[trigger] index@[t]).1 as int;
                            &&& 0 <= k < i + 1
                            &&& e[k].path@ == index@[t].0@
                            &&& forall|jj: int| k < jj < i + 1 ==> e[jj].path@ != index@[t].0@
                        } by {
                            if t != j {
                                assert(index@[t] == before[t]);
                                assert(before[t].0@ != before[j as int].0@);
                            }
                        }
                    }
                },
                None => {
                    index.push((self.entries[i].path.clone(), i));
                    proof {
                        slot = before.len() as int;
                        assert(index@[slot].0@ == p);
                        assert forall|a: int, b: int| 0 <= a < b < index@.len() implies (#[trigger] index@[a]).0@
                            != (#[trigger] index@[b]).0@ by {
                            if b == before.len() {
                                assert(index@[a] == before[a]);
                            } else {
                                assert(index@[a] == before[a]);
                                assert(index@[b] == before[b]);
                            }
                        }
                        assert forall|t: int| 0 <= t < index@.len() implies {
                            let k = (#[trigger] index@[t]).1 as int;
                            &&& 0 <= k < i + 1
                            &&& e[k].path@ == index@[t].0@
                            &&& forall|jj: int| k < jj < i + 1 ==> e[jj].path@ != index@[t].0@
                        } by {
                            if t < before.len() {
                                assert(index@[t] == before[t]);
                            }
                        }
                    }
                },
            }
            proof {
                assert forall|k: int| #![trigger e[k]] 0 <= k < i + 1 implies exists|t: int|
                    0 <= t < index@.len() && #[trigger] index@[t].0@ == e[k].path@ by {
                    if k < i {
                        let t = choose|t: int| 0 <= t < before.len() && #[trigger] before[t].0@ == e[k].path@;
                        assert(index@[t].0@ == before[t].0@);
                    } else {
                        assert(index@[slot].0@ == e[k].path@);
                    }
                }
            }
            i = i + 1;
        }
        index
    }
}

/// Where `path` stands among the paths of `index`.
fn find_path(index: &Vec<(String, usize)>, path: &str) -> (r: Option<usize>)
    ensures
        match r {
            Some(j) => j < index@.len() && index@[j as int].0@ == path@,
            None => forall|t: int| 0 <= t < index@.len() ==> (#[trigger] index@[t]).0@ != path@,
        },
{
    let mut j: usize = 0;
    while j < index.len()
        invariant
            j <= index@.len(),
            forall|t: int| 0 <= t < j ==> (#[trigger] index@[t]).0@ != path@,
        decreases index@.len() - j,
    {
        if str_eq(index[j].0.as_str(), path) {
            return Some(j);
        }
        j = j + 1;
    }
    None
}

/// `index` pairs distinct paths with the last of the first `n` entries that
/// has each one.
pub open spec fn index_wf_upto(index: Seq<(String, usize)>, entries: Seq<BundleEntry>, n: int) -> bool {
    &&& forall|a: int, b: int| 0 <= a < b < index.len() ==> (#[trigger] index[a]).0@ != (#[trigger] index[b]).0@
    &&& forall|t: int| 0 <= t < index.len() ==> {
        let k = (#[trigger] index[t]).1 as int;
        &&& 0 <= k < n
        &&& entries[k].path@ == index[t].0@
        &&& forall|j: int| k < j < n ==> entries[j].path@ != index[t].0@
    }
}

/// Every path of the first `n` entries is in `index`.
pub open spec fn index_covers(index: Seq<(String, usize)>, entries: Seq<BundleEntry>, n: int) -> bool {
    forall|k: int| #![trigger entries[k]] 0 <= k < n ==> exists|j: int| 0 <= j < index.len() && #[trigger] index[j].0@ == entries[k].path@
}

/// `index` pairs each of its distinct paths with the last entry that has it.
pub open spec fn index_wf(index: Seq<(String, usize)>, entries: Seq<BundleEntry>) -> bool {
    index_wf_upto(index, entries, entries.len() as int)
}

impl Default for AssetBundle {
    fn default() -> (b: Self)
        ensures
            b.entries@ == Seq::<BundleEntry>::empty(),
            b.data@ == Seq::<u8>::empty(),
    {
        AssetBundle::new()
    }
}

proof fn lemma_after_empty(r: Result<(Seq<EntryModel>, int), BundleError>)
    ensures
        after(Seq::empty(), 0, r) == r,
{
    match r {
        Err(e) => {},
        Ok((ms, u)) => {
            assert(Seq::<EntryModel>::empty() + ms =~= ms);
        },
    }
}

proof fn lemma_after_step(
    ms0: Seq<EntryModel>,
    used0: int,
    m: EntryModel,
    used: int,
    rest: Result<(Seq<EntryModel>, int), BundleError>,
)
    ensures
        after(ms0, used0, match rest {
            Err(e) => Err(e),
            Ok((ms, u)) => Ok((seq![m] + ms, used + u)),
        }) == after(ms0.push(m), used0 + used, rest),
{
    match rest {
        Err(e) => {},
        Ok((ms, u)) => {
            assert(ms0 + (seq![m] + ms) =~= ms0.push(m) + ms);
        },
    }
}

/// Read manifest entry `i` starting at `pos`.
fn parse_entry_at(bytes: &[u8], pos: usize, i: u32) -> (r: Result<(BundleEntry, usize), BundleError>)
    requires
        pos <= bytes@.len(),
    ensures
        match r {
            Ok((e, used)) => pos + used <= bytes@.len() && parse_entry(bytes@.skip(pos as int), i)
                == Ok::<(EntryModel, int), BundleError>((entry_model(e), used as int)),
            Err(err) => parse_entry(bytes@.skip(pos as int), i) == Err::<(EntryModel, int), BundleError>(err),
        },
{
    let ghost b = bytes@.skip(pos as int);
    let n = bytes.len();
    if n - pos < 2 {
        return Err(BundleError::TruncatedTagLength(i));
    }
    let tl = u16_from_le_bytes(&bytes[pos..pos + 2]) as usize;
    proof {
        assert(bytes@.subrange(pos as int, pos + 2) =~= b.subrange(0, 2));
    }
    if tl > n - pos - 2 {
        return Err(BundleError::TruncatedTag(i));
    }
    let t0 = pos + 2;
    let tag = match utf8_to_string(&bytes[t0..t0 + tl]) {
        Some(s) => s,
        None => {
            proof {
                assert(bytes@.subrange(t0 as int, t0 + tl) =~= b.subrange(2, 2 + tl));
            }
            return Err(BundleError::InvalidTagUtf8(i));
        },
    };
    proof {
        assert(bytes@.subrange(t0 as int, t0 + tl) =~= b.subrange(2, 2 + tl));
    }
    let p = t0 + tl;
    if n - p < 2 {
        return Err(BundleError::TruncatedPathLength(i));
    }
    let pl = u16_from_le_bytes(&bytes[p..p + 2]) as usize;
    proof {
        assert(bytes@.subrange(p as int, p + 2) =~= b.subrange(p - pos, p - pos + 2));
    }
    if pl > n - p - 2 {
        return Err(BundleError::TruncatedPath(i));
    }
    let p0 = p + 2;
    let path = match utf8_to_string(&bytes[p0..p0 + pl]) {
        Some(s) => s,
        None => {
            proof {
                assert(bytes@.subrange(p0 as int, p0 + pl) =~= b.subrange(p0 - pos, p0 - pos + pl));
            }
            return Err(BundleError::InvalidPathUtf8(i));
        },
    };
    proof {
        assert(bytes@.subrange(p0 as int, p0 + pl) =~= b.subrange(p0 - pos, p0 - pos + pl));
    }
    let q = p0 + pl;
    if n - q < 16 {
        return Err(BundleError::TruncatedOffsetSize(i));
    }
    let offset = u64_from_le_bytes(&bytes[q..q + 8]);
    let size = u64_from_le_bytes(&bytes[q + 8..q + 16]);
    proof {
        assert(bytes@.subrange(q as int, q + 8) =~= b.subrange(q - pos, q - pos + 8));
        assert(bytes@.subrange(q + 8, q + 16) =~= b.subrange(q - pos + 8, q - pos + 16));
    }
    Ok((BundleEntry { type_tag: tag, path, offset, size }, q + 16 - pos))
}

/// The manifest bytes of the first `i` entries.
pub open spec fn manifest_prefix(ms: Seq<EntryModel>, i: int) -> Seq<u8> {
    manifest_bytes(ms.subrange(0, i))
}

proof fn lemma_manifest_append(ms: Seq<EntryModel>, m: EntryModel)
    ensures
        manifest_bytes(ms.push(m)) == manifest_bytes(ms) + entry_bytes(m),
    decreases ms.len(),
{
    if ms.len() == 0 {
        assert(ms.push(m).drop_first() =~= Seq::<EntryModel>::empty());
        assert(manifest_bytes(ms.push(m).drop_first()) =~= Seq::<u8>::empty());
        assert(manifest_bytes(ms) =~= Seq::<u8>::empty());
        assert(manifest_bytes(ms.push(m)) =~= entry_bytes(m));
    } else {
        assert(ms.push(m).drop_first() =~= ms.drop_first().push(m));
        lemma_manifest_append(ms.drop_first(), m);
        assert(manifest_bytes(ms.push(m)) =~= manifest_bytes(ms) + entry_bytes(m));
    }
}

proof fn lemma_manifest_prefix_step(ms: Seq<EntryModel>, i: int)
    requires
        0 <= i < ms.len(),
    ensures
        manifest_prefix(ms, i + 1) == manifest_prefix(ms, i) + entry_bytes(ms[i]),
{
    assert(ms.subrange(0, i + 1) =~= ms.subrange(0, i).push(ms[i]));
    lemma_manifest_append(ms.subrange(0, i), ms[i]);
}

proof fn lemma_manifest_prefix_full(ms: Seq<EntryModel>)
    ensures
        manifest_prefix(ms, ms.len() as int) == manifest_bytes(ms),
{
    assert(ms.subrange(0, ms.len() as int) =~= ms);
}

/// The type tag and the path each take fewer than 65536 bytes of UTF-8,
/// so that their lengths fit the manifest's 16-bit length fields.
pub open spec fn entry_fits(m: EntryModel) -> bool {
    &&& encode_utf8(m.0).len() < 65536
    &&& encode_utf8(m.1).len() < 65536
}

pub open spec fn all_entries_fit(ms: Seq<EntryModel>) -> bool {
    forall|k: int| 0 <= k < ms.len() ==> entry_fits(#[trigger] ms[k])
}

proof fn lemma_parse_entry_roundtrip(m: EntryModel, tail: Seq<u8>, i: u32)
    requires
        entry_fits(m),
    ensures
        parse_entry(entry_bytes(m) + tail, i) == Ok::<(EntryModel, int), BundleError>(
            (m, entry_bytes(m).len() as int),
        ),
{
    broadcast use encode_utf8_valid_utf8, encode_utf8_decode_utf8;

    lemma_auto_spec_u16_to_from_le_bytes();
    lemma_auto_spec_u64_to_from_le_bytes();
    let tag = encode_utf8(m.0);
    let path = encode_utf8(m.1);
    let tl = tag.len() as int;
    let pl = path.len() as int;
    let l16t = spec_u16_to_le_bytes(tag.len() as u16);
    let l16p = spec_u16_to_le_bytes(path.len() as u16);
    let o8 = spec_u64_to_le_bytes(m.2);
    let s8 = spec_u64_to_le_bytes(m.3);
    let e = entry_bytes(m);
    let b = e + tail;
    assert(e =~= l16t + tag + l16p + path + o8 + s8);
    assert(e.len() == 2 + tl + 2 + pl + 16);
    assert(b.subrange(0, 2) =~= l16t);
    assert(u16_at(b, 0) == tl);
    assert(b.subrange(2, 2 + tl) =~= tag);
    let p = 2 + tl;
    assert(b.subrange(p, p + 2) =~= l16p);
    assert(u16_at(b, p) == pl);
    assert(b.subrange(p + 2, p + 2 + pl) =~= path);
    let q = p + 2 + pl;
    assert(b.subrange(q, q + 8) =~= o8);
    assert(b.subrange(q + 8, q + 16) =~= s8);
}

proof fn lemma_parse_manifest_roundtrip(ms: Seq<EntryModel>, i: nat, count: nat, tail: Seq<u8>)
    requires
        i + ms.len() == count,
        count <= u32::MAX,
        all_entries_fit(ms),
    ensures
        parse_manifest(manifest_bytes(ms) + tail, i, count) == Ok::<(Seq<EntryModel>, int), BundleError>(
            (ms, manifest_bytes(ms).len() as int),
        ),
    decreases ms.len(),
{
    let b = manifest_bytes(ms) + tail;
    if ms.len() == 0 {
        assert(manifest_bytes(ms) =~= Seq::<u8>::empty());
        assert(ms =~= Seq::<EntryModel>::empty());
    } else {
        let m = ms[0];
        let rest = ms.drop_first();
        let used = entry_bytes(m).len() as int;
        assert(entry_fits(ms[0]));
        assert(all_entries_fit(rest)) by {
            assert forall|k: int| 0 <= k < rest.len() implies entry_fits(#[trigger] rest[k]) by {
                assert(rest[k] == ms[k + 1]);
            }
        }
        assert(b =~= entry_bytes(m) + (manifest_bytes(rest) + tail));
        lemma_parse_entry_roundtrip(m, manifest_bytes(rest) + tail, i as u32);
        assert(b.skip(used) =~= manifest_bytes(rest) + tail);
        lemma_parse_manifest_roundtrip(rest, i + 1, count, tail);
        assert(seq![m] + rest =~= ms);
    }
}

/// Reading back a written bundle gives its manifest and data: parsing
/// `bundle_bytes(ms, data)` succeeds with exactly `ms` and `data` whenever
/// every tag and path is shorter than 65536 bytes, there are at most
/// `u32::MAX` entries, and every entry's data range lies in `data`.
pub proof fn lemma_bundle_roundtrip(ms: Seq<EntryModel>, data: Seq<u8>)
    requires
        all_entries_fit(ms),
        ms.len() <= u32::MAX,
        ranges_fit(ms, data.len() as int),
    ensures
        parse_bundle(bundle_bytes(ms, data)) == Ok::<(Seq<EntryModel>, Seq<u8>), BundleError>((ms, data)),
{
    lemma_auto_spec_u32_to_from_le_bytes();
    let b = bundle_bytes(ms, data);
    let v = spec_u32_to_le_bytes(1u32);
    let c = spec_u32_to_le_bytes(ms.len() as u32);
    let mb = manifest_bytes(ms);
    assert(b =~= magic() + v + c + (mb + data));
    assert(b.subrange(0, 4) =~= magic());
    assert(b.subrange(4, 8) =~= v);
    assert(b.subrange(8, 12) =~= c);
    assert(b.skip(12) =~= mb + data);
    lemma_parse_manifest_roundtrip(ms, 0, ms.len(), data);
    assert(b.skip(12 + mb.len() as int) =~= data);
    assert forall|k: int| !first_misfit(ms, data.len() as int, k) by {
        if 0 <= k < ms.len() {
            assert(range_fits(ms[k], data.len() as int));
        }
    }
}


/// The manifest and data of a bundle made empty and then given each of
/// `adds` (type tag, path, data) in turn with `add`.
pub open spec fn built(adds: Seq<(Seq<char>, Seq<char>, Seq<u8>)>) -> (Seq<EntryModel>, Seq<u8>)
    decreases adds.len(),
{
    if adds.len() == 0 {
        (Seq::empty(), Seq::empty())
    } else {
        let (ms, d) = built(adds.drop_last());
        let (t, p, x) = adds.last();
        (ms.push((t, p, d.len() as u64, x.len() as u64)), d + x)
    }
}

/// The data of a built bundle is all added data, and every entry's range
/// lies inside it.
proof fn lemma_built_fits(adds: Seq<(Seq<char>, Seq<char>, Seq<u8>)>)
    requires
        built(adds).1.len() <= u64::MAX,
    ensures
        built(adds).0.len() == adds.len(),
        ranges_fit(built(adds).0, built(adds).1.len() as int),
        forall|k: int| 0 <= k < adds.len() ==> (#[trigger] built(adds).0[k]).0 == adds[k].0 && built(adds).0[k].1 == adds[k].1,
    decreases adds.len(),
{
    if adds.len() > 0 {
        let prev = adds.drop_last();
        let (ms, d) = built(prev);
        assert(d.len() <= built(adds).1.len());
        lemma_built_fits(prev);
        let ms2 = built(adds).0;
        assert forall|k: int| 0 <= k < ms2.len() implies range_fits(#[trigger] ms2[k], built(adds).1.len() as int) by {
            if k < ms.len() {
                assert(ms2[k] == ms[k]);
            }
        }
        assert forall|k: int| 0 <= k < adds.len() implies (#[trigger] ms2[k]).0 == adds[k].0 && ms2[k].1 == adds[k].1 by {
            if k < ms.len() {
                assert(ms2[k] == ms[k]);
                assert(prev[k] == adds[k]);
            }
        }
    }
}

/// A bundle built from an empty one by `add` alone reads back from its
/// bytes as the same manifest and data, when every tag and path is shorter
/// than 65536 bytes, there are at most `u32::MAX` entries and the data fits
/// in a `u64` length.
pub proof fn lemma_built_bundle_roundtrip(adds: Seq<(Seq<char>, Seq<char>, Seq<u8>)>)
    requires
        forall|k: int|
            0 <= k < adds.len() ==> encode_utf8((#[trigger] adds[k]).0).len() < 65536 && encode_utf8(adds[k].1).len() < 65536,
        adds.len() <= u32::MAX,
        built(adds).1.len() <= u64::MAX,
    ensures
        parse_bundle(bundle_bytes(built(adds).0, built(adds).1)) == Ok::<(Seq<EntryModel>, Seq<u8>), BundleError>(built(adds)),
{
    lemma_built_fits(adds);
    let ms = built(adds).0;
    assert forall|k: int| 0 <= k < ms.len() implies entry_fits(#[trigger] ms[k]) by {
        assert(ms[k].0 == adds[k].0 && ms[k].1 == adds[k].1);
    }
    lemma_bundle_roundtrip(ms, built(adds).1);
}

} // verus!
