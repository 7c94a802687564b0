//! Asset handles: an id derived from the asset's path, plus an optional
//! shared count of the strong handles that users hold.

use std::collections::hash_map::DefaultHasher;
use std::hash::Hasher;
use std::marker::PhantomData;
use std::sync::atomic::{AtomicU32, Ordering};
use std::sync::Arc;
use vstd::prelude::*;
use vstd::std_specs::hash::DefaultHasherAdditionalSpecFns;
use vstd::string::*;
use vstd::utf8::encode_utf8;

verus! {

/// Identifier of an asset, the hash of its path.
#[derive(Clone, Copy, PartialEq, Eq, Structural, Hash, Debug)]
pub struct HandleId(pub u64);

/// The id of the asset at `path`: the default hasher's digest of the path's
/// UTF-8 bytes followed by the byte `0xff`, which is how `str` feeds itself
/// to a hasher.
pub open spec fn path_hash(path: Seq<char>) -> u64 {
    DefaultHasher::spec_finish(seq![encode_utf8(path), seq![0xffu8]])
}

impl HandleId {
    pub fn from_path(path: &str) -> (id: HandleId)
        ensures
            id.0 == path_hash(path@),
    {
        let mut hasher = DefaultHasher::new();
        let bytes = path.as_bytes();
        hasher.write(bytes);
        let terminator: [u8; 1] = [0xffu8];
        let tail = terminator.as_slice();
        hasher.write(tail);
        proof {
            assert(tail@ =~= seq![0xffu8]);
            assert(bytes@ == encode_utf8(path@));
            assert(hasher@ =~= seq![encode_utf8(path@), seq![0xffu8]]);
        }
        HandleId(hasher.finish())
    }
}

/// Count of the strong handles users hold on an asset. The server and the
/// cache keep clones of the `Arc` but never change the count.
pub type RefCount = Arc<AtomicU32>;

/// A fresh count of zero.
pub fn new_ref_count() -> RefCount {
    Arc::new(AtomicU32::new(0))
}

/// The number of strong handles currently held. Other handles may change
/// it at any moment, so nothing is promised of the value read.
pub fn strong_count(rc: &RefCount) -> u32 {
    rc.load(Ordering::Relaxed)
}

/// Typed reference to an asset: strong (counted, keeps the asset from
/// being evicted) or weak (just the id).
pub struct Handle<T> {
    id: HandleId,
    ref_count: Option<RefCount>,
    marker: PhantomData<T>,
}

impl<T> Handle<T> {
    pub closed spec fn id_view(&self) -> HandleId {
        self.id
    }

    pub closed spec fn strong_view(&self) -> bool {
        self.ref_count is Some
    }

    /// A strong handle; the shared count goes up by one.
    pub fn strong(id: HandleId, ref_count: RefCount) -> (h: Self)
        ensures
            h.id_view() == id,
            h.strong_view(),
    {
        ref_count.fetch_add(1, Ordering::Relaxed);
        Handle { id, ref_count: Some(ref_count), marker: PhantomData }
    }

    /// A weak handle; no count is touched.
    pub fn weak(id: HandleId) -> (h: Self)
        ensures
            h.id_view() == id,
            !h.strong_view(),
    {
        Handle { id, ref_count: None, marker: PhantomData }
    }

    pub fn id(&self) -> (r: HandleId)
        ensures
            r == self.id_view(),
    {
        self.id
    }

    pub fn is_strong(&self) -> (r: bool)
        ensures
            r == self.strong_view(),
    {
        self.ref_count.is_some()
    }

    pub fn is_weak(&self) -> (r: bool)
        ensures
            r == !self.strong_view(),
    {
        self.ref_count.is_none()
    }

    /// A weak handle to the same asset.
    pub fn downgrade(&self) -> (h: Handle<T>)
        ensures
            h.id_view() == self.id_view(),
            !h.strong_view(),
    {
        Handle::weak(self.id)
    }

    /// The shared count of strong handles, 0 for a weak handle. For a strong
    /// handle it is read from the shared count, which other handles change.
    pub fn ref_count(&self) -> (r: u32)
        ensures
            !self.strong_view() ==> r == 0,
    {
        match &self.ref_count {
            Some(rc) => rc.load(Ordering::Relaxed),
            None => 0,
        }
    }
}

impl<T> Clone for Handle<T> {
    /// Another handle to the same asset, of the same strength; cloning a
    /// strong handle raises the shared count by one.
    fn clone(&self) -> (h: Self)
        ensures
            h.id_view() == self.id_view(),
            h.strong_view() == self.strong_view(),
    {
        match &self.ref_count {
            Some(rc) => {
                rc.fetch_add(1, Ordering::Relaxed);
                Handle { id: self.id, ref_count: Some(rc.clone()), marker: PhantomData }
            },
            None => Handle { id: self.id, ref_count: None, marker: PhantomData },
        }
    }
}

impl<T> Drop for Handle<T> {
    /// Dropping a strong handle lowers the shared count by one.
    fn drop(&mut self)
        opens_invariants none
        no_unwind
    {
        match &self.ref_count {
            Some(rc) => release(rc),
            None => {},
        }
    }
}

/// Lower a shared count by one: calls `AtomicU32::fetch_sub`, which wraps
/// on overflow and never panics. Nothing is stated of the count, which
/// other handles change too.
#[verifier::external_body]
fn release(rc: &AtomicU32)
    opens_invariants none
    no_unwind
{
    rc.fetch_sub(1, Ordering::Relaxed);
}

} // verus!
