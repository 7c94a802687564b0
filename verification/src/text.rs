//! Byte-level helpers shared by the binary formats.

use vstd::prelude::*;
use vstd::string::*;
use vstd::utf8::{decode_utf8, encode_utf8, valid_utf8};

verus! {

/// Calls `String::from_utf8`, which accepts exactly the valid UTF-8 byte
/// strings and decodes them.
#[verifier::external_body]
pub(crate) fn utf8_to_string(bytes: &[u8]) -> (r: Option<String>)
    ensures
        r is Some <==> valid_utf8(bytes@),
        r matches Some(s) ==> s@ == decode_utf8(bytes@),
{
    String::from_utf8(bytes.to_vec()).ok()
}

/// Calls `String::from_iter` on the characters, which makes the string of
/// exactly those characters.
#[verifier::external_body]
pub(crate) fn string_from_chars(cs: &[char]) -> (r: String)
    ensures
        r@ == cs@,
{
    String::from_iter(cs.iter())
}

/// Append `extra` to `out`.
pub fn append_bytes(out: &mut Vec<u8>, extra: &[u8])
    ensures
        final(out)@ == old(out)@ + extra@,
{
    let mut i: usize = 0;
    while i < extra.len()
        invariant
            i <= extra@.len(),
            out@ == old(out)@ + extra@.subrange(0, i as int),
        decreases extra@.len() - i,
    {
        out.push(extra[i]);
        i = i + 1;
        proof {
            assert(extra@.subrange(0, i as int) =~= extra@.subrange(0, i - 1).push(extra@[i - 1]));
        }
    }
    proof {
        assert(extra@.subrange(0, extra@.len() as int) =~= extra@);
    }
}

/// A copy of `bytes[start..end]`.
pub fn copy_range(bytes: &[u8], start: usize, end: usize) -> (r: Vec<u8>)
    requires
        start <= end <= bytes@.len(),
    ensures
        r@ == bytes@.subrange(start as int, end as int),
{
    let mut out: Vec<u8> = Vec::new();
    let mut i: usize = start;
    while i < end
        invariant
            start <= i <= end <= bytes@.len(),
            out@ == bytes@.subrange(start as int, i as int),
        decreases end - i,
    {
        out.push(bytes[i]);
        i = i + 1;
        proof {
            assert(bytes@.subrange(start as int, i as int) =~= bytes@.subrange(start as int, i - 1).push(bytes@[i - 1]));
        }
    }
    out
}

/// Do `bytes[start..start + pattern.len()]` spell out `pattern`?
pub fn bytes_equal_at(bytes: &[u8], start: usize, pattern: &[u8]) -> (r: bool)
    requires
        start + pattern@.len() <= bytes@.len(),
    ensures
        r == (bytes@.subrange(start as int, start + pattern@.len()) == pattern@),
{
    let n = bytes.len();
    let mut i: usize = 0;
    while i < pattern.len()
        invariant
            i <= pattern@.len(),
            n == bytes@.len(),
            start + pattern@.len() <= bytes@.len(),
            forall|k: int| 0 <= k < i ==> bytes@[start + k] == pattern@[k],
        decreases pattern@.len() - i,
    {
        if bytes[start + i] != pattern[i] {
            proof {
                assert(bytes@.subrange(start as int, start + pattern@.len())[i as int] != pattern@[i as int]);
            }
            return false;
        }
        i = i + 1;
    }
    proof {
        assert(bytes@.subrange(start as int, start + pattern@.len()) =~= pattern@);
    }
    true
}

/// Do the two strings hold the same characters?
pub fn str_eq(a: &str, b: &str) -> (r: bool)
    ensures
        r == (a@ == b@),
{
    broadcast use vstd::utf8::encode_utf8_decode_utf8;
    let ab = a.as_bytes();
    let bb = b.as_bytes();
    if ab.len() != bb.len() {
        proof {
            if a@ == b@ {
                assert(a.spec_bytes() == b.spec_bytes());
            }
        }
        return false;
    }
    let r = bytes_equal_at(ab, 0, bb);
    proof {
        assert(ab@.subrange(0, bb@.len() as int) =~= ab@);
        if r {
            assert(decode_utf8(encode_utf8(a@)) == decode_utf8(encode_utf8(b@)));
        }
    }
    r
}

} // verus!
