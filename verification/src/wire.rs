//! The leaf encodings of the message envelope: four-byte lengths, strings and
//! 64-bit integers, read and written by the `bebop` runtime.
//!
//! The functions here are the only ones whose contracts are taken on trust
//! from `bebop`'s source; everything built on them is verified.

use vstd::prelude::*;
use vstd::bytes::*;
use vstd::utf8::*;
use bebop::SubRecord;

verus! {

/// The length that the first four bytes of `b` hold, little-endian.
pub open spec fn len_prefix(b: Seq<u8>) -> int
    recommends
        b.len() >= 4,
{
    spec_u32_from_le_bytes(b.subrange(0, 4)) as int
}

/// The four little-endian bytes of a length.
pub open spec fn len_bytes(n: nat) -> Seq<u8>
    recommends
        n <= u32::MAX,
{
    spec_u32_to_le_bytes(n as u32)
}

/// The signed integer that the first eight bytes of `b` hold, little-endian
/// in two's complement.
pub open spec fn i64_prefix(b: Seq<u8>) -> i64
    recommends
        b.len() >= 8,
{
    spec_u64_from_le_bytes(b.subrange(0, 8)) as i64
}

/// The eight little-endian bytes of a signed integer in two's complement.
pub open spec fn i64_bytes(v: i64) -> Seq<u8> {
    spec_u64_to_le_bytes(v as u64)
}

/// A string on the wire: the byte length of its UTF-8 encoding, then the
/// encoding.
pub open spec fn string_bytes(s: Seq<char>) -> Seq<u8> {
    len_bytes(encode_utf8(s).len()) + encode_utf8(s)
}

/// Calls `bebop::read_len`. Trusted: with at least four bytes it returns the
/// little-endian `u32` at the front, widened; with fewer it fails.
#[verifier::external_body]
pub(crate) fn read_len(raw: &[u8]) -> (r: Option<usize>)
    ensures
        r == if raw@.len() >= 4 {
            Some(len_prefix(raw@) as usize)
        } else {
            None
        },
{
    bebop::read_len(raw).ok()
}

/// Calls `bebop::write_len` on a byte vector. Trusted: a length that fits in
/// 32 bits is appended as four little-endian bytes; a larger one fails and
/// writes nothing.
#[verifier::external_body]
pub(crate) fn write_len(dest: &mut Vec<u8>, len: usize) -> (ok: bool)
    ensures
        ok == (len <= u32::MAX),
        final(dest)@ == if ok {
            old(dest)@ + len_bytes(len as nat)
        } else {
            old(dest)@
        },
{
    bebop::write_len(dest, len).is_ok()
}

/// Calls `bebop`'s `SubRecord::_deserialize_chained` for `String`. Trusted: it
/// reads a length prefix and that many bytes, which must be valid UTF-8, and
/// returns the number of bytes read with the decoded string; it fails when
/// bytes are missing or are not UTF-8. The length plus four must fit in
/// `usize`, which `bebop` adds without a check.
#[verifier::external_body]
pub(crate) fn read_string(raw: &[u8]) -> (r: Option<(usize, String)>)
    requires
        raw@.len() >= 4 ==> len_prefix(raw@) + 4 <= usize::MAX,
    ensures
        match r {
            Some((n, s)) => {
                &&& raw@.len() >= 4
                &&& n == len_prefix(raw@) + 4
                &&& n <= raw@.len()
                &&& valid_utf8(raw@.subrange(4, n as int))
                &&& s@ == decode_utf8(raw@.subrange(4, n as int))
            },
            None => {
                ||| raw@.len() < 4
                ||| len_prefix(raw@) + 4 > raw@.len()
                ||| !valid_utf8(raw@.subrange(4, len_prefix(raw@) + 4))
            },
        },
{
    <String as SubRecord>::_deserialize_chained(raw).ok()
}

/// Calls `bebop`'s `SubRecord::_serialize_chained` for `&str` on a byte
/// vector. Trusted: it appends the byte length of the string as a length
/// prefix and then the string's UTF-8 bytes; a string longer than 32 bits can
/// count fails and writes nothing.
#[verifier::external_body]
pub(crate) fn write_string(dest: &mut Vec<u8>, s: &str) -> (ok: bool)
    ensures
        ok == (encode_utf8(s@).len() <= u32::MAX),
        final(dest)@ == if ok {
            old(dest)@ + string_bytes(s@)
        } else {
            old(dest)@
        },
{
    s._serialize_chained(dest).is_ok()
}

/// Calls `bebop`'s `SubRecord::_deserialize_chained` for `i64`. Trusted: with
/// at least eight bytes it returns the little-endian integer at the front;
/// with fewer it fails.
#[verifier::external_body]
pub(crate) fn read_i64(raw: &[u8]) -> (r: Option<i64>)
    ensures
        r == if raw@.len() >= 8 {
            Some(i64_prefix(raw@))
        } else {
            None
        },
{
    <i64 as SubRecord>::_deserialize_chained(raw).ok().map(|(_, v)| v)
}

/// Calls `bebop`'s `SubRecord::_serialize_chained` for `i64` on a byte
/// vector. Trusted: it appends the eight little-endian bytes of the integer.
#[verifier::external_body]
pub(crate) fn write_i64(dest: &mut Vec<u8>, v: i64)
    ensures
        final(dest)@ == old(dest)@ + i64_bytes(v),
{
    let _ = v._serialize_chained(dest);
}

} // verus!
