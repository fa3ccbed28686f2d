//! The frame buffer: `bytes::BytesMut`, seen by the verifier as the sequence
//! of bytes it holds, and the big-endian integers written to and read from it.

use bytes::BytesMut;
use vstd::prelude::*;

verus! {

/// `bytes::BytesMut`. The verifier sees nothing inside it: what it holds is
/// `bytes_of`, and only the specifications below say anything of that.
#[verifier::external_type_specification]
#[verifier::external_body]
pub struct ExBytesMut(bytes::BytesMut);

/// The bytes that a buffer holds, first to last.
pub uninterp spec fn bytes_of(buf: BytesMut) -> Seq<u8>;

/// `BytesMut::with_capacity`: a buffer that holds no bytes, whatever room it
/// has set aside.
pub assume_specification[ BytesMut::with_capacity ](capacity: usize) -> (buf: BytesMut)
    ensures
        bytes_of(buf) == Seq::<u8>::empty(),
;

/// `BytesMut::len`: the number of bytes held.
pub assume_specification[ BytesMut::len ](buf: &BytesMut) -> (n: usize)
    ensures
        n == bytes_of(*buf).len(),
;

/// `BytesMut::extend_from_slice`: the bytes of `extend` are appended.
pub assume_specification[ BytesMut::extend_from_slice ](buf: &mut BytesMut, extend: &[u8])
    ensures
        bytes_of(*final(buf)) == bytes_of(*old(buf)) + extend@,
;

/// `BytesMut::truncate`: the first `len` bytes stay; a `len` beyond the end
/// changes nothing.
pub assume_specification[ BytesMut::truncate ](buf: &mut BytesMut, len: usize)
    ensures
        bytes_of(*final(buf)) == if len <= bytes_of(*old(buf)).len() {
            bytes_of(*old(buf)).take(len as int)
        } else {
            bytes_of(*old(buf))
        },
;

/// `AsRef<[u8]>` for `BytesMut`: the bytes held, as a slice.
pub assume_specification<'a>[ <BytesMut as core::convert::AsRef<[u8]>>::as_ref ](
    buf: &'a BytesMut,
) -> (bytes: &'a [u8])
    ensures
        bytes@ == bytes_of(*buf),
;

/// The bytes held, as a slice.
pub fn as_slice(buf: &BytesMut) -> (bytes: &[u8])
    ensures
        bytes@ == bytes_of(*buf),
{
    buf.as_ref()
}

/// The two bytes of `v`, most significant first.
pub open spec fn be16(v: u16) -> Seq<u8> {
    seq![(v / 256) as u8, (v % 256) as u8]
}

/// The four bytes of `v`, most significant first.
pub open spec fn be32(v: u32) -> Seq<u8> {
    seq![
        (v / 0x100_0000) as u8,
        (v / 0x1_0000 % 256) as u8,
        (v / 0x100 % 256) as u8,
        (v % 256) as u8,
    ]
}

/// The integer whose big-endian bytes are `hi`, `lo`.
pub open spec fn from_be16(hi: u8, lo: u8) -> u16 {
    (hi * 256 + lo) as u16
}

/// The integer whose big-endian bytes are `b0` to `b3`.
pub open spec fn from_be32(b0: u8, b1: u8, b2: u8, b3: u8) -> u32 {
    (b0 * 0x100_0000 + b1 * 0x1_0000 + b2 * 0x100 + b3) as u32
}

/// Reading back what `be16` wrote gives the integer that was written.
pub proof fn lemma_be16_round_trip(v: u16)
    ensures
        be16(v).len() == 2,
        from_be16(be16(v)[0], be16(v)[1]) == v,
{
}

/// Appends one byte.
pub fn put_u8(buf: &mut BytesMut, v: u8)
    ensures
        bytes_of(*final(buf)) == bytes_of(*old(buf)).push(v),
{
    let one: [u8; 1] = [v];
    buf.extend_from_slice(&one);
    assert(one@ =~= seq![v]);
    assert(bytes_of(*old(buf)) + seq![v] =~= bytes_of(*old(buf)).push(v));
}

/// Appends a 16-bit integer, most significant byte first.
pub fn put_u16(buf: &mut BytesMut, v: u16)
    ensures
        bytes_of(*final(buf)) == bytes_of(*old(buf)) + be16(v),
{
    let two: [u8; 2] = [(v / 256) as u8, (v % 256) as u8];
    buf.extend_from_slice(&two);
    assert(two@ =~= be16(v));
}

/// Appends a 32-bit integer, most significant byte first.
pub fn put_u32(buf: &mut BytesMut, v: u32)
    ensures
        bytes_of(*final(buf)) == bytes_of(*old(buf)) + be32(v),
{
    let four: [u8; 4] = [
        (v / 0x100_0000) as u8,
        (v / 0x1_0000 % 256) as u8,
        (v / 0x100 % 256) as u8,
        (v % 256) as u8,
    ];
    buf.extend_from_slice(&four);
    assert(four@ =~= be32(v));
}

/// Reads the 16-bit big-endian integer that starts at `at`.
pub fn get_u16(bytes: &[u8], at: usize) -> (v: u16)
    requires
        at + 2 <= bytes.len(),
    ensures
        v == from_be16(bytes[at as int], bytes[at + 1]),
{
    let hi: u16 = bytes[at] as u16;
    let lo: u16 = bytes[at + 1] as u16;
    hi * 256 + lo
}

/// Reads the 32-bit big-endian integer that starts at `at`.
pub fn get_u32(bytes: &[u8], at: usize) -> (v: u32)
    requires
        at + 4 <= bytes.len(),
    ensures
        v == from_be32(bytes[at as int], bytes[at + 1], bytes[at + 2], bytes[at + 3]),
{
    let b0: u32 = bytes[at] as u32;
    let b1: u32 = bytes[at + 1] as u32;
    let b2: u32 = bytes[at + 2] as u32;
    let b3: u32 = bytes[at + 3] as u32;
    b0 * 0x100_0000 + b1 * 0x1_0000 + b2 * 0x100 + b3
}

} // verus!
