//! Reading from a `bytes::Bytes` cursor, and big-endian integers.
//!
//! The cursor type and its methods belong to the `bytes` crate; what this
//! module says of them is taken on trust from that crate's source.

use bytes::Bytes;
use vstd::prelude::*;
use vstd::utf8::*;

verus! {

/// The reference-counted byte buffer of the `bytes` crate. Its inside is
/// hidden from the verifier; see [`unread`].
#[verifier::external_type_specification]
#[verifier::external_body]
pub struct ExBytes(bytes::Bytes);

/// The bytes that a cursor has still to hand out, front first.
pub uninterp spec fn unread(cursor: Bytes) -> Seq<u8>;

/// What `String::from_utf8_lossy` makes of a byte sequence that is not
/// valid UTF-8.
pub uninterp spec fn lossy_text(bytes: Seq<u8>) -> Seq<char>;

/// The 16-bit number whose big-endian bytes are `hi`, `lo`.
pub open spec fn be16(hi: u8, lo: u8) -> u16 {
    (hi as int * 256 + lo as int) as u16
}

/// The 32-bit number whose big-endian bytes are `b0` to `b3`.
pub open spec fn be32(b0: u8, b1: u8, b2: u8, b3: u8) -> u32 {
    (((b0 as int * 256 + b1 as int) * 256 + b2 as int) * 256 + b3 as int) as u32
}

/// The two big-endian bytes of `v`.
pub open spec fn be16_bytes(v: u16) -> Seq<u8> {
    seq![(v / 256) as u8, (v % 256) as u8]
}

/// The four big-endian bytes of `v`.
pub open spec fn be32_bytes(v: u32) -> Seq<u8> {
    seq![
        (v / 16777216) as u8,
        ((v / 65536) % 256) as u8,
        ((v / 256) % 256) as u8,
        (v % 256) as u8,
    ]
}

/// `Buf::remaining` on `Bytes`: the number of bytes not yet read.
#[verifier::external_body]
pub(crate) fn remaining(cursor: &Bytes) -> (n: usize)
    ensures
        n == unread(*cursor).len(),
{
    bytes::Buf::remaining(cursor)
}

/// `Buf::get_u8` on `Bytes`: hands out the first unread byte and steps over
/// it. The call panics on an empty cursor, which the precondition excludes.
#[verifier::external_body]
pub(crate) fn get_u8(cursor: &mut Bytes) -> (v: u8)
    requires
        unread(*old(cursor)).len() >= 1,
    ensures
        v == unread(*old(cursor))[0],
        unread(*final(cursor)) == unread(*old(cursor)).skip(1),
{
    bytes::Buf::get_u8(cursor)
}

/// `Buf::get_u16` on `Bytes`: reads the first two unread bytes as a
/// big-endian number and steps over them. The call panics when fewer than
/// two bytes are left, which the precondition excludes.
#[verifier::external_body]
pub(crate) fn get_u16(cursor: &mut Bytes) -> (v: u16)
    requires
        unread(*old(cursor)).len() >= 2,
    ensures
        v == be16(unread(*old(cursor))[0], unread(*old(cursor))[1]),
        unread(*final(cursor)) == unread(*old(cursor)).skip(2),
{
    bytes::Buf::get_u16(cursor)
}

/// `Buf::get_u32` on `Bytes`: reads the first four unread bytes as a
/// big-endian number and steps over them. The call panics when fewer than
/// four bytes are left, which the precondition excludes.
#[verifier::external_body]
pub(crate) fn get_u32(cursor: &mut Bytes) -> (v: u32)
    requires
        unread(*old(cursor)).len() >= 4,
    ensures
        v == be32(
            unread(*old(cursor))[0],
            unread(*old(cursor))[1],
            unread(*old(cursor))[2],
            unread(*old(cursor))[3],
        ),
        unread(*final(cursor)) == unread(*old(cursor)).skip(4),
{
    bytes::Buf::get_u32(cursor)
}

/// `Buf::copy_to_bytes` on `Bytes`, copied out into a vector: hands out the
/// first `n` unread bytes and steps over them. The call panics when fewer
/// than `n` bytes are left, which the precondition excludes.
#[verifier::external_body]
pub(crate) fn take_bytes(cursor: &mut Bytes, n: usize) -> (out: Vec<u8>)
    requires
        n <= unread(*old(cursor)).len(),
    ensures
        out@ == unread(*old(cursor)).take(n as int),
        unread(*final(cursor)) == unread(*old(cursor)).skip(n as int),
{
    bytes::Buf::copy_to_bytes(cursor, n).to_vec()
}

/// `Bytes::copy_from_slice` on the part of `packet` from `offset` on: a
/// fresh cursor over a copy of those bytes.
#[verifier::external_body]
pub(crate) fn cursor_at(packet: &[u8], offset: usize) -> (cursor: Bytes)
    requires
        offset <= packet@.len(),
    ensures
        unread(cursor) == packet@.skip(offset as int),
{
    Bytes::copy_from_slice(&packet[offset..])
}

/// `Clone::clone` on `Bytes`: a second cursor over the same unread bytes.
#[verifier::external_body]
pub(crate) fn fork(cursor: &Bytes) -> (copy: Bytes)
    ensures
        unread(copy) == unread(*cursor),
{
    cursor.clone()
}

/// The text of a run of bytes: the characters that the bytes encode where
/// they are valid UTF-8, and otherwise what the standard library's lossy
/// conversion makes of them.
pub open spec fn label_text(bytes: Seq<u8>) -> Seq<char> {
    if valid_utf8(bytes) {
        decode_utf8(bytes)
    } else {
        lossy_text(bytes)
    }
}

/// `String::from_utf8_lossy`, made into an owned string. Valid UTF-8 comes
/// back as the text it encodes; for other bytes the result is only named,
/// as the text that the standard library substitutes.
#[verifier::external_body]
pub(crate) fn text_of(bytes: &[u8]) -> (text: String)
    ensures
        text@ == label_text(bytes@),
        !valid_utf8(bytes@) ==> text@ == lossy_text(bytes@),
{
    String::from_utf8_lossy(bytes).into_owned()
}

/// Appends the two big-endian bytes of `v` to `out`.
pub fn put_u16(out: &mut Vec<u8>, v: u16)
    ensures
        final(out)@ == old(out)@ + be16_bytes(v),
{
    out.push((v / 256) as u8);
    out.push((v % 256) as u8);
}

/// Appends the four big-endian bytes of `v` to `out`.
pub fn put_u32(out: &mut Vec<u8>, v: u32)
    ensures
        final(out)@ == old(out)@ + be32_bytes(v),
{
    out.push((v / 16777216) as u8);
    out.push(((v / 65536) % 256) as u8);
    out.push(((v / 256) % 256) as u8);
    out.push((v % 256) as u8);
}

/// Appends `src` to `out`.
pub fn put_bytes(out: &mut Vec<u8>, src: &Vec<u8>)
    ensures
        final(out)@ == old(out)@ + src@,
{
    let mut i: usize = 0;
    while i < src.len()
        invariant
            i <= src@.len(),
            out@ == old(out)@ + src@.take(i as int),
        decreases src@.len() - i,
    {
        out.push(src[i]);
        assert(src@.take(i + 1) =~= src@.take(i as int).push(src@[i as int]));
        i += 1;
    }
    assert(src@.take(i as int) =~= src@);
}

} // verus!
