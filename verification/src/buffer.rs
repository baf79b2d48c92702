//! The byte buffers that frames are read from and written to, and the
//! byte-level conversions that the codec relies on.
use vstd::prelude::*;
use vstd::utf8::*;
use bytes::BytesMut;
use byteorder::{ByteOrder, NetworkEndian};

verus! {

/// `bytes::BytesMut`, the growable byte buffer of the framing layer.
#[verifier::external_type_specification]
#[verifier::external_body]
pub struct ExBytesMut(bytes::BytesMut);

/// The bytes that a `BytesMut` holds, in order.
pub uninterp spec fn buffer_contents(buf: BytesMut) -> Seq<u8>;

/// What `String::from_utf8_lossy` makes of bytes that are not valid UTF-8.
pub uninterp spec fn utf8_lossy(bytes: Seq<u8>) -> Seq<char>;

/// The text that `String::from_utf8_lossy` decodes from `bytes`: for valid
/// UTF-8 the decoded characters, otherwise its replacement-character
/// rendering.
pub open spec fn lossy_text(bytes: Seq<u8>) -> Seq<char> {
    if valid_utf8(bytes) {
        decode_utf8(bytes)
    } else {
        utf8_lossy(bytes)
    }
}

/// The big-endian value of the two bytes at `i`.
pub open spec fn be16_at(b: Seq<u8>, i: int) -> nat {
    (b[i] as nat) * 256 + (b[i + 1] as nat)
}

/// The big-endian value of the four bytes at `i`.
pub open spec fn be32_at(b: Seq<u8>, i: int) -> nat {
    (((b[i] as nat) * 256 + (b[i + 1] as nat)) * 256 + (b[i + 2] as nat)) * 256 + (b[i + 3] as nat)
}

/// The two big-endian bytes of `n`.
pub open spec fn be16_bytes(n: nat) -> Seq<u8> {
    seq![(n / 256) as u8, (n % 256) as u8]
}

/// The four big-endian bytes of `n`.
pub open spec fn be32_bytes(n: nat) -> Seq<u8> {
    seq![(n / 16777216) as u8, ((n / 65536) % 256) as u8, ((n / 256) % 256) as u8, (n % 256) as u8]
}

/// `BytesMut::len`: the number of bytes held.
#[verifier::external_body]
pub(crate) fn buffer_len(buf: &BytesMut) -> (n: usize)
    ensures
        n == buffer_contents(*buf).len(),
{
    buf.len()
}

/// `BytesMut::split_to`: removes the first `at` bytes and returns them as a
/// buffer of their own (it panics when `at` exceeds the length).
#[verifier::external_body]
pub(crate) fn buffer_split_to(buf: &mut BytesMut, at: usize) -> (head: BytesMut)
    requires
        at <= buffer_contents(*old(buf)).len(),
    ensures
        buffer_contents(head) == buffer_contents(*old(buf)).take(at as int),
        buffer_contents(*final(buf)) == buffer_contents(*old(buf)).skip(at as int),
{
    buf.split_to(at)
}

/// `BytesMut::as_ref`: the held bytes as a slice.
#[verifier::external_body]
pub(crate) fn buffer_bytes(buf: &BytesMut) -> (b: &[u8])
    ensures
        b@ == buffer_contents(*buf),
{
    buf.as_ref()
}

/// `BytesMut::extend_from_slice`: appends `bytes`, growing the buffer as needed.
#[verifier::external_body]
pub(crate) fn buffer_extend(buf: &mut BytesMut, bytes: &[u8])
    ensures
        buffer_contents(*final(buf)) == buffer_contents(*old(buf)) + bytes@,
{
    buf.extend_from_slice(bytes)
}

/// `NetworkEndian::read_u16`: the big-endian value of the first two bytes
/// (it panics on fewer).
#[verifier::external_body]
pub(crate) fn read_be_u16(b: &[u8]) -> (v: u16)
    requires
        b@.len() >= 2,
    ensures
        v == be16_at(b@, 0),
{
    NetworkEndian::read_u16(b)
}

/// `NetworkEndian::read_u32`: the big-endian value of the first four bytes
/// (it panics on fewer).
#[verifier::external_body]
pub(crate) fn read_be_u32(b: &[u8]) -> (v: u32)
    requires
        b@.len() >= 4,
    ensures
        v == be32_at(b@, 0),
{
    NetworkEndian::read_u32(b)
}

/// `NetworkEndian::write_u16` into a two-byte array: the big-endian bytes of `n`.
#[verifier::external_body]
pub(crate) fn be_u16_bytes(n: u16) -> (b: [u8; 2])
    ensures
        b@ == be16_bytes(n as nat),
{
    let mut b = [0u8; 2];
    NetworkEndian::write_u16(&mut b, n);
    b
}

/// `NetworkEndian::write_u32` into a four-byte array: the big-endian bytes of `n`.
#[verifier::external_body]
pub(crate) fn be_u32_bytes(n: u32) -> (b: [u8; 4])
    ensures
        b@ == be32_bytes(n as nat),
{
    let mut b = [0u8; 4];
    NetworkEndian::write_u32(&mut b, n);
    b
}

/// `String::from_utf8_lossy`: decodes the bytes, putting U+FFFD in place of
/// invalid sequences; valid UTF-8 decodes to exactly its characters.
#[verifier::external_body]
pub(crate) fn decode_lossy(bytes: &[u8]) -> (s: String)
    ensures
        valid_utf8(bytes@) ==> s@ == decode_utf8(bytes@),
        !valid_utf8(bytes@) ==> s@ == utf8_lossy(bytes@),
{
    String::from_utf8_lossy(bytes).into_owned()
}

} // verus!
