//! Shared and growing byte buffers of the `bytes` crate, with their contents
//! as sequences of bytes.

use vstd::prelude::*;

verus! {

/// `bytes::Bytes`: an immutable, cheaply cloned run of bytes.
#[verifier::external_type_specification]
#[verifier::external_body]
pub struct ExBytes(bytes::Bytes);

/// `bytes::BytesMut`: a growing byte buffer.
#[verifier::external_type_specification]
#[verifier::external_body]
pub struct ExBytesMut(bytes::BytesMut);

/// The bytes that a `bytes::Bytes` holds.
pub uninterp spec fn bytes_content(b: bytes::Bytes) -> Seq<u8>;

/// The bytes that a `bytes::BytesMut` holds.
pub uninterp spec fn buffer_content(b: bytes::BytesMut) -> Seq<u8>;

/// `Bytes::from(Vec<u8>)`: the handle holds the vector's bytes.
#[verifier::external_body]
pub(crate) fn bytes_from_vec(v: Vec<u8>) -> (b: bytes::Bytes)
    ensures
        bytes_content(b) == v@,
{
    bytes::Bytes::from(v)
}

/// `Bytes::copy_from_slice`: the handle holds a copy of the slice.
#[verifier::external_body]
pub(crate) fn bytes_copy_from_slice(data: &[u8]) -> (b: bytes::Bytes)
    ensures
        bytes_content(b) == data@,
{
    bytes::Bytes::copy_from_slice(data)
}

/// `Bytes::clone`: the clone holds the same bytes.
pub assume_specification[ <bytes::Bytes as Clone>::clone ](b: &bytes::Bytes) -> (r: bytes::Bytes)
    ensures
        bytes_content(r) == bytes_content(*b),
;

/// `Bytes::as_ref`: the bytes held, as a slice.
#[verifier::external_body]
pub(crate) fn bytes_as_slice(b: &bytes::Bytes) -> (r: &[u8])
    ensures
        r@ == bytes_content(*b),
{
    b.as_ref()
}

/// `BytesMut::new`: an empty buffer.
#[verifier::external_body]
pub(crate) fn buffer_new() -> (b: bytes::BytesMut)
    ensures
        buffer_content(b) == Seq::<u8>::empty(),
{
    bytes::BytesMut::new()
}

/// `BytesMut::len`: the number of bytes held.
#[verifier::external_body]
pub(crate) fn buffer_len(b: &bytes::BytesMut) -> (n: usize)
    ensures
        n == buffer_content(*b).len(),
{
    b.len()
}

/// `BytesMut::extend_from_slice`: appends the bytes of the slice. It panics
/// where the buffer would outgrow the largest allocation.
#[verifier::external_body]
pub(crate) fn buffer_extend(b: &mut bytes::BytesMut, bytes: &[u8])
    requires
        buffer_content(*old(b)).len() + bytes@.len() <= isize::MAX,
    ensures
        buffer_content(*final(b)) == buffer_content(*old(b)) + bytes@,
{
    b.extend_from_slice(bytes)
}

/// `BytesMut::split_to`: cuts the first `n` bytes off. It panics where the
/// buffer holds fewer.
#[verifier::external_body]
pub(crate) fn buffer_split_to(b: &mut bytes::BytesMut, n: usize) -> (head: bytes::BytesMut)
    requires
        n <= buffer_content(*old(b)).len(),
    ensures
        buffer_content(head) == buffer_content(*old(b)).take(n as int),
        buffer_content(*final(b)) == buffer_content(*old(b)).skip(n as int),
{
    b.split_to(n)
}

/// `Buf::get_u8` on a `BytesMut`: takes the first byte out. It panics on an
/// empty buffer.
#[verifier::external_body]
pub(crate) fn buffer_get_u8(b: &mut bytes::BytesMut) -> (byte: u8)
    requires
        buffer_content(*old(b)).len() > 0,
    ensures
        byte == buffer_content(*old(b))[0],
        buffer_content(*final(b)) == buffer_content(*old(b)).skip(1),
{
    bytes::Buf::get_u8(b)
}

/// `BytesMut::freeze`: the immutable handle holds the same bytes.
#[verifier::external_body]
pub(crate) fn buffer_freeze(b: bytes::BytesMut) -> (r: bytes::Bytes)
    ensures
        bytes_content(r) == buffer_content(b),
{
    b.freeze()
}

/// `BytesMut::as_ref`: the bytes held, as a slice.
#[verifier::external_body]
pub(crate) fn buffer_as_slice(b: &bytes::BytesMut) -> (r: &[u8])
    ensures
        r@ == buffer_content(*b),
{
    b.as_ref()
}

/// The four bytes of `x`, most significant first.
pub open spec fn be32_bytes(x: u32) -> Seq<u8> {
    seq![
        (x / 0x100_0000) as u8,
        (x / 0x1_0000 % 0x100) as u8,
        (x / 0x100 % 0x100) as u8,
        (x % 0x100) as u8,
    ]
}

/// The number that four bytes, most significant first, stand for.
pub open spec fn be32_value(s: Seq<u8>) -> u32 {
    (s[0] * 0x100_0000 + s[1] * 0x1_0000 + s[2] * 0x100 + s[3]) as u32
}

/// Writing a number and reading it back gives the number.
pub proof fn law_be32_round_trip(x: u32)
    ensures
        be32_bytes(x).len() == 4,
        be32_value(be32_bytes(x)) == x,
{
}

/// The first of the four bytes counts most, and each a two hundred and fifty-sixth of
/// the one before.
pub proof fn law_first_byte_counts_most(x: u32, a: u8, b: u8, c: u8, d: u8)
    ensures
        be32_bytes(x)[0] * 16_777_216 + be32_bytes(x)[1] * 65_536 + be32_bytes(x)[2] * 256
            + be32_bytes(x)[3] == x,
        be32_value(seq![a, b, c, d]) == a * 16_777_216 + b * 65_536 + c * 256 + d,
{
}

/// Appends the four bytes of `x`, most significant first.
pub fn put_be32(dst: &mut Vec<u8>, x: u32)
    ensures
        final(dst)@ == old(dst)@ + be32_bytes(x),
{
    dst.push((x / 0x100_0000) as u8);
    dst.push((x / 0x1_0000 % 0x100) as u8);
    dst.push((x / 0x100 % 0x100) as u8);
    dst.push((x % 0x100) as u8);
    assert(dst@ =~= old(dst)@ + be32_bytes(x));
}

/// The number in the four bytes of `src` from `at` on.
pub fn get_be32(src: &[u8], at: usize) -> (x: u32)
    requires
        at + 4 <= src@.len(),
    ensures
        x == be32_value(src@.subrange(at as int, at + 4)),
{
    let a: u32 = src[at] as u32;
    let b: u32 = src[at + 1] as u32;
    let c: u32 = src[at + 2] as u32;
    let d: u32 = src[at + 3] as u32;
    a * 0x100_0000 + b * 0x1_0000 + c * 0x100 + d
}

/// Appends a run of bytes.
pub fn put_slice(dst: &mut Vec<u8>, bytes: &[u8])
    ensures
        final(dst)@ == old(dst)@ + bytes@,
{
    dst.extend_from_slice(bytes);
    assert(dst@ =~= old(dst)@ + bytes@);
}

/// A copy of the bytes of `src` from `from` up to `to`.
pub fn copy_range(src: &[u8], from: usize, to: usize) -> (v: Vec<u8>)
    requires
        from <= to <= src@.len(),
    ensures
        v@ == src@.subrange(from as int, to as int),
{
    let mut v: Vec<u8> = Vec::new();
    let mut i: usize = from;
    while i < to
        invariant
            from <= i <= to <= src@.len(),
            v@ =~= src@.subrange(from as int, i as int),
        decreases to - i,
    {
        v.push(src[i]);
        i = i + 1;
    }
    v
}

} // verus!
