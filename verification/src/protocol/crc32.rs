//! CRC-32 (IEEE 802.3, reflected): the checksum at the end of every frame.

use vstd::prelude::*;

verus! {

/// The reflected generator polynomial.
pub const POLY: u32 = 0xEDB8_8320;

/// One bit of the reflected division.
pub open spec fn crc_bit(c: u32) -> u32 {
    if c & 1 != 0 {
        POLY ^ (c >> 1)
    } else {
        c >> 1
    }
}

/// Eight bits of the reflected division.
pub open spec fn crc_byte(c: u32) -> u32 {
    crc_bit(crc_bit(crc_bit(crc_bit(crc_bit(crc_bit(crc_bit(crc_bit(c))))))))
}

/// The register after the bytes `s` went in, one by one, from `state`.
pub open spec fn crc_fold(state: u32, s: Seq<u8>) -> u32
    decreases s.len(),
{
    if s.len() == 0 {
        state
    } else {
        crc_byte(crc_fold(state, s.drop_last()) ^ (s.last() as u32))
    }
}

/// The CRC-32 of `s`: the register starts all ones and is inverted at the end.
pub open spec fn crc32_of(s: Seq<u8>) -> u32 {
    crc_fold(0xFFFF_FFFF, s) ^ 0xFFFF_FFFF
}

/// Feeding one byte at the end is one more step of the register.
pub proof fn lemma_crc_fold_push(state: u32, s: Seq<u8>, b: u8)
    ensures
        crc_fold(state, s.push(b)) == crc_byte(crc_fold(state, s) ^ (b as u32)),
{
    assert(s.push(b).drop_last() =~= s);
}

/// The checksum may be accumulated piece by piece: feeding `a` and then `b`
/// is feeding `a + b`.
pub proof fn law_crc_is_incremental(state: u32, a: Seq<u8>, b: Seq<u8>)
    ensures
        crc_fold(crc_fold(state, a), b) == crc_fold(state, a + b),
    decreases b.len(),
{
    if b.len() == 0 {
        assert(a + b =~= a);
    } else {
        law_crc_is_incremental(state, a, b.drop_last());
        assert((a + b).drop_last() =~= a + b.drop_last());
    }
}

proof fn lemma_crc_byte_injective(a: u32, b: u32)
    requires
        crc_byte(a) == crc_byte(b),
    ensures
        a == b,
{
    lemma_crc_bit_injective(a, b);
}

proof fn lemma_crc_bit_injective(a: u32, b: u32)
    ensures
        crc_byte(a) == crc_byte(b) ==> a == b,
{
    assert forall|x: u32, y: u32| crc_bit(x) == crc_bit(y) implies x == y by {
        assert(crc_bit(x) == crc_bit(y) ==> x == y) by (bit_vector);
    }
}

proof fn lemma_xor_cancel(c: u32, d: u32, x: u32, y: u32)
    ensures
        c ^ x == d ^ x ==> c == d,
        c ^ x == c ^ y ==> x == y,
{
    assert(c ^ x == d ^ x ==> c == d) by (bit_vector);
    assert(c ^ x == c ^ y ==> x == y) by (bit_vector);
}

/// Two registers that differ still differ after the same bytes.
proof fn lemma_crc_fold_injective(c: u32, d: u32, s: Seq<u8>)
    requires
        crc_fold(c, s) == crc_fold(d, s),
    ensures
        c == d,
    decreases s.len(),
{
    if s.len() > 0 {
        let x = crc_fold(c, s.drop_last());
        let y = crc_fold(d, s.drop_last());
        let b = s.last() as u32;
        lemma_crc_byte_injective(x ^ b, y ^ b);
        lemma_xor_cancel(x, y, b, b);
        lemma_crc_fold_injective(c, d, s.drop_last());
    }
}

/// A change of a single byte, a flipped bit included, always changes the
/// checksum.
pub proof fn law_single_byte_change_is_detected(s: Seq<u8>, i: int, b: u8)
    requires
        0 <= i < s.len(),
        b != s[i],
    ensures
        crc32_of(s.update(i, b)) != crc32_of(s),
{
    let t = s.update(i, b);
    let init = 0xFFFF_FFFFu32;
    let head = s.take(i);
    let tail = s.skip(i + 1);
    assert(s =~= head.push(s[i]) + tail);
    assert(t =~= head.push(b) + tail);
    law_crc_is_incremental(init, head.push(s[i]), tail);
    law_crc_is_incremental(init, head.push(b), tail);
    lemma_crc_fold_push(init, head, s[i]);
    lemma_crc_fold_push(init, head, b);
    let h = crc_fold(init, head);
    if crc32_of(t) == crc32_of(s) {
        lemma_xor_cancel(crc_fold(init, s), crc_fold(init, t), init, init);
        lemma_crc_fold_injective(crc_fold(init, head.push(s[i])), crc_fold(init, head.push(b)), tail);
        lemma_crc_byte_injective(h ^ (s[i] as u32), h ^ (b as u32));
        lemma_xor_cancel(h, h, s[i] as u32, b as u32);
    }
}

/// The eight-bit division of the register splits into that of its low byte
/// and a shift of the rest.
proof fn lemma_low_byte(x: u32)
    ensures
        crc_byte(x) == (x >> 8) ^ crc_byte(x & 0xFF),
{
    assert(crc_byte(x) == (x >> 8) ^ crc_byte(x & 0xFF)) by (bit_vector);
}

/// The table entry of a low byte: its eight-bit division.
fn table_entry(index: u32) -> (c: u32)
    ensures
        c == crc_byte(index),
{
    let mut c: u32 = index;
    let mut k: u32 = 0;
    while k < 8
        invariant
            k <= 8,
            k == 0 ==> c == index,
            k == 1 ==> c == crc_bit(index),
            k == 2 ==> c == crc_bit(crc_bit(index)),
            k == 3 ==> c == crc_bit(crc_bit(crc_bit(index))),
            k == 4 ==> c == crc_bit(crc_bit(crc_bit(crc_bit(index)))),
            k == 5 ==> c == crc_bit(crc_bit(crc_bit(crc_bit(crc_bit(index))))),
            k == 6 ==> c == crc_bit(crc_bit(crc_bit(crc_bit(crc_bit(crc_bit(index)))))),
            k == 7 ==> c == crc_bit(crc_bit(crc_bit(crc_bit(crc_bit(crc_bit(crc_bit(index))))))),
            k == 8 ==> c == crc_byte(index),
        decreases 8 - k,
    {
        c = if c & 1 != 0 {
            POLY ^ (c >> 1)
        } else {
            c >> 1
        };
        k = k + 1;
    }
    c
}

/// A running CRC-32, fed piece by piece.
#[derive(Debug, Clone)]
pub struct Crc32 {
    state: u32,
}

impl View for Crc32 {
    type V = u32;

    /// The register.
    closed spec fn view(&self) -> u32 {
        self.state
    }
}

impl Default for Crc32 {
    fn default() -> (r: Self)
        ensures
            r@ == 0xFFFF_FFFFu32,
    {
        Crc32 { state: 0xFFFF_FFFF }
    }
}

impl Crc32 {
    /// A fresh register, all ones.
    #[must_use]
    pub fn new() -> (r: Self)
        ensures
            r@ == 0xFFFF_FFFFu32,
    {
        Crc32 { state: 0xFFFF_FFFF }
    }

    /// Feeds a run of bytes.
    pub fn update(&mut self, bytes: &[u8])
        ensures
            final(self)@ == crc_fold(old(self)@, bytes@),
    {
        let mut i: usize = 0;
        assert(bytes@.take(0) =~= Seq::<u8>::empty());
        while i < bytes.len()
            invariant
                i <= bytes@.len(),
                self@ == crc_fold(old(self)@, bytes@.take(i as int)),
            decreases bytes@.len() - i,
        {
            let b: u8 = bytes[i];
            let state: u32 = self.state;
            let wide: u32 = b as u32;
            let index: u32 = (state ^ wide) & 0xFF;
            proof {
                lemma_low_byte(state ^ wide);
                assert(wide < 256 ==> (state ^ wide) >> 8 == state >> 8) by (bit_vector);
                lemma_crc_fold_push(old(self)@, bytes@.take(i as int), b);
                assert(bytes@.take(i as int).push(b) =~= bytes@.take(i + 1));
            }
            self.state = (state >> 8) ^ table_entry(index);
            i = i + 1;
        }
        assert(bytes@.take(bytes@.len() as int) =~= bytes@);
    }

    /// A register of its own with the same contents.
    pub(crate) fn clone_state(&self) -> (r: Self)
        ensures
            r@ == self@,
    {
        Crc32 { state: self.state }
    }

    /// The checksum of what was fed.
    #[must_use]
    pub fn finish(self) -> (r: u32)
        ensures
            r == self@ ^ 0xFFFF_FFFF,
    {
        self.state ^ 0xFFFF_FFFF
    }
}

/// The CRC-32 of a run of bytes.
#[must_use]
pub fn checksum(bytes: &[u8]) -> (r: u32)
    ensures
        r == crc32_of(bytes@),
{
    let mut c = Crc32::new();
    c.update(bytes);
    c.finish()
}

} // verus!
