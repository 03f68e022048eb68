//! Variable-length integers: seven bits a byte, low group first, the high bit
//! set on every byte but the last.

use vstd::arithmetic::power2::*;
use vstd::bits::*;
use vstd::prelude::*;
use crate::protocol::error::ProtocolError;

verus! {

/// The longest encoding of a `u64`.
pub const MAX_VARINT_LEN: usize = 10;

/// The encoding of `value`.
pub open spec fn varint_bytes(value: nat) -> Seq<u8>
    decreases value,
{
    if value < 128 {
        seq![value as u8]
    } else {
        seq![(value % 128 + 128) as u8] + varint_bytes(value / 128)
    }
}

/// The number that seven-bit groups, low group first, stand for.
pub open spec fn group_value(s: Seq<u8>) -> nat
    decreases s.len(),
{
    if s.len() == 0 {
        0
    } else {
        (s[0] % 128) as nat + 128 * group_value(s.skip(1))
    }
}

/// How many bytes at the head of `s` say that another one follows.
pub open spec fn leading_more(s: Seq<u8>) -> nat
    decreases s.len(),
{
    if s.len() > 0 && s[0] >= 128 {
        1 + leading_more(s.skip(1))
    } else {
        0
    }
}

/// What the head of a byte sequence holds when read as an integer.
pub enum VarintRead {
    /// The bytes end before the integer does.
    More,
    /// The value, and how many bytes it took.
    Done(u64, nat),
    /// No integer: the longest form is over and more is announced.
    TooLong,
}

/// Reads an integer from the head of `s`. Bits above the sixty-fourth are
/// dropped.
pub open spec fn varint_read(s: Seq<u8>) -> VarintRead {
    let n = leading_more(s);
    if n >= MAX_VARINT_LEN {
        if s.len() > MAX_VARINT_LEN {
            VarintRead::TooLong
        } else {
            VarintRead::More
        }
    } else if n == s.len() {
        VarintRead::More
    } else {
        VarintRead::Done((group_value(s.take((n + 1) as int)) % 0x1_0000_0000_0000_0000) as u64, n + 1)
    }
}

/// The one-to-one map from signed to unsigned numbers that keeps small
/// magnitudes small.
pub open spec fn zigzag(v: int) -> int {
    if v >= 0 {
        2 * v
    } else {
        -2 * v - 1
    }
}

proof fn lemma_low_bits(value: u64)
    ensures
        value & 0x7F == value % 128,
        value >> 7 == value / 128,
{
    assert(value & 0x7F == value % 128) by (bit_vector);
    assert(value >> 7 == value / 128) by (bit_vector);
}

proof fn lemma_byte_bits(byte: u8)
    ensures
        byte & 0x7F == byte % 128,
        (byte & 0x80 == 0) == (byte < 128),
        byte < 128 ==> byte | 0x80 == byte + 128,
{
    assert(byte & 0x7F == byte % 128) by (bit_vector);
    assert((byte & 0x80 == 0) == (byte < 128)) by (bit_vector);
    assert(byte < 128 ==> byte | 0x80 == byte + 128) by (bit_vector);
}

/// An encoding is never empty, and that of a `u64` has at most ten bytes.
pub proof fn lemma_varint_len(value: nat)
    ensures
        varint_bytes(value).len() >= 1,
        value < 0x1_0000_0000_0000_0000 ==> varint_bytes(value).len() <= MAX_VARINT_LEN,
{
    reveal_with_fuel(varint_bytes, 11);
    lemma_varint_nonempty(value);
}

proof fn lemma_varint_nonempty(value: nat)
    ensures
        varint_bytes(value).len() >= 1,
    decreases value,
{
    if value >= 128 {
        lemma_varint_nonempty(value / 128);
    }
}

/// Writes `value` behind `dst` and returns the number of bytes written.
pub fn encode_u64(value: u64, dst: &mut Vec<u8>) -> (written: usize)
    ensures
        final(dst)@ == old(dst)@ + varint_bytes(value as nat),
        written == varint_bytes(value as nat).len(),
{
    let mut rest: u64 = value;
    let mut written: usize = 0;
    proof {
        lemma_varint_len(value as nat);
    }
    while rest >= 128
        invariant
            dst@ + varint_bytes(rest as nat) =~= old(dst)@ + varint_bytes(value as nat),
            written + varint_bytes(rest as nat).len() == varint_bytes(value as nat).len(),
            varint_bytes(value as nat).len() <= MAX_VARINT_LEN,
        decreases rest,
    {
        let byte: u8 = (rest & 0x7F) as u8;
        proof {
            lemma_low_bits(rest);
            lemma_byte_bits(byte);
            assert(varint_bytes(rest as nat) =~= seq![(rest % 128 + 128) as u8] + varint_bytes(rest as nat / 128));
            lemma_varint_nonempty(rest as nat / 128);
        }
        dst.push(byte | 0x80);
        rest = rest >> 7;
        written = written + 1;
    }
    dst.push(rest as u8);
    written + 1
}

/// The number of bytes that [`encode_u64`] writes.
#[must_use]
pub fn encoded_len(value: u64) -> (len: usize)
    ensures
        len == varint_bytes(value as nat).len(),
        1 <= len <= MAX_VARINT_LEN,
{
    let mut rest: u64 = value;
    let mut len: usize = 1;
    proof {
        lemma_varint_len(value as nat);
    }
    while rest >= 128
        invariant
            len - 1 + varint_bytes(rest as nat).len() == varint_bytes(value as nat).len(),
            len >= 1,
            varint_bytes(value as nat).len() <= MAX_VARINT_LEN,
        decreases rest,
    {
        proof {
            lemma_low_bits(rest);
            lemma_varint_nonempty(rest as nat / 128);
        }
        rest = rest >> 7;
        len = len + 1;
    }
    len
}

/// Maps a signed number to an unsigned one: 0, -1, 1, -2 become 0, 1, 2, 3.
#[must_use]
pub fn zigzag_encode(v: i64) -> (u: u64)
    ensures
        u == zigzag(v as int),
{
    if v >= 0 {
        2 * (v as u64)
    } else {
        let m: i64 = -(v + 1);
        2 * (m as u64) + 1
    }
}

/// Undoes [`zigzag_encode`].
#[must_use]
pub fn zigzag_decode(u: u64) -> (v: i64)
    ensures
        zigzag(v as int) == u,
{
    let half: i64 = (u / 2) as i64;
    if u % 2 == 0 {
        half
    } else {
        -half - 1
    }
}

/// Writes a signed number, zigzag first, and returns the number of bytes
/// written.
pub fn encode_i64(value: i64, dst: &mut Vec<u8>) -> (written: usize)
    ensures
        final(dst)@ == old(dst)@ + varint_bytes(zigzag(value as int) as nat),
        written == varint_bytes(zigzag(value as int) as nat).len(),
{
    encode_u64(zigzag_encode(value), dst)
}

/// The zigzag map loses nothing: no two signed numbers share an image.
pub proof fn law_zigzag_is_one_to_one(a: i64, b: i64)
    ensures
        zigzag(a as int) == zigzag(b as int) ==> a == b,
        0 <= zigzag(a as int) <= u64::MAX,
{
}

/// How far an incremental decoder has come.
pub struct VarintProgress {
    /// The groups so far.
    pub value: u64,
    /// Where the next group goes.
    pub shift: u32,
    /// How many bytes were fed.
    pub count: usize,
}

/// The progress before the first byte.
pub open spec fn varint_start() -> VarintProgress {
    VarintProgress { value: 0, shift: 0, count: 0 }
}

/// One more byte: the progress behind it, and what it brings.
pub open spec fn varint_push(p: VarintProgress, byte: u8) -> (
    VarintProgress,
    Result<Option<u64>, ProtocolError>,
) {
    let count = (p.count + 1) as usize;
    if count > MAX_VARINT_LEN {
        (
            VarintProgress { count, ..p },
            Err(ProtocolError::VarintTooLong { max: MAX_VARINT_LEN }),
        )
    } else {
        let value = p.value | (((byte & 0x7F) as u64) << p.shift);
        if byte < 128 {
            (VarintProgress { value, count, ..p }, Ok(Some(value)))
        } else {
            (VarintProgress { value, shift: (p.shift + 7) as u32, count }, Ok(None))
        }
    }
}

/// An integer decoder that is fed one byte at a time.
#[derive(Debug, Clone)]
pub struct VarIntDecoder {
    value: u64,
    shift: u32,
    count: usize,
}

impl View for VarIntDecoder {
    type V = VarintProgress;

    closed spec fn view(&self) -> VarintProgress {
        VarintProgress { value: self.value, shift: self.shift, count: self.count }
    }
}

impl Default for VarIntDecoder {
    fn default() -> (r: Self)
        ensures
            r@ == varint_start(),
            r.wf(),
    {
        VarIntDecoder { value: 0, shift: 0, count: 0 }
    }
}

impl VarIntDecoder {
    /// The next group goes behind the groups fed so far.
    pub open spec fn wf(&self) -> bool {
        self@.shift <= 7 * self@.count
    }

    /// Feeds one byte: the value if it was the last one, nothing if another
    /// one follows, an error behind the longest form.
    pub fn push(&mut self, byte: u8) -> (r: Result<Option<u64>, ProtocolError>)
        requires
            old(self).wf(),
            old(self)@.count < usize::MAX,
        ensures
            final(self).wf(),
            final(self)@ == varint_push(old(self)@, byte).0,
            r == varint_push(old(self)@, byte).1,
    {
        proof {
            lemma_byte_bits(byte);
        }
        self.count = self.count + 1;
        if self.count > MAX_VARINT_LEN {
            return Err(ProtocolError::VarintTooLong { max: MAX_VARINT_LEN });
        }
        self.value = self.value | (((byte & 0x7F) as u64) << self.shift);
        if byte & 0x80 == 0 {
            return Ok(Some(self.value));
        }
        self.shift = self.shift + 7;
        Ok(None)
    }
}

/// All bytes of `s` announce another one.
pub open spec fn all_more(s: Seq<u8>) -> bool {
    forall|i: int| 0 <= i < s.len() ==> s[i] >= 128
}

/// The progress of a decoder that was fed `s`.
pub open spec fn progress_of(s: Seq<u8>) -> VarintProgress {
    VarintProgress {
        value: (group_value(s) % 0x1_0000_0000_0000_0000) as u64,
        shift: (7 * s.len()) as u32,
        count: s.len() as usize,
    }
}

proof fn lemma_group_value_push(s: Seq<u8>, b: u8)
    ensures
        group_value(s.push(b)) == group_value(s) + pow2(7 * s.len()) * (b % 128),
        group_value(s) < pow2(7 * s.len()),
    decreases s.len(),
{
    lemma2_to64();
    if s.len() == 0 {
        assert(s.push(b).skip(1) =~= Seq::<u8>::empty());
        assert(s.push(b)[0] == b);
        assert(group_value(Seq::<u8>::empty()) == 0);
        assert(group_value(s.push(b)) == b % 128);
        assert(pow2(7 * s.len()) == 1);
        assert(1 * (b % 128) == b % 128);
    } else {
        let t = s.skip(1);
        lemma_group_value_push(t, b);
        assert(s.push(b).skip(1) =~= t.push(b));
        assert(s.push(b)[0] == s[0]);
        lemma_pow2_adds(7, 7 * t.len());
        assert(pow2(7 * s.len()) == 128 * pow2(7 * t.len()));
        let p = pow2(7 * t.len()) as int;
        let g = group_value(t) as int;
        let d = (b % 128) as int;
        assert(128 * (g + p * d) == 128 * g + (128 * p) * d) by (nonlinear_arith);
        assert(group_value(s.push(b)) == (s[0] % 128) as nat + 128 * group_value(t.push(b)));
    }
}

/// The groups come together as the mathematical value does, modulo the width
/// of the result.
pub proof fn lemma_push_progress(s: Seq<u8>, b: u8)
    requires
        s.len() < MAX_VARINT_LEN,
    ensures
        progress_of(s).value | (((b & 0x7F) as u64) << progress_of(s).shift) == (group_value(
            s.push(b),
        ) % 0x1_0000_0000_0000_0000) as u64,
{
    lemma_group_value_push(s, b);
    lemma_byte_bits(b);
    lemma2_to64();
    let n = s.len();
    let sh = (7 * n) as u32;
    let v = group_value(s);
    let x = (b & 0x7F) as u64;
    assert(pow2(63) == 0x8000_0000_0000_0000) by {
        lemma_pow2_adds(32, 31);
    }
    if n < 9 {
        assert(pow2(56) == 0x100_0000_0000_0000) by {
            lemma_pow2_adds(32, 24);
        }
        if 7 * n < 56 {
            lemma_pow2_strictly_increases(7 * n, 56);
        }
        let p = pow2(7 * n);
        assert(p <= 0x100_0000_0000_0000);
        assert(x * p <= 127 * p) by (nonlinear_arith)
            requires
                x <= 127,
                p >= 0,
        ;
        assert(p * x == x * p) by (nonlinear_arith);
        lemma_u64_shl_is_mul(x, sh as u64);
        lemma_u64_shl_is_mul(1, sh as u64);
        let w = v as u64;
        assert(1u64 << (sh as u64) == p);
        let sw = sh as u64;
        assert((w | (x << sw)) == w + (x << sw)) by (bit_vector)
            requires
                w < (1u64 << sw),
                sw <= 56,
                x < 128,
        ;
    } else {
        assert(7 * n == 63);
        let w = v as u64;
        assert((w | (x << 63u32)) == w + (x % 2) * 0x8000_0000_0000_0000) by (bit_vector)
            requires
                w < 0x8000_0000_0000_0000,
                x < 128,
        ;
        let total = v + 0x8000_0000_0000_0000 * x;
        let q = (x / 2) as int;
        let low = v + 0x8000_0000_0000_0000 * (x % 2);
        let odd = (x % 2) as int;
        let wide = x as int;
        assert(wide == 2 * q + odd);
        assert(0x8000_0000_0000_0000 * wide == q * 0x1_0000_0000_0000_0000 + 0x8000_0000_0000_0000
            * odd) by (nonlinear_arith)
            requires
                wide == 2 * q + odd,
        ;
        vstd::arithmetic::div_mod::lemma_fundamental_div_mod_converse(
            total as int,
            0x1_0000_0000_0000_0000,
            q,
            low as int,
        );
        assert(group_value(s.push(b)) == total);
    }
}

proof fn lemma_leading_more(s: Seq<u8>)
    ensures
        leading_more(s) <= s.len(),
        forall|i: int| 0 <= i < leading_more(s) ==> s[i] >= 128,
        leading_more(s) < s.len() ==> s[leading_more(s) as int] < 128,
    decreases s.len(),
{
    if s.len() > 0 && s[0] >= 128 {
        let t = s.skip(1);
        lemma_leading_more(t);
        assert forall|i: int| 0 <= i < leading_more(s) implies s[i] >= 128 by {
            if i > 0 {
                assert(s[i] == t[i - 1]);
            }
        }
        if leading_more(s) < s.len() {
            assert(s[leading_more(s) as int] == t[leading_more(t) as int]);
        }
    }
}

/// Where an integer ends: all its bytes but the last announce another one.
pub proof fn lemma_read_bounds(s: Seq<u8>)
    ensures
        varint_read(s) matches VarintRead::Done(v, n) ==> {
            &&& 1 <= n <= s.len()
            &&& n <= MAX_VARINT_LEN
            &&& s[n - 1] < 128
            &&& forall|i: int| 0 <= i < n - 1 ==> s[i] >= 128
            &&& v == (group_value(s.take(n as int)) % 0x1_0000_0000_0000_0000) as u64
        },
{
    lemma_leading_more(s);
}

proof fn lemma_leading_more_exact(s: Seq<u8>, n: nat)
    requires
        n <= s.len(),
        forall|i: int| 0 <= i < n ==> s[i] >= 128,
        n < s.len() ==> s[n as int] < 128,
    ensures
        leading_more(s) == n,
{
    lemma_leading_more(s);
    let m = leading_more(s);
    if m < n {
        assert(s[m as int] >= 128);
    } else if n < m {
        assert(s[n as int] >= 128);
    }
}

/// A read that came to an end does not depend on what follows.
pub proof fn lemma_varint_read_stable(s: Seq<u8>, t: Seq<u8>)
    ensures
        varint_read(s) !is More ==> varint_read(s + t) == varint_read(s),
{
    lemma_leading_more(s);
    lemma_leading_more(s + t);
    let n = leading_more(s);
    if varint_read(s) is Done {
        assert((s + t)[n as int] == s[n as int]);
        assert forall|i: int| 0 <= i < n implies (s + t)[i] >= 128 by {
            assert((s + t)[i] == s[i]);
        }
        lemma_leading_more_exact(s + t, n);
        assert((s + t).take((n + 1) as int) =~= s.take((n + 1) as int));
    } else if varint_read(s) is TooLong {
        let m = leading_more(s + t);
        if m < n {
            assert((s + t)[m as int] == s[m as int]);
        }
    }
}

proof fn lemma_group_value_of_varint(value: nat)
    ensures
        group_value(varint_bytes(value)) == value,
        leading_more(varint_bytes(value)) == varint_bytes(value).len() - 1,
    decreases value,
{
    let e = varint_bytes(value);
    if value < 128 {
        assert(e[0] == value);
        assert(e.skip(1) =~= Seq::<u8>::empty());
        reveal_with_fuel(group_value, 2);
    } else {
        lemma_group_value_of_varint(value / 128);
        assert(e.skip(1) =~= varint_bytes(value / 128));
        assert(e[0] == value % 128 + 128);
    }
}

/// What was encoded reads back, whatever follows it.
pub proof fn law_varint_round_trip(value: u64, rest: Seq<u8>)
    ensures
        varint_read(varint_bytes(value as nat) + rest) == VarintRead::Done(
            value,
            varint_bytes(value as nat).len(),
        ),
{
    let e = varint_bytes(value as nat);
    lemma_varint_len(value as nat);
    lemma_group_value_of_varint(value as nat);
    assert(e.take(e.len() as int) =~= e);
    lemma_varint_read_stable(e, rest);
}

/// Reads an integer from the head of `src`: the value and the bytes it took,
/// or nothing where `src` is too short or holds no integer.
#[must_use]
pub fn decode_u64(src: &[u8]) -> (r: Option<(u64, usize)>)
    ensures
        match varint_read(src@) {
            VarintRead::Done(v, n) => r == Some((v, n as usize)) && n <= src@.len(),
            _ => r is None,
        },
{
    let mut dec = VarIntDecoder::default();
    let mut i: usize = 0;
    assert(progress_of(src@.take(0)) == varint_start());
    while i < src.len()
        invariant
            i <= src@.len(),
            i <= MAX_VARINT_LEN,
            dec.wf(),
            dec@ == progress_of(src@.take(i as int)),
            all_more(src@.take(i as int)),
        decreases src@.len() - i,
    {
        let b: u8 = src[i];
        proof {
            lemma_byte_bits(b);
            let fed = src@.take(i as int);
            assert(fed.push(b) =~= src@.take(i + 1));
            assert forall|k: int| 0 <= k < i implies src@[k] >= 128 by {
                assert(fed[k] == src@[k]);
            }
            if i < MAX_VARINT_LEN {
                lemma_push_progress(fed, b);
                if b < 128 {
                    lemma_leading_more_exact(src@, i as nat);
                }
            } else {
                lemma_leading_more(src@);
                if leading_more(src@) < 10 {
                    assert(src@[leading_more(src@) as int] >= 128);
                }
            }
        }
        match dec.push(b) {
            Ok(Some(v)) => {
                return Some((v, i + 1));
            },
            Ok(None) => {},
            Err(_) => {
                return None;
            },
        }
        i = i + 1;
    }
    proof {
        assert(src@.take(i as int) =~= src@);
        lemma_leading_more_exact(src@, src@.len());
    }
    None
}

/// How a number is written: seven bits a byte, the low ones first, and all bytes but
/// the last say that another one follows.
pub proof fn law_seven_bits_a_byte(value: nat, i: int)
    ensures
        value < 128 ==> varint_bytes(value) == seq![value as u8],
        value >= 128 ==> {
            &&& varint_bytes(value).len() == 1 + varint_bytes(value / 128).len()
            &&& varint_bytes(value)[0] % 128 == value % 128
            &&& varint_bytes(value).skip(1) == varint_bytes(value / 128)
        },
        0 <= i < varint_bytes(value).len() ==> (varint_bytes(value)[i] >= 128 <==> i
            < varint_bytes(value).len() - 1),
{
    let e = varint_bytes(value);
    lemma_group_value_of_varint(value);
    lemma_leading_more(e);
    if value >= 128 {
        assert(e.skip(1) =~= varint_bytes(value / 128));
    }
}

/// A number that does not end within ten bytes is none; before that, what has arrived
/// of it is waited for.
pub proof fn law_number_must_end(s: Seq<u8>)
    requires
        forall|i: int| 0 <= i < s.len() && i < 10 ==> s[i] >= 128,
    ensures
        s.len() > 10 ==> varint_read(s) is TooLong,
        s.len() <= 10 ==> varint_read(s) is More,
{
    lemma_leading_more(s);
    let n = leading_more(s);
    if n < s.len() && n < 10 {
        assert(s[n as int] >= 128);
    }
}

/// Numbers and their negatives take turns, so that small ones stay small: zero, minus
/// one, one, minus two become zero, one, two, three.
pub proof fn law_zigzag_takes_turns(v: int)
    ensures
        zigzag(0) == 0,
        v > 0 ==> zigzag(v) == zigzag(-v) + 1,
        v >= 0 ==> zigzag(-v - 1) == zigzag(v) + 1,
{
}

} // verus!
