//! Bit-level primitives over byte buffers.
//!
//! A buffer `Seq<u8>` is read as a bitvector: bit position `p` lives in byte
//! `p / 8` at weight `2^(p % 8)`. On top of that model the module provides
//! packed fixed-width field reads and writes crossing byte boundaries
//! ([`get_bits_u8`], [`set_bits_u8`]), per-byte population count
//! ([`count_ones_u8`]) and select-the-nth-set-bit within one byte
//! ([`select_in_byte`]), the atomic step of rank/select over a larger
//! bitvector.

use vstd::prelude::*;
use vstd::arithmetic::power2::{pow2, lemma_pow2_unfold, lemma_pow2_pos, lemma2_to64};
use vstd::arithmetic::div_mod::{lemma_div_denominator, lemma_mod_breakdown};
use vstd::bits::{lemma_u32_shr_is_div, lemma_u32_shl_is_mul};

verus! {

/// Bit `j` of the byte `b` (bit 0 is the least significant).
pub open spec fn byte_bit(b: u8, j: nat) -> bool {
    j < 8 && (b >> (j as u8)) & 1u8 == 1u8
}

/// Bit at absolute position `p` of a buffer; positions outside the buffer
/// read as zero.
pub open spec fn bit_at(s: Seq<u8>, p: int) -> bool {
    0 <= p < 8 * s.len() && byte_bit(s[p / 8], (p % 8) as nat)
}

/// Number of set bits at positions below `p` (the rank of `p`).
pub open spec fn ones_below(s: Seq<u8>, p: int) -> nat
    decreases p,
{
    if p <= 0 {
        0
    } else {
        ones_below(s, p - 1) + (if bit_at(s, p - 1) {
            1nat
        } else {
            0nat
        })
    }
}

/// Number of clear bits at positions below `p`.
pub open spec fn zeros_below(s: Seq<u8>, p: int) -> nat
    decreases p,
{
    if p <= 0 {
        0
    } else {
        zeros_below(s, p - 1) + (if bit_at(s, p - 1) {
            0nat
        } else {
            1nat
        })
    }
}

/// Value of the `w`-bit field that starts at bit position `p`, least
/// significant bit first.
pub open spec fn packed(s: Seq<u8>, p: int, w: int) -> nat
    decreases w,
{
    if w <= 0 {
        0
    } else {
        (if bit_at(s, p) {
            1nat
        } else {
            0nat
        }) + 2 * packed(s, p + 1, w - 1)
    }
}

/// Bit `j` of the natural number `v`.
pub open spec fn nat_bit(v: nat, j: nat) -> bool {
    v / pow2(j) % 2 == 1
}

/// Number of set bits of `b` among bits `0 .. j`.
pub open spec fn byte_ones_upto(b: u8, j: nat) -> nat
    decreases j,
{
    if j == 0 {
        0
    } else {
        byte_ones_upto(b, (j - 1) as nat) + (if byte_bit(b, (j - 1) as nat) {
            1nat
        } else {
            0nat
        })
    }
}

/// Population count of one byte.
pub open spec fn byte_ones(b: u8) -> nat {
    byte_ones_upto(b, 8)
}

/// Rounding a bit count up to whole bytes.
pub proof fn lemma_ceil8(x: int)
    requires
        x >= 0,
    ensures
        x <= 8 * ((x + 7) / 8) < x + 8,
{
    vstd::arithmetic::div_mod::lemma_fundamental_div_mod(x + 7, 8);
}

/// A fresh all-zero buffer of `len` bytes; every bit reads as clear.
pub fn zero_vec(len: usize) -> (r: Vec<u8>)
    ensures
        r@.len() == len,
        forall|q: int| !bit_at(r@, q),
{
    let mut v: Vec<u8> = Vec::new();
    let mut i: usize = 0;
    while i < len
        invariant
            i <= len,
            v@.len() == i,
            forall|k: int| 0 <= k < i ==> v@[k] == 0u8,
        decreases len - i,
    {
        v.push(0u8);
        i = i + 1;
    }
    proof {
        assert forall|q: int| !bit_at(v@, q) by {
            if 0 <= q < 8 * v@.len() {
                let glen = v@.len() as int;
                assert(0 <= q / 8 < glen) by (nonlinear_arith)
                    requires 0 <= q < 8 * glen;
                assert(v@[q / 8] == 0u8);
                let j = (q % 8) as u8;
                assert((0u8 >> j) & 1u8 == 0u8) by (bit_vector);
            }
        }
    }
    v
}

/// Splitting a bit position into byte index and bit index.
pub proof fn lemma_div8(k: int, t: int)
    requires
        0 <= t < 8,
    ensures
        (8 * k + t) / 8 == k,
        (8 * k + t) % 8 == t,
{
    assert((8 * k + t) / 8 == k && (8 * k + t) % 8 == t) by (nonlinear_arith)
        requires 0 <= t < 8;
}

/// A field one bit wider takes the extra bit at its top weight.
pub proof fn lemma_packed_snoc(s: Seq<u8>, p: int, w: int)
    requires
        w >= 0,
    ensures
        packed(s, p, w + 1) == packed(s, p, w) + (if bit_at(s, p + w) {
            pow2(w as nat)
        } else {
            0nat
        }),
    decreases w,
{
    if w == 0 {
        assert(pow2(0) == 1) by {
            lemma2_to64();
        }
        assert(packed(s, p, 1) == (if bit_at(s, p) {
            1nat
        } else {
            0nat
        }) + 2 * packed(s, p + 1, 0));
    } else {
        lemma_packed_snoc(s, p + 1, w - 1);
        lemma_pow2_unfold(w as nat);
        assert(packed(s, p, w + 1) == (if bit_at(s, p) {
            1nat
        } else {
            0nat
        }) + 2 * packed(s, p + 1, w));
        assert(p + 1 + (w - 1) == p + w);
    }
}

/// A `w`-bit field is below `2^w`.
pub proof fn lemma_packed_bound(s: Seq<u8>, p: int, w: int)
    requires
        w >= 0,
    ensures
        packed(s, p, w) < pow2(w as nat),
    decreases w,
{
    if w == 0 {
        lemma2_to64();
    } else {
        lemma_packed_bound(s, p + 1, w - 1);
        lemma_pow2_unfold(w as nat);
    }
}

/// A packed field depends only on the bits it covers.
pub proof fn lemma_packed_agree(s1: Seq<u8>, s2: Seq<u8>, p: int, w: int)
    requires
        forall|q: int| p <= q < p + w ==> bit_at(s1, q) == bit_at(s2, q),
    ensures
        packed(s1, p, w) == packed(s2, p, w),
    decreases w,
{
    if w > 0 {
        lemma_packed_agree(s1, s2, p + 1, w - 1);
    }
}

/// A field whose bits are the low bits of `v` holds `v % 2^w`.
pub proof fn lemma_packed_of_bits(s: Seq<u8>, p: int, w: int, v: nat)
    requires
        w >= 0,
        forall|j: int| 0 <= j < w ==> #[trigger] bit_at(s, p + j) == nat_bit(v, j as nat),
    ensures
        packed(s, p, w) == v % pow2(w as nat),
    decreases w,
{
    if w == 0 {
        lemma2_to64();
    } else {
        let half = v / 2;
        assert forall|j: int| 0 <= j < w - 1 implies #[trigger] bit_at(s, p + 1 + j) == nat_bit(
            half,
            j as nat,
        ) by {
            lemma_pow2_unfold((j + 1) as nat);
            lemma_pow2_pos(j as nat);
            lemma_div_denominator(v as int, 2, pow2(j as nat) as int);
            assert(bit_at(s, p + (j + 1)) == nat_bit(v, (j + 1) as nat));
        }
        lemma_packed_of_bits(s, p + 1, w - 1, half);
        lemma_pow2_unfold(w as nat);
        lemma_pow2_pos((w - 1) as nat);
        lemma_mod_breakdown(v as int, 2, pow2((w - 1) as nat) as int);
        assert(bit_at(s, p + 0) == nat_bit(v, 0));
        assert(pow2(0) == 1) by {
            lemma2_to64();
        }
        assert(nat_bit(v, 0) == (v % 2 == 1));
    }
}

/// Bit `j` of a `u32`, as the machine computes it, is `nat_bit`.
pub proof fn lemma_u32_bit(v: u32, j: u32)
    requires
        j < 32,
    ensures
        ((v >> j) & 1 == 1) == nat_bit(v as nat, j as nat),
{
    lemma_u32_shr_is_div(v, j);
    assert((v >> j) & 1 == (v >> j) % 2) by (bit_vector);
}

/// Rank restricted to one byte is the byte's own bit count.
pub proof fn lemma_ones_below_byte(s: Seq<u8>, k: int, j: int)
    requires
        0 <= k < s.len(),
        0 <= j <= 8,
    ensures
        ones_below(s, 8 * k + j) == ones_below(s, 8 * k) + byte_ones_upto(s[k], j as nat),
    decreases j,
{
    if j > 0 {
        lemma_ones_below_byte(s, k, j - 1);
        lemma_div8(k, j - 1);
        assert(bit_at(s, 8 * k + (j - 1)) == byte_bit(s[k], (j - 1) as nat));
    }
}

/// Rank grows by at most one per position.
pub proof fn lemma_ones_below_mono(s: Seq<u8>, a: int, b: int)
    requires
        0 <= a <= b,
    ensures
        ones_below(s, a) <= ones_below(s, b),
        ones_below(s, b) - ones_below(s, a) <= b - a,
    decreases b - a,
{
    if a < b {
        lemma_ones_below_mono(s, a, b - 1);
    }
}

/// Every position below `p` is either set or clear.
pub proof fn lemma_zeros_plus_ones(s: Seq<u8>, p: int)
    requires
        p >= 0,
    ensures
        ones_below(s, p) + zeros_below(s, p) == p,
    decreases p,
{
    if p > 0 {
        lemma_zeros_plus_ones(s, p - 1);
    }
}

/// Complementing a byte complements each bit.
pub proof fn lemma_byte_bit_not(b: u8, j: nat)
    requires
        j < 8,
    ensures
        byte_bit(!b, j) == !byte_bit(b, j),
{
    let ju8 = j as u8;
    assert(((!b >> ju8) & 1u8 == 1u8) == !((b >> ju8) & 1u8 == 1u8)) by (bit_vector)
        requires ju8 < 8;
}

/// Complementing a byte turns ones into zeros, position by position.
pub proof fn lemma_byte_ones_upto_not(b: u8, j: nat)
    requires
        j <= 8,
    ensures
        byte_ones_upto(!b, j) == j - byte_ones_upto(b, j),
    decreases j,
{
    if j > 0 {
        lemma_byte_ones_upto_not(b, (j - 1) as nat);
        lemma_byte_bit_not(b, (j - 1) as nat);
    }
}

/// Value of the little-endian 2-byte field at `p`.
pub open spec fn le16_at(s: Seq<u8>, p: int) -> nat {
    (s[p] + 256 * s[p + 1]) as nat
}

/// Value of the little-endian 4-byte field at `p`.
pub open spec fn le32_at(s: Seq<u8>, p: int) -> nat {
    le16_at(s, p) + 0x10000 * le16_at(s, p + 2)
}

/// Value of the little-endian 8-byte field at `p`.
pub open spec fn le64_at(s: Seq<u8>, p: int) -> nat {
    le32_at(s, p) + 0x1_0000_0000 * le32_at(s, p + 4)
}

/// The two little-endian bytes of a `u16`.
pub open spec fn le16_bytes(v: u16) -> Seq<u8> {
    seq![(v as nat % 256) as u8, (v as nat / 256) as u8]
}

/// Read the little-endian `u16` at byte offset `pos`.
pub fn read_u16_le(data: &[u8], pos: usize) -> (r: u16)
    requires
        pos + 2 <= data@.len(),
    ensures
        r as nat == le16_at(data@, pos as int),
{
    (data[pos] as u16) + (data[pos + 1] as u16) * 256
}

/// Read the little-endian `u32` at byte offset `pos`.
pub fn read_u32_le(data: &[u8], pos: usize) -> (r: u32)
    requires
        pos + 4 <= data@.len(),
    ensures
        r as nat == le32_at(data@, pos as int),
{
    (data[pos] as u32) + (data[pos + 1] as u32) * 0x100 + (data[pos + 2] as u32) * 0x10000 + (data[
        pos + 3] as u32) * 0x1000000
}

/// Read the little-endian `u64` at byte offset `pos`.
pub fn read_u64_le(data: &[u8], pos: usize) -> (r: u64)
    requires
        pos + 8 <= data@.len(),
    ensures
        r as nat == le64_at(data@, pos as int),
{
    (data[pos] as u64) + (data[pos + 1] as u64) * 0x100 + (data[pos + 2] as u64) * 0x10000 + (data[
        pos + 3] as u64) * 0x1000000 + (data[pos + 4] as u64) * 0x1_0000_0000 + (data[pos + 5]
        as u64) * 0x100_0000_0000 + (data[pos + 6] as u64) * 0x1_0000_0000_0000 + (data[pos + 7]
        as u64) * 0x100_0000_0000_0000
}

/// Append the two little-endian bytes of `v`.
pub fn push_u16_le(out: &mut Vec<u8>, v: u16)
    ensures
        final(out)@ == old(out)@ + le16_bytes(v),
{
    out.push((v % 256) as u8);
    out.push((v / 256) as u8);
    proof {
        assert(out@ =~= old(out)@ + le16_bytes(v));
    }
}

/// Append a copy of `src` to `out`.
pub fn append_bytes(out: &mut Vec<u8>, src: &Vec<u8>)
    ensures
        final(out)@ == old(out)@ + src@,
{
    proof {
        assert(old(out)@ + src@.take(0) =~= old(out)@);
    }
    let mut i: usize = 0;
    while i < src.len()
        invariant
            i <= src@.len(),
            out@ == old(out)@ + src@.take(i as int),
        decreases src@.len() - i,
    {
        out.push(src[i]);
        proof {
            assert(old(out)@ + src@.take(i as int) + seq![src@[i as int]] =~= old(out)@
                + src@.take(i + 1));
        }
        i = i + 1;
    }
    proof {
        assert(src@.take(src@.len() as int) =~= src@);
    }
}

/// Copy `len` bytes starting at `start` into a fresh buffer.
pub fn copy_range(data: &[u8], start: usize, len: usize) -> (r: Vec<u8>)
    requires
        start + len <= data@.len(),
    ensures
        r@ == data@.subrange(start as int, start as int + len as int),
{
    let mut out: Vec<u8> = Vec::new();
    let mut i: usize = 0;
    while i < len
        invariant
            i <= len,
            start + len <= data@.len(),
            out@.len() == i,
            forall|k: int| 0 <= k < i ==> out@[k] == data@[start + k],
        decreases len - i,
    {
        proof {
            vstd::slice::axiom_spec_len(data);
        }
        out.push(data[start + i]);
        i = i + 1;
    }
    proof {
        assert(out@ =~= data@.subrange(start as int, start as int + len as int));
    }
    out
}

/// Read one bit of a buffer.
pub fn get_bit(buf: &[u8], pos: u64) -> (r: bool)
    requires
        pos < 8 * buf@.len(),
    ensures
        r == bit_at(buf@, pos as int),
{
    proof {
        lemma_div8((pos as int) / 8, (pos as int) % 8);
    }
    let byte = buf[(pos / 8) as usize];
    (byte >> ((pos % 8) as u8)) & 1 == 1
}

/// Set one bit of a buffer, leaving every other bit as it was.
pub fn set_bit(buf: &mut Vec<u8>, pos: u64)
    requires
        pos < 8 * old(buf)@.len(),
    ensures
        final(buf)@.len() == old(buf)@.len(),
        bit_at(final(buf)@, pos as int),
        forall|q: int| q != pos as int ==> bit_at(final(buf)@, q) == bit_at(old(buf)@, q),
{
    proof {
        vstd::std_specs::vec::axiom_spec_len(buf);
        let ghost len = old(buf)@.len() as int;
        assert(pos as int / 8 < len) by (nonlinear_arith)
            requires pos < 8 * len;
    }
    let i = (pos / 8) as usize;
    let j = (pos % 8) as u8;
    let b = buf[i];
    buf.set(i, b | (1u8 << j));
    proof {
        lemma_set_bit_byte(b, j);
        assert(i as int == pos as int / 8 && j as int == pos as int % 8);
        assert(buf@[pos as int / 8] == (b | (1u8 << j)));
        assert(byte_bit(b | (1u8 << j), j as nat));
        assert(bit_at(buf@, pos as int));
        assert forall|q: int| q != pos as int implies bit_at(buf@, q) == bit_at(old(buf)@, q) by {
            if 0 <= q < 8 * buf@.len() {
                vstd::arithmetic::div_mod::lemma_fundamental_div_mod(q, 8);
                vstd::arithmetic::div_mod::lemma_fundamental_div_mod(pos as int, 8);
                if q / 8 == i as int {
                    assert(q % 8 != j as int);
                    assert(byte_bit(buf@[q / 8], (q % 8) as nat) == byte_bit(
                        old(buf)@[q / 8],
                        (q % 8) as nat,
                    ));
                }
            }
        }
    }
}

/// Effect of OR-ing a single power of two into a byte.
proof fn lemma_set_bit_byte(b: u8, j: u8)
    by (bit_vector)
    requires
        j < 8,
    ensures
        ((b | (1u8 << j)) >> j) & 1u8 == 1u8,
        forall|k: u8| k < 8 && k != j ==> ((b | (1u8 << j)) >> k) & 1u8 == (b >> k) & 1u8,
{
}

/// Write the low `width` bits of `value` into the buffer starting at bit
/// position `bit_pos`, crossing byte boundaries as needed. The target bits
/// must be clear; the buffer must already hold `bit_pos + width` bits.
pub fn set_bits_u8(buf: &mut Vec<u8>, bit_pos: u64, value: u32, width: u8)
    requires
        width <= 32,
        bit_pos + width <= u64::MAX,
        bit_pos + width <= 8 * old(buf)@.len(),
        forall|q: int| bit_pos <= q < bit_pos + width ==> !bit_at(old(buf)@, q),
    ensures
        final(buf)@.len() == old(buf)@.len(),
        forall|q: int|
            !(bit_pos <= q < bit_pos + width) ==> bit_at(final(buf)@, q) == bit_at(old(buf)@, q),
        forall|j: int|
            0 <= j < width ==> #[trigger] bit_at(final(buf)@, bit_pos + j) == nat_bit(
                value as nat,
                j as nat,
            ),
        packed(final(buf)@, bit_pos as int, width as int) == value as nat % pow2(width as nat),
{
    let ghost orig = buf@;
    let mut j: u8 = 0;
    while j < width
        invariant
            j <= width,
            width <= 32,
            bit_pos + width <= u64::MAX,
            bit_pos + width <= 8 * orig.len(),
            buf@.len() == orig.len(),
            forall|q: int| !(bit_pos <= q < bit_pos + j) ==> bit_at(buf@, q) == bit_at(orig, q),
            forall|q: int| bit_pos <= q < bit_pos + width ==> !bit_at(orig, q),
            forall|k: int|
                0 <= k < j ==> #[trigger] bit_at(buf@, bit_pos + k) == nat_bit(
                    value as nat,
                    k as nat,
                ),
        decreases width - j,
    {
        let ghost prev = buf@;
        proof {
            lemma_u32_bit(value, j as u32);
        }
        let bit_is_one = (value >> (j as u32)) & 1 == 1;
        if bit_is_one {
            set_bit(buf, bit_pos + j as u64);
        }
        proof {
            assert(bit_at(buf@, bit_pos + j as int) == nat_bit(value as nat, j as nat)) by {
                if !bit_is_one {
                    assert(bit_at(buf@, bit_pos + j as int) == bit_at(orig, bit_pos + j as int));
                    assert(!bit_at(orig, bit_pos + j as int));
                }
            }
            assert forall|k: int| 0 <= k < j + 1 implies #[trigger] bit_at(buf@, bit_pos + k)
                == nat_bit(value as nat, k as nat) by {
                if k < j {
                    assert(bit_at(prev, bit_pos + k) == nat_bit(value as nat, k as nat));
                }
            }
        }
        j = j + 1;
    }
    proof {
        lemma_packed_of_bits(buf@, bit_pos as int, width as int, value as nat);
    }
}

/// Read the `width`-bit field at bit position `bit_pos`, right-aligned.
pub fn get_bits_u8(buf: &[u8], bit_pos: u64, width: u8) -> (r: u32)
    requires
        width <= 32,
        bit_pos + width <= u64::MAX,
        bit_pos + width <= 8 * buf@.len(),
    ensures
        r as nat == packed(buf@, bit_pos as int, width as int),
        (r as nat) < pow2(width as nat),
{
    proof {
        lemma2_to64();
    }
    let mut result: u32 = 0;
    let mut j: u8 = 0;
    while j < width
        invariant
            j <= width,
            width <= 32,
            bit_pos + width <= u64::MAX,
            bit_pos + width <= 8 * buf@.len(),
            result as nat == packed(buf@, bit_pos as int, j as int),
            (result as nat) < pow2(j as nat),
        decreases width - j,
    {
        proof {
            lemma_packed_snoc(buf@, bit_pos as int, j as int);
            lemma_pow2_unfold((j + 1) as nat);
            lemma_pow2_pos(j as nat);
            lemma2_to64();
            vstd::arithmetic::power2::lemma_pow2_strictly_increases(j as nat, 32);
            lemma_u32_shl_is_mul(1u32, j as u32);
        }
        if get_bit(buf, bit_pos + j as u64) {
            assert(result | (1u32 << (j as u32)) == result + (1u32 << (j as u32))) by (bit_vector)
                requires result < (1u32 << (j as u32)), j < 32;
            result = result | (1u32 << (j as u32));
        }
        j = j + 1;
    }
    proof {
        lemma_packed_bound(buf@, bit_pos as int, width as int);
    }
    result
}

/// Population count of one byte.
pub fn count_ones_u8(b: u8) -> (r: u32)
    ensures
        r == byte_ones(b),
        r <= 8,
{
    let mut count: u32 = 0;
    let mut j: u8 = 0;
    while j < 8
        invariant
            j <= 8,
            count == byte_ones_upto(b, j as nat),
            count <= j,
        decreases 8 - j,
    {
        if (b >> j) & 1 == 1 {
            count = count + 1;
        }
        j = j + 1;
    }
    count
}

/// Position within one byte of the `rank`-th (0-based) set bit, found by
/// repeatedly taking the lowest set bit and skipping it.
pub fn select_in_byte(byte: u8, rank: u32) -> (r: u32)
    requires
        rank < byte_ones(byte),
    ensures
        r < 8,
        byte_bit(byte, r as nat),
        byte_ones_upto(byte, r as nat) == rank,
{
    let mut remaining = rank;
    let mut b = byte;
    let mut pos: u32 = 0;
    loop
        invariant
            pos <= 8,
            remaining <= rank,
            byte_ones_upto(byte, pos as nat) == rank - remaining,
            forall|k: nat| k < 8 - pos ==> byte_bit(b, k) == byte_bit(byte, (k + pos) as nat),
            forall|k: nat| 8 - pos <= k < 8 ==> !byte_bit(b, k),
            rank < byte_ones(byte),
        decreases remaining + 1nat, 8 - pos,
    {
        proof {
            lemma_shifted_ones(byte, b, pos);
            assert(b != 0);
        }
        let tz = b.trailing_zeros();
        proof {
            vstd::std_specs::bits::axiom_u8_trailing_zeros(b);
            lemma_byte_ones_window(byte, b, pos, tz as nat);
        }
        if remaining == 0 {
            return pos + tz;
        }
        remaining = remaining - 1;
        let skip = tz + 1;
        proof {
            lemma_shift_compose(byte, b, pos, skip as u8);
        }
        b = b >> (skip as u8);
        pos = pos + skip;
    }
}

/// If fewer ones were counted below `pos` than the byte holds in all, the
/// remaining window `b` is nonzero.
proof fn lemma_shifted_ones(byte: u8, b: u8, pos: u32)
    requires
        pos <= 8,
        byte_ones_upto(byte, pos as nat) < byte_ones(byte),
        forall|k: nat| k < 8 - pos ==> byte_bit(b, k) == byte_bit(byte, (k + pos) as nat),
    ensures
        b != 0,
{
    lemma_byte_ones_upto_step(byte, pos as nat, 8);
    let j = choose|j: nat| pos <= j < 8 && byte_bit(byte, j);
    assert(byte_bit(b, (j - pos) as nat));
    assert(b != 0) by {
        let k = (j - pos) as u8;
        assert((b >> k) & 1u8 == 1u8 ==> b != 0) by (bit_vector);
    }
}

/// If the counts up to `a` and up to `c` differ, a set bit lies between.
proof fn lemma_byte_ones_upto_step(byte: u8, a: nat, c: nat)
    requires
        a <= c <= 8,
        byte_ones_upto(byte, a) < byte_ones_upto(byte, c),
    ensures
        exists|j: nat| a <= j < c && byte_bit(byte, j),
    decreases c,
{
    if a < c {
        if byte_bit(byte, (c - 1) as nat) {
            assert(a <= (c - 1) && ((c - 1) as nat) < c && byte_bit(byte, (c - 1) as nat));
        } else {
            lemma_byte_ones_upto_step(byte, a, (c - 1) as nat);
        }
    }
}

/// The trailing zeros of the window `b` are clear bits of `byte` after
/// `pos`, and the next set bit of `byte` sits right after them.
proof fn lemma_byte_ones_window(byte: u8, b: u8, pos: u32, tz: nat)
    requires
        pos <= 8,
        b != 0,
        tz == vstd::std_specs::bits::u8_trailing_zeros(b),
        forall|k: nat| k < 8 - pos ==> byte_bit(b, k) == byte_bit(byte, (k + pos) as nat),
        forall|k: nat| 8 - pos <= k < 8 ==> !byte_bit(b, k),
    ensures
        pos + tz < 8,
        byte_bit(byte, (pos + tz) as nat),
        byte_ones_upto(byte, (pos + tz) as nat) == byte_ones_upto(byte, pos as nat),
{
    vstd::std_specs::bits::axiom_u8_trailing_zeros(b);
    assert(byte_bit(b, tz));
    assert(tz < 8 - pos);
    assert forall|d: nat| pos <= d < pos + tz implies !byte_bit(byte, d) by {
        assert(!byte_bit(b, (d - pos) as nat));
    }
    lemma_byte_ones_upto_run(byte, pos as nat, (pos + tz) as nat);
}

/// Counting over a run of clear bits adds nothing.
proof fn lemma_byte_ones_upto_run(byte: u8, a: nat, c: nat)
    requires
        a <= c <= 8,
        forall|d: nat| a <= d < c ==> !byte_bit(byte, d),
    ensures
        byte_ones_upto(byte, c) == byte_ones_upto(byte, a),
    decreases c,
{
    if a < c {
        lemma_byte_ones_upto_run(byte, a, (c - 1) as nat);
        assert(!byte_bit(byte, (c - 1) as nat));
    }
}

/// Shifting the window by `skip` moves its base.
proof fn lemma_shift_compose(byte: u8, b: u8, pos: u32, skip: u8)
    requires
        pos <= 8,
        skip <= 8,
        forall|k: nat| k < 8 - pos ==> byte_bit(b, k) == byte_bit(byte, (k + pos) as nat),
        forall|k: nat| 8 - pos <= k < 8 ==> !byte_bit(b, k),
    ensures
        forall|k: nat|
            k < 8 - pos - skip ==> byte_bit(b >> skip, k) == byte_bit(
                byte,
                (k + pos + skip) as nat,
            ),
        forall|k: nat| 8 - pos - skip <= k < 8 ==> !byte_bit(b >> skip, k),
{
    assert forall|k: nat| k < 8 implies byte_bit(b >> skip, k) == (k + skip < 8 && byte_bit(
        b,
        (k + skip) as nat,
    )) by {
        let ku8 = k as u8;
        assert(((b >> skip) >> ku8) & 1u8 == (if ku8 + skip < 8 {
            (b >> ((ku8 + skip) as u8)) & 1u8
        } else {
            0u8
        })) by (bit_vector)
            requires ku8 < 8, skip <= 8;
    }
}

} // verus!
