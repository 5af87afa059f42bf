//! Succinct encoding of sorted bounded-integer sequences.
//!
//! The crate has three parts:
//! - [`bits`]: bit-packing primitives over byte buffers (packed fields,
//!   select-the-nth-set-bit), with a mathematical model of every operation;
//! - [`ef`]: an Elias-Fano codec for strictly increasing sequences of `u16`
//!   values, with construction, random access, membership, iteration and a
//!   little-endian serialized form;
//! - [`hints`]: a parser for the "hints file" format, a random-access table
//!   from block height to a bitmap record that decodes into exactly the sorted
//!   index lists the codec consumes.
//!
//! The free functions below are small size estimators (CompactSize and
//! Bitcoin-style VarInt lengths) used to compare encodings.

use vstd::prelude::*;
use vstd::arithmetic::power2::lemma2_to64;
use vstd::arithmetic::div_mod::lemma_div_denominator;
use vstd::bits::{lemma_u64_shr_is_div, lemma_u64_low_bits_mask_is_mod, lemma_low_bits_mask_values};

pub mod bits;
pub mod ef;
pub mod hints;

pub use hints::BitmapHints;

verus! {

/// Every failure the crate reports, as a distinct recoverable outcome.
#[derive(Debug, Clone, Copy, PartialEq, Eq, Structural)]
pub enum EfError {
    /// Bad magic or version, or a truncated or malformed serialized stream.
    FormatError,
    /// An index or a height outside the valid bounds.
    RangeError,
    /// Construction input violates the required strict ascending order.
    OrderingViolation,
    /// An underlying read landed outside the supplied data.
    IoError,
}

/// Byte length of Bitcoin's CompactSize encoding of `value`.
pub open spec fn spec_compact_size(value: u64) -> nat {
    if value <= 0xFC {
        1
    } else if value <= 0xFFFF {
        3
    } else if value <= 0xFFFF_FFFF {
        5
    } else {
        9
    }
}

/// Number of bytes a CompactSize encoding of `value` occupies.
pub fn compact_size(value: u64) -> (r: usize)
    ensures
        r == spec_compact_size(value),
{
    if value <= 0xFC {
        1
    } else if value <= 0xFFFF {
        3
    } else if value <= 0xFFFF_FFFF {
        5
    } else {
        9
    }
}

/// `10^e`.
pub open spec fn pow10(e: nat) -> nat
    decreases e,
{
    if e == 0 {
        1
    } else {
        10 * pow10((e - 1) as nat)
    }
}

/// How many times `n` divides by ten, capped at `cap`.
pub open spec fn spec_e10(n: nat, cap: nat) -> nat
    decreases cap,
{
    if cap == 0 || n % 10 != 0 || n == 0 {
        0
    } else {
        1 + spec_e10(n / 10, (cap - 1) as nat)
    }
}

/// The compressed form of a monetary amount: strip up to nine factors of
/// ten into the exponent `e`; for `e < 9` fold the last nonzero digit in.
pub open spec fn spec_compress_amount(x: u64) -> nat {
    if x == 0 {
        0
    } else {
        let e = spec_e10(x as nat, 9);
        let m = x as nat / pow10(e);
        if e < 9 {
            (1 + (m / 10 * 9 + m % 10 - 1) * 10 + e) as nat
        } else {
            (1 + (m - 1) * 10 + 9) as nat
        }
    }
}

/// Compress an amount into the compact form whose serialization favors
/// round numbers.
pub fn compress_amount(n: u64) -> (r: u64)
    requires
        spec_compress_amount(n) <= u64::MAX,
    ensures
        r == spec_compress_amount(n),
{
    let mut n = n;
    if n == 0 {
        return 0;
    }
    let ghost x = n;
    let mut e: u64 = 0;
    proof {
        assert(pow10(0) == 1);
    }
    while (n % 10) == 0 && e < 9
        invariant
            n >= 1,
            e <= 9,
            x as nat / pow10(e as nat) == n,
            spec_e10(x as nat, 9) == e + spec_e10(n as nat, (9 - e) as nat),
        decreases n,
    {
        proof {
            lemma_pow10_pos(e as nat);
            lemma_div_denominator(x as int, pow10(e as nat) as int, 10);
            assert(pow10(e as nat + 1) == pow10(e as nat) * 10) by (nonlinear_arith)
                requires pow10(e as nat + 1) == 10 * pow10(e as nat);
            assert(n / 10 < n);
        }
        n = n / 10;
        e = e + 1;
    }
    if e < 9 {
        let d = n % 10;
        proof {
            lemma_compress_bound(x, n, e);
            assert((n / 10) * 9 <= (n / 10) * 9 + d - 1) by (nonlinear_arith)
                requires d >= 1;
        }
        1 + ((n / 10) * 9 + d - 1) * 10 + e
    } else {
        proof {
            lemma_compress_bound(x, n, e);
        }
        1 + (n - 1) * 10 + 9
    }
}

/// After stripping, the remaining digits give the stated compressed form.
proof fn lemma_compress_bound(x: u64, n: u64, e: u64)
    requires
        x >= 1,
        n >= 1,
        e <= 9,
        x as nat / pow10(e as nat) == n,
        spec_e10(x as nat, 9) == e + spec_e10(n as nat, (9 - e) as nat),
        !(n % 10 == 0 && e < 9),
        spec_compress_amount(x) <= u64::MAX,
    ensures
        spec_e10(x as nat, 9) == e,
        e < 9 ==> {
            &&& n % 10 >= 1
            &&& spec_compress_amount(x) == 1 + (n / 10 * 9 + n % 10 - 1) * 10 + e
        },
        e == 9 ==> spec_compress_amount(x) == 1 + (n - 1) * 10 + 9,
{
    if e < 9 {
        assert(spec_e10(n as nat, (9 - e) as nat) == 0);
    } else {
        assert(spec_e10(n as nat, 0) == 0);
    }
}

/// The bytes of Bitcoin's variable-length integer encoding, most
/// significant group first, continuation bit on every byte but the last.
pub open spec fn spec_varint(n: nat) -> Seq<u8>
    decreases n,
{
    if n <= 0x7f {
        seq![n as u8]
    } else {
        spec_varint_flagged((n / 128 - 1) as nat) + seq![(n % 128) as u8]
    }
}

/// The same groups with the continuation bit set on the last one too: the
/// form every non-final group takes.
pub open spec fn spec_varint_flagged(n: nat) -> Seq<u8>
    decreases n,
{
    if n <= 0x7f {
        seq![(n + 128) as u8]
    } else {
        spec_varint_flagged((n / 128 - 1) as nat) + seq![(n % 128 + 128) as u8]
    }
}

/// Serialize `n` as a variable-length integer.
fn ser_varint(n: u64) -> (r: Vec<u8>)
    ensures
        r@ == spec_varint(n as nat),
{
    let mut tmp: Vec<u8> = Vec::new();
    let mut l = n;
    proof {
        lemma2_to64();
        lemma_low_bits_mask_values();
    }
    loop
        invariant_except_break
            spec_varint(n as nat) == if tmp@.len() == 0 {
                spec_varint(l as nat)
            } else {
                spec_varint_flagged(l as nat) + tmp@.reverse()
            },
        ensures
            spec_varint(n as nat) == tmp@.reverse(),
        decreases l,
    {
        let has_more = !tmp.is_empty();
        proof {
            lemma_u64_low_bits_mask_is_mod(l, 7);
            lemma_u64_shr_is_div(l, 7);
            lemma2_to64();
            lemma_low_bits_mask_values();
            let b = (l & 0x7f) as u8;
            assert(b | 0x80 == b + 0x80) by (bit_vector)
                requires b < 0x80;
            assert(b | 0x00 == b) by (bit_vector);
        }
        let byte = (l & 0x7f) as u8 | if has_more {
            0x80u8
        } else {
            0x00u8
        };
        let ghost old_tmp = tmp@;
        tmp.push(byte);
        proof {
            assert(tmp@.reverse() =~= seq![byte] + old_tmp.reverse());
        }
        if l <= 0x7f {
            proof {
                if old_tmp.len() == 0 {
                    assert(spec_varint(l as nat) =~= tmp@.reverse());
                } else {
                    assert(spec_varint_flagged(l as nat) =~= seq![byte]);
                    assert(spec_varint_flagged(l as nat) + old_tmp.reverse() =~= tmp@.reverse());
                }
            }
            break;
        }
        proof {
            let lp = (l as nat / 128 - 1) as nat;
            if old_tmp.len() == 0 {
                assert(spec_varint(l as nat) == spec_varint_flagged(lp) + seq![(l as nat % 128) as u8]);
                assert(spec_varint_flagged(lp) + tmp@.reverse() =~= spec_varint(l as nat));
            } else {
                assert(spec_varint_flagged(l as nat) == spec_varint_flagged(lp) + seq![(l as nat % 128 + 128) as u8]);
                assert(spec_varint_flagged(lp) + tmp@.reverse() =~= spec_varint_flagged(l as nat)
                    + old_tmp.reverse());
            }
        }
        l = (l >> 7) - 1;
    }
    let mut out: Vec<u8> = Vec::new();
    let mut i: usize = tmp.len();
    while i > 0
        invariant
            i <= tmp@.len(),
            out@.len() == tmp@.len() - i,
            forall|k: int| 0 <= k < out@.len() ==> out@[k] == tmp@[tmp@.len() - 1 - k],
        decreases i,
    {
        i = i - 1;
        out.push(tmp[i]);
    }
    proof {
        assert(out@ =~= tmp@.reverse());
    }
    out
}

/// Number of bytes the variable-length integer encoding of `n` occupies.
pub fn size_varint(n: u64) -> (r: usize)
    ensures
        r == spec_varint(n as nat).len(),
{
    ser_varint(n).len()
}

/// `10^e` is positive.
proof fn lemma_pow10_pos(e: nat)
    ensures
        pow10(e) >= 1,
    decreases e,
{
    if e > 0 {
        lemma_pow10_pos((e - 1) as nat);
    }
}

/// The values never decrease from one to the next.
pub open spec fn nondecreasing(s: Seq<u16>) -> bool {
    forall|i: int| 1 <= i < s.len() ==> #[trigger] s[i - 1] <= s[i]
}

/// Sum of the CompactSize lengths of the first `k` run lengths (each
/// element's difference from the one before it, the first from zero).
pub open spec fn spec_rl_compact_size(s: Seq<u16>, k: int) -> nat
    decreases k,
{
    if k <= 0 {
        0
    } else {
        spec_rl_compact_size(s, k - 1) + spec_compact_size(
            (s[k - 1] - (if k == 1 {
                0
            } else {
                s[k - 2]
            })) as u64,
        )
    }
}

/// Sum of the VarInt lengths of the first `k` run lengths.
pub open spec fn spec_rl_varint(s: Seq<u16>, k: int) -> nat
    decreases k,
{
    if k <= 0 {
        0
    } else {
        spec_rl_varint(s, k - 1) + spec_varint(
            (s[k - 1] - (if k == 1 {
                0
            } else {
                s[k - 2]
            })) as nat,
        ).len()
    }
}

/// Bytes a CompactSize run-length encoding of `elements` would take: the
/// count, then each difference from the previous element.
pub fn size_run_lengths_compact_size(elements: &[u16]) -> (r: usize)
    requires
        nondecreasing(elements@),
        elements@.len() <= 0x1000_0000,
    ensures
        r == spec_compact_size(elements@.len() as u64) + spec_rl_compact_size(
            elements@,
            elements@.len() as int,
        ),
{
    let mut size = compact_size(elements.len() as u64);
    let ghost base = size as int;
    let mut prev: u16 = 0;
    let mut i: usize = 0;
    while i < elements.len()
        invariant
            nondecreasing(elements@),
            elements@.len() <= 0x1000_0000,
            i <= elements@.len(),
            prev == if i == 0 {
                0u16
            } else {
                elements@[i - 1]
            },
            size == base + spec_rl_compact_size(elements@, i as int),
            base <= 9,
            size <= base + 3 * i,
        decreases elements@.len() - i,
    {
        let element = elements[i];
        proof {
            if i > 0 {
                assert(elements@[i as int - 1] <= elements@[i as int]);
            }
        }
        let diff = element - prev;
        size = size + compact_size(diff as u64);
        prev = element;
        i = i + 1;
    }
    size
}

/// Bytes a VarInt run-length encoding of `elements` would take.
pub fn size_run_lengths_varint(elements: &[u16]) -> (r: usize)
    requires
        nondecreasing(elements@),
        elements@.len() <= 0x1000_0000,
    ensures
        r == spec_varint(elements@.len() as nat).len() + spec_rl_varint(
            elements@,
            elements@.len() as int,
        ),
{
    let mut size = size_varint(elements.len() as u64);
    let ghost base = size as int;
    proof {
        lemma_varint_len_bound(elements@.len() as nat);
    }
    let mut prev: u16 = 0;
    let mut i: usize = 0;
    while i < elements.len()
        invariant
            nondecreasing(elements@),
            elements@.len() <= 0x1000_0000,
            i <= elements@.len(),
            prev == if i == 0 {
                0u16
            } else {
                elements@[i - 1]
            },
            size == base + spec_rl_varint(elements@, i as int),
            base <= 10,
            size <= base + 3 * i,
        decreases elements@.len() - i,
    {
        let element = elements[i];
        proof {
            if i > 0 {
                assert(elements@[i as int - 1] <= elements@[i as int]);
            }
            lemma_varint_len_bound((element - prev) as nat);
        }
        let diff = element - prev;
        size = size + size_varint(diff as u64);
        prev = element;
        i = i + 1;
    }
    size
}

/// A VarInt of a value below `2^21` takes at most three bytes; one of a
/// value up to `2^28` at most five.
proof fn lemma_varint_len_bound(n: nat)
    ensures
        spec_varint(n).len() >= 1,
        n < 0x200000 ==> spec_varint(n).len() <= 3,
        n <= 0x1000_0000 ==> spec_varint(n).len() <= 5,
{
    if n > 0x7f {
        lemma_varint_flagged_len((n / 128 - 1) as nat);
    }
}

/// Length of the flagged groups of a value, by magnitude.
proof fn lemma_varint_flagged_len(n: nat)
    ensures
        spec_varint_flagged(n).len() >= 1,
        n < 0x4000 ==> spec_varint_flagged(n).len() <= 2,
        n < 0x20_0000 ==> spec_varint_flagged(n).len() <= 3,
        n < 0x1000_0000 ==> spec_varint_flagged(n).len() <= 4,
    decreases n,
{
    if n > 0x7f {
        lemma_varint_flagged_len((n / 128 - 1) as nat);
    }
}

} // verus!
