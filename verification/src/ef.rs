//! Elias-Fano codec for strictly increasing sequences of `u16` values.
//!
//! Each value is split by a fixed power-of-two divisor `2^w` into a quotient
//! (high part) and a remainder (low part). The remainders are stored verbatim
//! as packed `w`-bit fields; the quotients are stored as unary gap codes in a
//! bitvector: element `i` with high part `h` sets bit `h + i`. Because the
//! input is sorted the set-bit positions are strictly increasing, and
//! rank/select over the bitvector recovers every element.

use vstd::prelude::*;
use vstd::arithmetic::power2::{
    pow2,
    lemma_pow2_unfold,
    lemma_pow2_pos,
    lemma2_to64,
    lemma_pow2_strictly_increases,
};
use vstd::arithmetic::div_mod::{
    lemma_fundamental_div_mod,
    lemma_fundamental_div_mod_converse,
    lemma_div_is_ordered,
};
use vstd::arithmetic::mul::lemma_mul_inequality;
use vstd::bits::{lemma_u64_shr_is_div, lemma_u32_shr_is_div, lemma_u32_shl_is_mul};
use crate::bits::{
    bit_at,
    packed,
    ones_below,
    zeros_below,
    set_bit,
    set_bits_u8,
    get_bits_u8,
    count_ones_u8,
    select_in_byte,
    lemma_div8,
    lemma_ceil8,
    lemma_ones_below_byte,
    lemma_ones_below_mono,
    lemma_zeros_plus_ones,
    lemma_byte_ones_upto_not,
    lemma_byte_bit_not,
    lemma_packed_agree,
    zero_vec,
    le16_at,
    le16_bytes,
    push_u16_le,
    append_bytes,
    copy_range,
    read_u16_le,
};
use crate::EfError;

verus! {

/// No value repeats and each is larger than the one before it.
pub open spec fn strictly_sorted(s: Seq<u16>) -> bool {
    forall|i: int, j: int| 0 <= i < j < s.len() ==> s[i] < s[j]
}

/// Strict order of every adjacent pair gives strict order everywhere.
pub proof fn lemma_sorted_from_adjacent(s: Seq<u16>)
    requires
        forall|i: int| 1 <= i < s.len() ==> #[trigger] s[i - 1] < s[i],
    ensures
        strictly_sorted(s),
{
    assert forall|i: int, j: int| 0 <= i < j < s.len() implies s[i] < s[j] by {
        lemma_sorted_pair(s, i, j);
    }
}

proof fn lemma_sorted_pair(s: Seq<u16>, i: int, j: int)
    requires
        forall|k: int| 1 <= k < s.len() ==> #[trigger] s[k - 1] < s[k],
        0 <= i < j < s.len(),
    ensures
        s[i] < s[j],
    decreases j - i,
{
    if i + 1 == j {
        assert(s[j - 1] < s[j]);
    } else {
        lemma_sorted_pair(s, i, j - 1);
        assert(s[j - 1] < s[j]);
    }
}

/// Floor of the base-2 logarithm.
pub open spec fn spec_ilog2(q: nat) -> nat
    decreases q,
{
    if q < 2 {
        0
    } else {
        1 + spec_ilog2(q / 2)
    }
}

/// The split width the codec chooses for `n` values with largest element
/// `max_value`: zero when the universe is no larger than the count, else
/// the floor logarithm of their ratio, so that the number of high-part
/// buckets stays proportional to `n`.
pub open spec fn spec_split_width(n: nat, max_value: u16) -> nat {
    if max_value + 1 <= n {
        0
    } else {
        spec_ilog2((max_value + 1) as nat / n)
    }
}

/// `2^ilog2(q) <= q < 2^(ilog2(q) + 1)`.
pub proof fn lemma_ilog2_bounds(q: nat)
    requires
        q >= 1,
    ensures
        pow2(spec_ilog2(q)) <= q,
        q < pow2(spec_ilog2(q) + 1),
    decreases q,
{
    if q < 2 {
        lemma2_to64();
    } else {
        lemma_ilog2_bounds(q / 2);
        lemma_pow2_unfold(spec_ilog2(q) + 1);
        lemma_pow2_unfold(spec_ilog2(q));
    }
}

/// The floor logarithm is the only exponent whose power brackets `q`.
pub proof fn lemma_ilog2_unique(q: nat, r: nat)
    requires
        pow2(r) <= q,
        q < pow2(r + 1),
    ensures
        r == spec_ilog2(q),
{
    lemma_pow2_pos(r);
    lemma_ilog2_bounds(q);
    if r < spec_ilog2(q) {
        lemma_pow2_strictly_increases(r + 1, spec_ilog2(q) + 1);
        assert(pow2(r + 1) <= pow2(spec_ilog2(q))) by {
            if r + 1 < spec_ilog2(q) {
                lemma_pow2_strictly_increases(r + 1, spec_ilog2(q));
            }
        }
    }
    if r > spec_ilog2(q) {
        assert(pow2(spec_ilog2(q) + 1) <= pow2(r)) by {
            if spec_ilog2(q) + 1 < r {
                lemma_pow2_strictly_increases(spec_ilog2(q) + 1, r);
            }
        }
    }
}

/// Quotient of a value under the divisor `2^w`.
pub open spec fn high_part(v: u16, w: nat) -> int {
    v as int / pow2(w) as int
}

/// Remainder of a value under the divisor `2^w`.
pub open spec fn low_part(v: u16, w: nat) -> nat {
    v as nat % pow2(w)
}

/// Bit position that element `i` of `vs` occupies in the upper bitvector.
pub open spec fn upper_pos(vs: Seq<u16>, w: nat, i: int) -> int {
    high_part(vs[i], w) + i
}

/// The set bits of `up` are exactly the positions of the elements of `vs`.
pub open spec fn upper_bits_match(up: Seq<u8>, vs: Seq<u16>, w: nat) -> bool {
    forall|p: int|
        (#[trigger] bit_at(up, p)) <==> (exists|i: int|
            0 <= i < vs.len() && p == #[trigger] upper_pos(vs, w, i))
}

/// The packed arrays `lo` and `up` encode the sorted sequence `vs` with
/// split width `w`, count `n` and largest element `max_value`.
pub open spec fn encoding_ok(
    n: u16,
    max_value: u16,
    w: u8,
    lo: Seq<u8>,
    up: Seq<u8>,
    vs: Seq<u16>,
) -> bool {
    &&& n >= 1
    &&& vs.len() == n as int
    &&& strictly_sorted(vs)
    &&& vs[n as int - 1] == max_value
    &&& w <= 16
    &&& lo.len() == (n as int * w as int + 7) / 8
    &&& up.len() == (n as int + high_part(max_value, w as nat) + 1 + 7) / 8
    &&& forall|i: int|
        0 <= i < n as int ==> packed(lo, i * w as int, w as int) == low_part(vs[i], w as nat)
    &&& upper_bits_match(up, vs, w as nat)
}

/// Number of elements among the first `k` whose upper-bitvector position is
/// below `p`.
spec fn elems_pos_below(vs: Seq<u16>, w: nat, k: int, p: int) -> nat
    decreases k,
{
    if k <= 0 {
        0
    } else {
        elems_pos_below(vs, w, k - 1, p) + (if upper_pos(vs, w, k - 1) < p {
            1nat
        } else {
            0nat
        })
    }
}

/// Number of elements among the first `k` whose high part is below `h`.
spec fn count_high_below(vs: Seq<u16>, w: nat, k: int, h: int) -> nat
    decreases k,
{
    if k <= 0 {
        0
    } else {
        count_high_below(vs, w, k - 1, h) + (if high_part(vs[k - 1], w) < h {
            1nat
        } else {
            0nat
        })
    }
}

/// A high part is at least zero and at most the value itself.
proof fn lemma_high_le(v: u16, w: nat)
    ensures
        0 <= high_part(v, w) <= v,
{
    lemma_pow2_pos(w);
    let p2 = pow2(w) as int;
    assert(0 <= v as int / p2 <= v as int) by (nonlinear_arith)
        requires p2 >= 1, v as int >= 0;
}

/// Sorted values occupy strictly increasing upper-bitvector positions.
proof fn lemma_upper_pos_increases(vs: Seq<u16>, w: nat, i: int, j: int)
    requires
        strictly_sorted(vs),
        0 <= i < j < vs.len(),
    ensures
        upper_pos(vs, w, i) < upper_pos(vs, w, j),
        high_part(vs[i], w) <= high_part(vs[j], w),
{
    lemma_pow2_pos(w);
    lemma_div_is_ordered(vs[i] as int, vs[j] as int, pow2(w) as int);
}

/// Nothing sits below a nonpositive position.
proof fn lemma_elems_pos_below_zero(vs: Seq<u16>, w: nat, k: int, p: int)
    requires
        p <= 0,
        k <= vs.len(),
    ensures
        elems_pos_below(vs, w, k, p) == 0,
    decreases k,
{
    if k > 0 {
        lemma_elems_pos_below_zero(vs, w, k - 1, p);
        lemma_high_le(vs[k - 1], w);
    }
}

/// Raising the bound by one admits exactly the element sitting at `p`, if any.
proof fn lemma_elems_pos_below_step(vs: Seq<u16>, w: nat, k: int, p: int)
    requires
        strictly_sorted(vs),
        0 <= k <= vs.len(),
    ensures
        elems_pos_below(vs, w, k, p + 1) == elems_pos_below(vs, w, k, p) + (if exists|i: int|
            0 <= i < k && #[trigger] upper_pos(vs, w, i) == p {
            1nat
        } else {
            0nat
        }),
    decreases k,
{
    if k > 0 {
        lemma_elems_pos_below_step(vs, w, k - 1, p);
        let t = upper_pos(vs, w, k - 1);
        if t == p {
            assert forall|i: int| 0 <= i < k - 1 implies #[trigger] upper_pos(vs, w, i) != p by {
                lemma_upper_pos_increases(vs, w, i, k - 1);
            }
            assert(exists|i: int| 0 <= i < k && #[trigger] upper_pos(vs, w, i) == p);
        } else {
            assert((exists|i: int| 0 <= i < k && #[trigger] upper_pos(vs, w, i) == p)
                == (exists|i: int| 0 <= i < k - 1 && #[trigger] upper_pos(vs, w, i) == p)) by {
                if exists|i: int| 0 <= i < k && #[trigger] upper_pos(vs, w, i) == p {
                    let i = choose|i: int| 0 <= i < k && #[trigger] upper_pos(vs, w, i) == p;
                    assert(i != k - 1);
                    assert(0 <= i < k - 1 && upper_pos(vs, w, i) == p);
                }
            }
        }
    }
}

/// The rank of a position equals the number of elements encoded below it.
proof fn lemma_ones_below_counts(up: Seq<u8>, vs: Seq<u16>, w: nat, p: int)
    requires
        strictly_sorted(vs),
        upper_bits_match(up, vs, w),
        p >= 0,
    ensures
        ones_below(up, p) == elems_pos_below(vs, w, vs.len() as int, p),
    decreases p,
{
    if p == 0 {
        lemma_elems_pos_below_zero(vs, w, vs.len() as int, p);
    } else {
        lemma_ones_below_counts(up, vs, w, p - 1);
        lemma_elems_pos_below_step(vs, w, vs.len() as int, p - 1);
        assert(bit_at(up, p - 1) == (exists|i: int|
            0 <= i < vs.len() && (p - 1) == #[trigger] upper_pos(vs, w, i)));
        assert((exists|i: int| 0 <= i < vs.len() && (p - 1) == #[trigger] upper_pos(vs, w, i))
            == (exists|i: int| 0 <= i < vs.len() && #[trigger] upper_pos(vs, w, i) == p - 1));
    }
}

/// Counting positions below an element's own position counts the elements
/// before it.
proof fn lemma_elems_below_own_pos(vs: Seq<u16>, w: nat, k: int, i: int)
    requires
        strictly_sorted(vs),
        0 <= i < vs.len(),
        0 <= k <= vs.len(),
    ensures
        elems_pos_below(vs, w, k, upper_pos(vs, w, i)) == if k <= i {
            k as nat
        } else {
            i as nat
        },
    decreases k,
{
    if k > 0 {
        lemma_elems_below_own_pos(vs, w, k - 1, i);
        if k - 1 < i {
            lemma_upper_pos_increases(vs, w, k - 1, i);
        } else if k - 1 > i {
            lemma_upper_pos_increases(vs, w, i, k - 1);
        }
    }
}

/// Each element's bit is set, and its rank is its index.
proof fn lemma_rank_at_elem(up: Seq<u8>, vs: Seq<u16>, w: nat, i: int)
    requires
        strictly_sorted(vs),
        upper_bits_match(up, vs, w),
        0 <= i < vs.len(),
    ensures
        bit_at(up, upper_pos(vs, w, i)),
        0 <= upper_pos(vs, w, i) < 8 * up.len(),
        ones_below(up, upper_pos(vs, w, i)) == i,
{
    assert(bit_at(up, upper_pos(vs, w, i)));
    lemma_high_le(vs[i], w);
    lemma_ones_below_counts(up, vs, w, upper_pos(vs, w, i));
    lemma_elems_below_own_pos(vs, w, vs.len() as int, i);
}

/// A set bit whose rank is `rank` can only be element `rank`'s bit.
proof fn lemma_select1_unique(up: Seq<u8>, vs: Seq<u16>, w: nat, r: int, rank: int)
    requires
        strictly_sorted(vs),
        upper_bits_match(up, vs, w),
        bit_at(up, r),
        ones_below(up, r) == rank,
        0 <= rank < vs.len(),
    ensures
        r == upper_pos(vs, w, rank),
{
    let i = choose|i: int| 0 <= i < vs.len() && r == #[trigger] upper_pos(vs, w, i);
    lemma_rank_at_elem(up, vs, w, i);
}

/// The bitvector holds exactly one set bit per element.
proof fn lemma_total_ones(up: Seq<u8>, vs: Seq<u16>, w: nat)
    requires
        strictly_sorted(vs),
        upper_bits_match(up, vs, w),
    ensures
        ones_below(up, 8 * up.len() as int) == vs.len(),
{
    let n = vs.len() as int;
    assert forall|i: int| 0 <= i < vs.len() implies #[trigger] upper_pos(vs, w, i) < 8 * up.len() as int by {
        lemma_rank_at_elem(up, vs, w, i);
    }
    lemma_ones_below_counts(up, vs, w, 8 * up.len() as int);
    lemma_elems_all_below(vs, w, n, 8 * up.len() as int);
}

/// When every position is below the bound, the count is total.
proof fn lemma_elems_all_below(vs: Seq<u16>, w: nat, k: int, p: int)
    requires
        strictly_sorted(vs),
        0 <= k <= vs.len(),
        forall|i: int| 0 <= i < vs.len() ==> #[trigger] upper_pos(vs, w, i) < p,
    ensures
        elems_pos_below(vs, w, k, p) == k,
    decreases k,
{
    if k > 0 {
        lemma_elems_all_below(vs, w, k - 1, p);
    }
}

/// Elements with high part below `h` form a prefix, of length
/// `count_high_below`.
proof fn lemma_chb_prefix(vs: Seq<u16>, w: nat, k: int, h: int)
    requires
        strictly_sorted(vs),
        0 <= k <= vs.len(),
    ensures
        count_high_below(vs, w, k, h) <= k,
        forall|i: int|
            0 <= i < k ==> (high_part(vs[i], w) < h) == (i < count_high_below(vs, w, k, h)),
    decreases k,
{
    if k > 0 {
        lemma_chb_prefix(vs, w, k - 1, h);
        let a = count_high_below(vs, w, k - 1, h) as int;
        if high_part(vs[k - 1], w) < h {
            if a < k - 1 {
                assert((high_part(vs[a], w) < h) == (a < a));
                lemma_upper_pos_increases(vs, w, a, k - 1);
                assert(false);
            }
        }
    }
}

/// Counting positions below the bucket boundary counts high parts below `h`.
proof fn lemma_elems_vs_chb(vs: Seq<u16>, w: nat, k: int, h: int, z: int)
    requires
        0 <= k <= vs.len(),
        forall|i: int|
            0 <= i < vs.len() ==> (#[trigger] upper_pos(vs, w, i) < z) == (high_part(vs[i], w)
                < h),
    ensures
        elems_pos_below(vs, w, k, z) == count_high_below(vs, w, k, h),
    decreases k,
{
    if k > 0 {
        lemma_elems_vs_chb(vs, w, k - 1, h, z);
    }
}

/// The `(h-1)`-th clear bit sits at the boundary that closes bucket `h - 1`:
/// position `h - 1` plus the number of elements with high part below `h`.
proof fn lemma_zero_pos(up: Seq<u8>, vs: Seq<u16>, w: nat, h: int)
    requires
        strictly_sorted(vs),
        upper_bits_match(up, vs, w),
        h >= 1,
    ensures
        !bit_at(up, h - 1 + count_high_below(vs, w, vs.len() as int, h) as int),
        zeros_below(up, h - 1 + count_high_below(vs, w, vs.len() as int, h) as int) == (h
            - 1) as nat,
        ones_below(up, h - 1 + count_high_below(vs, w, vs.len() as int, h) as int)
            == count_high_below(vs, w, vs.len() as int, h),
{
    let n = vs.len() as int;
    let a = count_high_below(vs, w, n, h) as int;
    let z = h - 1 + a;
    lemma_chb_prefix(vs, w, n, h);
    assert forall|i: int| 0 <= i < n implies (#[trigger] upper_pos(vs, w, i) < z) == (high_part(
        vs[i],
        w,
    ) < h) && upper_pos(vs, w, i) != z by {
        lemma_high_le(vs[i], w);
        if high_part(vs[i], w) < h {
            assert(i < a);
            assert(upper_pos(vs, w, i) <= h - 1 + i < z);
        } else {
            assert(!(i < a));
            assert(upper_pos(vs, w, i) >= h + a == z + 1);
        }
    }
    lemma_elems_vs_chb(vs, w, n, h, z);
    lemma_ones_below_counts(up, vs, w, z);
    lemma_zeros_plus_ones(up, z);
    assert(!bit_at(up, z)) by {
        if bit_at(up, z) {
            let i = choose|i: int| 0 <= i < vs.len() && z == #[trigger] upper_pos(vs, w, i);
            assert(upper_pos(vs, w, i) != z);
        }
    }
}

/// No high part lies below a nonpositive bound.
proof fn lemma_chb_nonpos(vs: Seq<u16>, w: nat, k: int, h: int)
    requires
        h <= 0,
        k <= vs.len(),
    ensures
        count_high_below(vs, w, k, h) == 0,
    decreases k,
{
    if k > 0 {
        lemma_chb_nonpos(vs, w, k - 1, h);
        lemma_high_le(vs[k - 1], w);
    }
}

/// Clear-bit ranks do not decrease.
proof fn lemma_zeros_below_mono(s: Seq<u8>, a: int, b: int)
    requires
        0 <= a <= b,
    ensures
        zeros_below(s, a) <= zeros_below(s, b),
{
    lemma_zeros_plus_ones(s, a);
    lemma_zeros_plus_ones(s, b);
    lemma_ones_below_mono(s, a, b);
}

/// Two clear bits with the same clear-bit rank are the same position.
proof fn lemma_select0_unique(s: Seq<u8>, r1: int, r2: int)
    requires
        0 <= r1,
        0 <= r2,
        !bit_at(s, r1),
        !bit_at(s, r2),
        zeros_below(s, r1) == zeros_below(s, r2),
    ensures
        r1 == r2,
{
    if r1 < r2 {
        assert(zeros_below(s, r1 + 1) == zeros_below(s, r1) + 1);
        lemma_zeros_below_mono(s, r1 + 1, r2);
    }
    if r2 < r1 {
        assert(zeros_below(s, r2 + 1) == zeros_below(s, r2) + 1);
        lemma_zeros_below_mono(s, r2 + 1, r1);
    }
}

/// Elias-Fano encoded representation of a sorted sequence of unique `u16`
/// values. Uses `u8`-packed bitvectors to minimize wasted trailing bits.
/// Immutable once built.
pub struct EliasFano {
    n: u16,
    max_value: u16,
    lower_bits: u8,
    lower: Vec<u8>,
    upper: Vec<u8>,
    values: Ghost<Seq<u16>>,
}

impl View for EliasFano {
    type V = Seq<u16>;

    closed spec fn view(&self) -> Seq<u16> {
        self.values@
    }
}

impl EliasFano {
    /// The concrete fields faithfully encode the abstract sequence.
    pub closed spec fn wf(self) -> bool {
        if self.n == 0 {
            &&& self.values@.len() == 0
            &&& self.max_value == 0
            &&& self.lower_bits == 0
            &&& self.lower@.len() == 0
            &&& self.upper@.len() == 0
        } else {
            encoding_ok(
                self.n,
                self.max_value,
                self.lower_bits,
                self.lower@,
                self.upper@,
                self.values@,
            )
        }
    }

    /// Build the codec from a strictly increasing slice. Rejects input that
    /// is not strictly increasing (duplicates included) as an
    /// [`EfError::OrderingViolation`].
    pub fn new(values: &[u16]) -> (r: Result<EliasFano, EfError>)
        requires
            values@.len() <= 0xFFFF,
        ensures
            match r {
                Ok(ef) => {
                    &&& ef.wf()
                    &&& ef@ == values@
                    &&& strictly_sorted(values@)
                    &&& values@.len() == 0 ==> ef.spec_lower_bits() == 0
                    &&& values@.len() > 0 ==> ef.spec_lower_bits() == spec_split_width(
                        values@.len(),
                        values@.last(),
                    )
                },
                Err(e) => e == EfError::OrderingViolation && !strictly_sorted(values@),
            },
    {
        let n = values.len() as u16;

        if values.len() == 0 {
            return Ok(
                EliasFano {
                    n: 0,
                    max_value: 0,
                    lower_bits: 0,
                    lower: Vec::new(),
                    upper: Vec::new(),
                    values: Ghost(values@),
                },
            );
        }
        let mut i: usize = 1;
        while i < values.len()
            invariant
                1 <= i <= values@.len(),
                forall|k: int| 1 <= k < i ==> #[trigger] values@[k - 1] < values@[k],
            decreases values@.len() - i,
        {
            if values[i] <= values[i - 1] {
                return Err(EfError::OrderingViolation);
            }
            i = i + 1;
        }
        proof {
            lemma_sorted_from_adjacent(values@);
        }

        let max_value = values[values.len() - 1];
        let universe = max_value as u32 + 1;
        let count = values.len() as u32;

        let lower_bits = if universe <= count {
            0u8
        } else {
            proof {
                assert(universe / count >= 1) by (nonlinear_arith)
                    requires universe > count, count >= 1;
            }
            let w = ilog2_u32(universe / count);
            proof {
                lemma2_to64();
                if w > 16 {
                    lemma_pow2_strictly_increases(17, w as nat);
                }
                lemma_ilog2_unique((universe / count) as nat, w as nat);
            }
            w
        };

        let lower = build_lower(values, lower_bits);
        let upper = build_upper(values, lower_bits);

        Ok(
            EliasFano {
                n,
                max_value,
                lower_bits,
                lower,
                upper,
                values: Ghost(values@),
            },
        )
    }

    /// Element count.
    pub fn len(&self) -> (r: u16)
        requires
            self.wf(),
        ensures
            r == self@.len(),
    {
        self.n
    }

    /// The split width chosen at construction.
    pub closed spec fn spec_lower_bits(self) -> u8 {
        self.lower_bits
    }

    /// Number of low bits each element stores verbatim.
    pub fn lower_bits(&self) -> (r: u8)
        requires
            self.wf(),
        ensures
            r == self.spec_lower_bits(),
            r <= 16,
    {
        self.lower_bits
    }

    /// Whether the sequence is empty.
    pub fn is_empty(&self) -> (r: bool)
        requires
            self.wf(),
        ensures
            r == (self@.len() == 0),
    {
        self.n == 0
    }

    /// The byte length of the upper bitvector is small.
    proof fn lemma_upper_len(self)
        requires
            self.wf(),
        ensures
            self.upper@.len() <= 0x4001,
            8 * self.upper@.len() < u32::MAX,
    {
        if self.n >= 1 {
            lemma_high_le(self.max_value, self.lower_bits as nat);
        }
    }

    /// Position of the `rank`-th (0-based) set bit of the upper bitvector:
    /// scan bytes left to right, subtracting each byte's population count
    /// from the remaining rank until it fits within one byte, then resolve
    /// locally.
    fn select1_upper(&self, rank: u32) -> (r: u32)
        requires
            self.wf(),
            self.n >= 1,
            rank < self.n,
        ensures
            bit_at(self.upper@, r as int),
            ones_below(self.upper@, r as int) == rank,
            r as int == upper_pos(self@, self.lower_bits as nat, rank as int),
    {
        proof {
            self.lemma_upper_len();
        }
        let ghost up = self.upper@;
        let mut remaining = rank;
        let mut byte_idx: usize = 0;
        while byte_idx < self.upper.len()
            invariant
                self.wf(),
                self.n >= 1,
                rank < self.n,
                up == self.upper@,
                self.upper@.len() <= 0x4001,
                byte_idx <= self.upper@.len(),
                remaining <= rank,
                ones_below(up, 8 * byte_idx as int) == rank - remaining,
            decreases self.upper@.len() - byte_idx,
        {
            let b = self.upper[byte_idx];
            let pc = count_ones_u8(b);
            proof {
                lemma_ones_below_byte(up, byte_idx as int, 8);
            }
            if remaining < pc {
                let within = select_in_byte(b, remaining);
                proof {
                    lemma_ones_below_byte(up, byte_idx as int, within as int);
                    lemma_div8(byte_idx as int, within as int);
                    assert(bit_at(up, 8 * byte_idx as int + within as int));
                    lemma_select1_unique(
                        up,
                        self@,
                        self.lower_bits as nat,
                        8 * byte_idx as int + within as int,
                        rank as int,
                    );
                }
                return (byte_idx as u32) * 8 + within;
            }
            remaining = remaining - pc;
            byte_idx = byte_idx + 1;
        }
        proof {
            lemma_total_ones(up, self@, self.lower_bits as nat);
            assert(false);
        }
        0
    }

    /// Position of the `rank`-th (0-based) clear bit of the upper bitvector.
    fn select0_upper(&self, rank: u32) -> (r: u32)
        requires
            self.wf(),
            self.n >= 1,
            (rank as int) < high_part(self.max_value, self.lower_bits as nat),
        ensures
            !bit_at(self.upper@, r as int),
            zeros_below(self.upper@, r as int) == rank,
            r as int == rank + count_high_below(
                self@,
                self.lower_bits as nat,
                self@.len() as int,
                rank as int + 1,
            ),
    {
        proof {
            self.lemma_upper_len();
            lemma_zero_pos(self.upper@, self@, self.lower_bits as nat, rank as int + 1);
        }
        let ghost up = self.upper@;
        let mut remaining = rank;
        let mut byte_idx: usize = 0;
        while byte_idx < self.upper.len()
            invariant
                self.wf(),
                self.n >= 1,
                (rank as int) < high_part(self.max_value, self.lower_bits as nat),
                up == self.upper@,
                self.upper@.len() <= 0x4001,
                byte_idx <= self.upper@.len(),
                remaining <= rank,
                zeros_below(up, 8 * byte_idx as int) == rank - remaining,
            decreases self.upper@.len() - byte_idx,
        {
            let b = self.upper[byte_idx];
            let zc = count_ones_u8(!b);
            proof {
                lemma_byte_ones_upto_not(b, 8);
                lemma_ones_below_byte(up, byte_idx as int, 8);
                lemma_zeros_plus_ones(up, 8 * byte_idx as int);
                lemma_zeros_plus_ones(up, 8 * (byte_idx as int + 1));
            }
            if remaining < zc {
                let within = select_in_byte(!b, remaining);
                proof {
                    lemma_zero_pos(self.upper@, self@, self.lower_bits as nat, rank as int + 1);
                    lemma_byte_ones_upto_not(b, within as nat);
                    lemma_byte_bit_not(b, within as nat);
                    lemma_ones_below_byte(up, byte_idx as int, within as int);
                    lemma_zeros_plus_ones(up, 8 * byte_idx as int + within as int);
                    let r = 8 * byte_idx as int + within as int;
                    lemma_div8(byte_idx as int, within as int);
                    assert(!bit_at(up, r));
                    assert(zeros_below(up, r) == rank);
                    lemma_select0_unique(
                        up,
                        r,
                        rank + count_high_below(
                            self@,
                            self.lower_bits as nat,
                            self@.len() as int,
                            rank as int + 1,
                        ) as int,
                    );
                }
                return (byte_idx as u32) * 8 + within;
            }
            remaining = remaining - zc;
            byte_idx = byte_idx + 1;
        }
        proof {
            lemma_total_ones(up, self@, self.lower_bits as nat);
            lemma_zeros_plus_ones(up, 8 * up.len() as int);
            lemma_high_le(self.max_value, self.lower_bits as nat);
            lemma_ceil8(self.n as int + high_part(self.max_value, self.lower_bits as nat) + 1);
            assert(false);
        }
        0
    }

    /// The `index`-th remainder, read from the packed lower array.
    fn get_lower(&self, index: u16) -> (r: u32)
        requires
            self.wf(),
            self.n >= 1,
            index < self.n,
        ensures
            r as nat == low_part(self@[index as int], self.lower_bits as nat),
            (r as nat) < pow2(self.lower_bits as nat),
    {
        let w = self.lower_bits;
        if w == 0 {
            proof {
                lemma2_to64();
            }
            return 0;
        }
        proof {
            assert((index as int + 1) * w as int <= self.n as int * w as int) by {
                lemma_mul_inequality(index as int + 1, self.n as int, w as int);
            }
            assert(index as int * w as int <= self.n as int * w as int) by {
                lemma_mul_inequality(index as int, self.n as int, w as int);
            }
            assert(index as int * w as int + w == (index as int + 1) * w as int)
                by (nonlinear_arith);
            lemma_ceil8(self.n as int * w as int);
            assert(self.n as int * w as int <= 0xFFFF * 16) by (nonlinear_arith)
                requires self.n <= 0xFFFF, w <= 16;
        }
        let bit_pos: u64 = (index as u64) * (w as u64);
        get_bits_u8(self.lower.as_slice(), bit_pos, w)
    }

    /// The `index`-th quotient, recovered as the position of the `index`-th
    /// set bit minus the number of set bits before it.
    fn get_upper(&self, index: u16) -> (r: u32)
        requires
            self.wf(),
            self.n >= 1,
            index < self.n,
        ensures
            r as int == high_part(self@[index as int], self.lower_bits as nat),
    {
        let pos = self.select1_upper(index as u32);
        proof {
            lemma_high_le(self@[index as int], self.lower_bits as nat);
        }
        pos - index as u32
    }

    /// Whether `value` occurs in the sequence: jump to the start of the
    /// bucket of `value`'s high part, then walk its consecutive set bits
    /// comparing remainders, stopping early in sorted order.
    pub fn contains(&self, value: u16) -> (r: bool)
        requires
            self.wf(),
        ensures
            r == self@.contains(value),
    {
        let ghost s = self@;
        let ghost w = self.lower_bits as nat;
        let ghost up = self.upper@;
        if self.n == 0 {
            proof {
                assert(!s.contains(value)) by {
                    if s.contains(value) {
                        let i = choose|i: int| 0 <= i < s.len() && s[i] == value;
                    }
                }
            }
            return false;
        }
        if value > self.max_value {
            proof {
                assert(!s.contains(value)) by {
                    if s.contains(value) {
                        let i = choose|i: int| 0 <= i < s.len() && s[i] == value;
                        if i < s.len() - 1 {
                            assert(s[i] < s[s.len() - 1]);
                        }
                    }
                }
            }
            return false;
        }

        let wb = self.lower_bits;
        let high: u32 = (value as u32) >> (wb as u32);
        proof {
            lemma_u32_shr_is_div(value as u32, wb as u32);
            lemma_pow2_pos(w);
        }
        let low: u32 = if wb == 0 {
            proof {
                lemma2_to64();
            }
            0u32
        } else {
            proof {
                lemma2_to64();
                lemma_pow2_strictly_increases(w, 32);
                lemma_u32_shl_is_mul(1u32, wb as u32);
                vstd::bits::lemma_u32_low_bits_mask_is_mod(value as u32, w);
            }
            (value as u32) & ((1u32 << (wb as u32)) - 1)
        };
        proof {
            assert(high as int == high_part(value, w));
            assert(low as nat == low_part(value, w));
            lemma_pow2_pos(w);
            lemma_div_is_ordered(value as int, self.max_value as int, pow2(w) as int);
            self.lemma_upper_len();
            lemma_chb_prefix(s, w, s.len() as int, high as int);
        }
        let ghost a = count_high_below(s, w, s.len() as int, high as int) as int;

        let start: u32 = if high == 0 {
            proof {
                lemma_chb_nonpos(s, w, s.len() as int, 0);
            }
            0u32
        } else {
            let z = self.select0_upper(high - 1);
            proof {
                assert(ones_below(up, z as int) + zeros_below(up, z as int) == z as int) by {
                    lemma_zeros_plus_ones(up, z as int);
                }
                lemma_zero_pos(up, s, w, high as int);
                assert(z as int == high - 1 + a);
                assert(ones_below(up, z as int + 1) == a);
            }
            z + 1
        };
        proof {
            assert(start as int == high + a);
            assert(ones_below(up, start as int) == a);
            assert forall|j: int| 0 <= j < a implies s[j] != value by {
                assert((high_part(s[j], w) < high as int) == (j < a));
            }
            lemma_high_le(self.max_value, w);
            lemma_ceil8(self.n as int + high_part(self.max_value, w) + 1);
        }

        let end_pos: u32 = (self.upper.len() as u32) * 8;
        let mut pos = start;
        loop
            invariant
                self.wf(),
                self.n >= 1,
                s == self@,
                w == self.lower_bits as nat,
                up == self.upper@,
                value <= self.max_value,
                high as int == high_part(value, w),
                low as nat == low_part(value, w),
                (low as nat) < pow2(w),
                a == count_high_below(s, w, s.len() as int, high as int),
                forall|i: int|
                    0 <= i < s.len() ==> (high_part(s[i], w) < high as int) == (i < a),
                end_pos == 8 * up.len(),
                8 * up.len() < u32::MAX,
                high + a <= pos <= end_pos,
                pos - high <= s.len(),
                forall|j: int| a <= j < pos - high ==> #[trigger] high_part(s[j], w) == high as int
                    && low_part(s[j], w) < low as nat,
                forall|j: int| 0 <= j < pos - high ==> s[j] != value,
                ones_below(up, pos as int) == pos - high,
            decreases end_pos - pos,
        {
            let ghost idx = pos as int - high as int;
            proof {
                assert(!s.contains(value) == (forall|j: int|
                    0 <= j < s.len() ==> s[j] != value)) by {
                    if s.contains(value) {
                        let j = choose|j: int| 0 <= j < s.len() && s[j] == value;
                    }
                }
            }
            if pos >= end_pos {
                proof {
                    assert forall|j: int| 0 <= j < s.len() implies s[j] != value by {
                        if j >= idx {
                            lemma_rank_at_elem(up, s, w, j);
                            assert(high_part(s[j], w) >= high as int);
                            if s[j] == value {
                                assert(upper_pos(s, w, j) >= high as int + j >= pos as int);
                            }
                        }
                    }
                }
                return false;
            }
            let byte_idx = (pos / 8) as usize;
            let bit_idx = (pos % 8) as u8;
            proof {
                let glen = up.len() as int;
                assert(pos as int / 8 < glen) by (nonlinear_arith)
                    requires pos < 8 * glen;
            }
            let b = self.upper[byte_idx];
            let bit = (b >> bit_idx) & 1;
            proof {
                assert((b >> bit_idx) & 1 == 0 || (b >> bit_idx) & 1 == 1) by (bit_vector);
                assert((bit == 1) == bit_at(up, pos as int));
            }

            if bit == 0 {
                proof {
                    assert forall|j: int| 0 <= j < s.len() implies s[j] != value by {
                        if j >= idx && s[j] == value {
                            assert(high_part(s[j], w) == high as int);
                            if j == idx {
                                lemma_rank_at_elem(up, s, w, j);
                                assert(bit_at(up, pos as int));
                            } else {
                                assert(high_part(s[idx], w) >= high as int);
                                lemma_upper_pos_increases(s, w, idx, j);
                                assert(high_part(s[idx], w) <= high_part(s[j], w));
                                lemma_rank_at_elem(up, s, w, idx);
                                assert(upper_pos(s, w, idx) == pos as int);
                                assert(bit_at(up, pos as int));
                            }
                        }
                    }
                }
                return false;
            }

            proof {
                if idx >= s.len() {
                    let i0 = choose|i: int| 0 <= i < s.len() && pos as int == #[trigger] upper_pos(
                        s,
                        w,
                        i,
                    );
                    lemma_rank_at_elem(up, s, w, i0);
                    assert(false);
                }
                lemma_select1_unique(up, s, w, pos as int, idx);
                assert(high_part(s[idx], w) == high as int);
            }
            let elem_idx = (pos - high) as u16;
            let elem_low = self.get_lower(elem_idx);

            if elem_low == low {
                proof {
                    lemma_fundamental_div_mod(s[idx] as int, pow2(w) as int);
                    lemma_fundamental_div_mod(value as int, pow2(w) as int);
                    assert(s[idx] == value);
                    assert(s.contains(value));
                }
                return true;
            }
            if elem_low > low {
                proof {
                    lemma_fundamental_div_mod(s[idx] as int, pow2(w) as int);
                    lemma_fundamental_div_mod(value as int, pow2(w) as int);
                    assert(s[idx] > value);
                    assert forall|j: int| 0 <= j < s.len() implies s[j] != value by {
                        if j > idx {
                            assert(s[idx] < s[j]);
                        }
                    }
                }
                return false;
            }
            proof {
                lemma_fundamental_div_mod(s[idx] as int, pow2(w) as int);
                lemma_fundamental_div_mod(value as int, pow2(w) as int);
                assert(s[idx] != value);
            }
            pos = pos + 1;
        }
    }

    /// A fresh iterator positioned at the start of the sequence.
    pub fn iter(&self) -> (r: EliasFanoIterator<'_>)
        requires
            self.wf(),
        ensures
            r.inv(),
            r.src() == *self,
            r.emitted() == 0,
    {
        proof {
            if self.n >= 1 {
                lemma_high_le(self@[0], self.lower_bits as nat);
            }
        }
        EliasFanoIterator { ef: self, index: 0, upper_bit_pos: 0, zeros_seen: 0 }
    }

    /// The `index`-th element of the sequence, or `None` when `index` is out
    /// of range.
    pub fn get(&self, index: u16) -> (r: Option<u16>)
        requires
            self.wf(),
        ensures
            match r {
                Some(v) => index < self@.len() && v == self@[index as int],
                None => index >= self@.len(),
            },
    {
        if index >= self.n {
            return None;
        }
        let low = self.get_lower(index);
        let high = self.get_upper(index);
        Some(combine_parts(high, low, self.lower_bits, Ghost(self@[index as int])))
    }
}

/// Reassemble a value from its quotient and remainder: `(high << w) | low`.
fn combine_parts(high: u32, low: u32, w: u8, v: Ghost<u16>) -> (r: u16)
    requires
        w <= 16,
        high as int == high_part(v@, w as nat),
        low as nat == low_part(v@, w as nat),
    ensures
        r == v@,
{
    proof {
        lemma_pow2_pos(w as nat);
        lemma_fundamental_div_mod(v@ as int, pow2(w as nat) as int);
        assert(v@ as int == pow2(w as nat) * high_part(v@, w as nat) + low_part(v@, w as nat));
        lemma2_to64();
        if (w as nat) < 32 {
            lemma_pow2_strictly_increases(w as nat, 32);
        }
        lemma_u32_shl_is_mul(high, w as u32);
        lemma_u32_shl_is_mul(1u32, w as u32);
    }
    let combined = (high << (w as u32)) | low;
    proof {
        let wu = w as u32;
        assert(((high << wu) | low) == (high << wu) + low) by (bit_vector)
            requires low < (1u32 << wu), wu < 32;
    }
    combined as u16
}

/// `ef`'s serialized form is what `b` starts with.
pub open spec fn is_encoding_prefix(ef: EliasFano, b: Seq<u8>) -> bool {
    &&& ef.spec_serialized().len() <= b.len()
    &&& ef.spec_serialized() == b.take(ef.spec_serialized().len() as int)
}

impl EliasFano {
    /// The exact serialized byte string: `n` as little-endian `u16`, and for
    /// a nonempty codec `max_value`, `lower_bits` and the two packed arrays.
    pub closed spec fn spec_serialized(self) -> Seq<u8> {
        if self.n == 0 {
            le16_bytes(self.n)
        } else {
            le16_bytes(self.n) + le16_bytes(self.max_value) + seq![self.lower_bits] + self.lower@
                + self.upper@
        }
    }

    /// Write the codec to its on-disk form.
    pub fn serialize(&self) -> (r: Vec<u8>)
        requires
            self.wf(),
        ensures
            r@ == self.spec_serialized(),
            self@.len() == 0 ==> r@.len() == 2,
            r@.len() >= 2,
    {
        let mut out: Vec<u8> = Vec::new();
        push_u16_le(&mut out, self.n);
        if self.n == 0 {
            return out;
        }
        push_u16_le(&mut out, self.max_value);
        out.push(self.lower_bits);
        append_bytes(&mut out, &self.lower);
        append_bytes(&mut out, &self.upper);
        proof {
            assert(out@ =~= self.spec_serialized());
        }
        out
    }

    /// Number of bytes `serialize` produces.
    pub fn serialized_size(&self) -> (r: usize)
        requires
            self.wf(),
        ensures
            r == self.spec_serialized().len(),
            self@.len() == 0 ==> r == 2,
    {
        if self.n == 0 {
            return 2;
        }
        proof {
            self.lemma_upper_len();
            lemma_ceil8(self.n as int * self.lower_bits as int);
            assert(self.n as int * self.lower_bits as int <= 0xFFFF * 16) by (nonlinear_arith)
                requires self.n <= 0xFFFF, self.lower_bits <= 16;
        }
        2 + 2 + 1 + self.lower.len() + self.upper.len()
    }

    /// In-memory footprint: the struct itself plus its two heap buffers.
    pub closed spec fn spec_size_in_bytes(self) -> int {
        vstd::layout::size_of::<EliasFano>() + self.lower@.len() + self.upper@.len() as int
    }

    /// Bytes of memory the codec occupies, saturating at `usize::MAX`.
    pub fn size_in_bytes(&self) -> (r: usize)
        requires
            self.wf(),
        ensures
            self.spec_size_in_bytes() <= usize::MAX ==> r == self.spec_size_in_bytes(),
            self.spec_size_in_bytes() > usize::MAX ==> r == usize::MAX,
    {
        proof {
            self.lemma_upper_len();
            lemma_ceil8(self.n as int * self.lower_bits as int);
            assert(self.n as int * self.lower_bits as int <= 0xFFFF * 16) by (nonlinear_arith)
                requires self.n <= 0xFFFF, self.lower_bits <= 16;
        }
        let heap = self.lower.len() + self.upper.len();
        let stack = core::mem::size_of::<EliasFano>();
        if stack <= usize::MAX - heap {
            stack + heap
        } else {
            usize::MAX
        }
    }

    /// Read a codec back from its on-disk form. Succeeds exactly on byte
    /// strings that start with the serialized form of some well-formed
    /// codec, and then returns that codec; anything else is a
    /// [`EfError::FormatError`].
    pub fn deserialize(bytes: &[u8]) -> (r: Result<EliasFano, EfError>)
        ensures
            match r {
                Ok(ef) => ef.wf() && is_encoding_prefix(ef, bytes@),
                Err(e) => {
                    &&& e == EfError::FormatError
                    &&& forall|ef: EliasFano| ef.wf() ==> !is_encoding_prefix(ef, bytes@)
                },
            },
    {
        if bytes.len() < 2 {
            proof {
                assert forall|ef: EliasFano| ef.wf() implies !is_encoding_prefix(ef, bytes@) by {
                    if is_encoding_prefix(ef, bytes@) {
                        lemma_serial_header(ef, bytes@);
                    }
                }
            }
            return Err(EfError::FormatError);
        }
        let n = read_u16_le(bytes, 0);
        if n == 0 {
            let ef = EliasFano {
                n: 0,
                max_value: 0,
                lower_bits: 0,
                lower: Vec::new(),
                upper: Vec::new(),
                values: Ghost(Seq::empty()),
            };
            proof {
                lemma_fundamental_div_mod_converse(
                    0,
                    256,
                    bytes@[1] as int,
                    bytes@[0] as int,
                );
                assert(ef.spec_serialized() =~= bytes@.take(2));
            }
            return Ok(ef);
        }
        if bytes.len() < 5 {
            proof {
                assert forall|ef: EliasFano| ef.wf() implies !is_encoding_prefix(ef, bytes@) by {
                    if is_encoding_prefix(ef, bytes@) {
                        lemma_serial_header(ef, bytes@);
                    }
                }
            }
            return Err(EfError::FormatError);
        }
        let max_value = read_u16_le(bytes, 2);
        let lower_bits = bytes[4];
        if lower_bits > 16 {
            proof {
                assert forall|ef: EliasFano| ef.wf() implies !is_encoding_prefix(ef, bytes@) by {
                    if is_encoding_prefix(ef, bytes@) {
                        lemma_serial_header(ef, bytes@);
                    }
                }
            }
            return Err(EfError::FormatError);
        }
        proof {
            lemma_high_le(max_value, lower_bits as nat);
            lemma_ceil8(n as int * lower_bits as int);
            lemma_ceil8(n as int + high_part(max_value, lower_bits as nat) + 1);
            assert(n as int * lower_bits as int <= 0xFFFF * 16) by (nonlinear_arith)
                requires n <= 0xFFFF, lower_bits <= 16;
        }
        let lower_len = (((n as u64) * (lower_bits as u64) + 7) / 8) as usize;
        let max_high: u64 = (max_value as u64) >> (lower_bits as u64);
        proof {
            lemma_u64_shr_is_div(max_value as u64, lower_bits as u64);
            lemma_pow2_pos(lower_bits as nat);
        }
        let upper_len = (((n as u64) + max_high + 1 + 7) / 8) as usize;
        if bytes.len() < 5 + lower_len || bytes.len() - 5 - lower_len < upper_len {
            proof {
                assert forall|ef: EliasFano| ef.wf() implies !is_encoding_prefix(ef, bytes@) by {
                    if is_encoding_prefix(ef, bytes@) {
                        lemma_serial_header(ef, bytes@);
                    }
                }
            }
            return Err(EfError::FormatError);
        }
        let lower = copy_range(bytes, 5, lower_len);
        let upper = copy_range(bytes, 5 + lower_len, upper_len);
        match decode_check(n, max_value, lower_bits, &lower, &upper) {
            Some(g) => {
                let ef = EliasFano {
                    n,
                    max_value,
                    lower_bits,
                    lower,
                    upper,
                    values: Ghost(g@),
                };
                proof {
                    lemma_fundamental_div_mod_converse(
                        n as int,
                        256,
                        bytes@[1] as int,
                        bytes@[0] as int,
                    );
                    lemma_fundamental_div_mod_converse(
                        max_value as int,
                        256,
                        bytes@[3] as int,
                        bytes@[2] as int,
                    );
                    assert(ef.spec_serialized() =~= bytes@.take(
                        ef.spec_serialized().len() as int,
                    ));
                }
                Ok(ef)
            },
            None => {
                proof {
                    assert forall|ef: EliasFano| ef.wf() implies !is_encoding_prefix(
                        ef,
                        bytes@,
                    ) by {
                        if is_encoding_prefix(ef, bytes@) {
                            lemma_serial_header(ef, bytes@);
                            assert(ef.lower@ == lower@);
                            assert(ef.upper@ == upper@);
                            assert(encoding_ok(n, max_value, lower_bits, lower@, upper@, ef@));
                        }
                    }
                }
                Err(EfError::FormatError)
            },
        }
    }
}

/// A well-formed codec's serialized header pins its fields, and the tail
/// pins its arrays.
proof fn lemma_serial_header(ef: EliasFano, b: Seq<u8>)
    requires
        ef.wf(),
        is_encoding_prefix(ef, b),
    ensures
        b.len() >= 2,
        le16_at(b, 0) == ef.n,
        ef.n >= 1 ==> {
            &&& b.len() >= 5 + ef.lower@.len() + ef.upper@.len()
            &&& ef.spec_serialized().len() == 5 + ef.lower@.len() + ef.upper@.len()
            &&& le16_at(b, 2) == ef.max_value
            &&& b[4] == ef.lower_bits
            &&& ef.lower@ == b.subrange(5, 5 + ef.lower@.len() as int)
            &&& ef.upper@ == b.subrange(
                5 + ef.lower@.len() as int,
                5 + ef.lower@.len() + ef.upper@.len() as int,
            )
        },
{
    let ser = ef.spec_serialized();
    assert(ser == b.take(ser.len() as int));
    assert(b[0] == ser[0] && b[1] == ser[1]);
    lemma_fundamental_div_mod(ef.n as int, 256);
    if ef.n >= 1 {
        assert(b[2] == ser[2] && b[3] == ser[3] && b[4] == ser[4]);
        lemma_fundamental_div_mod(ef.max_value as int, 256);
        assert(ef.lower@ =~= b.subrange(5, 5 + ef.lower@.len() as int)) by {
            assert forall|k: int| 0 <= k < ef.lower@.len() implies ef.lower@[k] == b[5 + k] by {
                assert(ser[5 + k] == ef.lower@[k]);
            }
        }
        assert(ef.upper@ =~= b.subrange(
            5 + ef.lower@.len() as int,
            5 + ef.lower@.len() + ef.upper@.len() as int,
        )) by {
            assert forall|k: int| 0 <= k < ef.upper@.len() implies ef.upper@[k] == b[5
                + ef.lower@.len() + k] by {
                assert(ser[5 + ef.lower@.len() + k] == ef.upper@[k]);
            }
        }
    }
}

/// Round-trip law: serialization is injective on well-formed codecs. Any
/// well-formed codec whose serialized form is what `a`'s serialized bytes
/// start with holds exactly `a`'s sequence. `deserialize` promises to return
/// a well-formed codec whose serialized form is such a prefix, so
/// `deserialize(serialize(a))` reconstructs `a`'s values, and iterating or
/// indexing the result yields them.
pub proof fn lemma_round_trip(a: EliasFano, b: EliasFano)
    requires
        a.wf(),
        b.wf(),
        is_encoding_prefix(b, a.spec_serialized()),
    ensures
        b@ == a@,
{
    let bytes = a.spec_serialized();
    assert(bytes.take(bytes.len() as int) =~= bytes);
    assert(is_encoding_prefix(a, bytes));
    lemma_serial_header(a, bytes);
    lemma_serial_header(b, bytes);
    assert(a.n == b.n);
    if a.n == 0 {
        assert(a@ =~= b@);
    } else {
        let wn = a.lower_bits as nat;
        assert(b.lower_bits == a.lower_bits && b.max_value == a.max_value);
        assert(a.lower@.len() == b.lower@.len() && a.upper@.len() == b.upper@.len());
        assert(a.lower@ == b.lower@ && a.upper@ == b.upper@);
        assert forall|j: int| 0 <= j < a@.len() implies a@[j] == b@[j] by {
            lemma_rank_at_elem(b.upper@, b@, wn, j);
            assert(packed(b.lower@, j * a.lower_bits as int, a.lower_bits as int) == low_part(
                b@[j],
                wn,
            ));
            lemma_built_elem_eq(
                a.n,
                a.max_value,
                a.lower_bits,
                a.lower@,
                a.upper@,
                a@,
                b@[j],
                j,
            );
        }
        assert(a@ =~= b@);
    }
}

/// An element whose bit, rank and remainder field all match `vs`'s encoding
/// is `vs`'s element.
proof fn lemma_built_elem_eq(
    n: u16,
    max_value: u16,
    w: u8,
    lo: Seq<u8>,
    up: Seq<u8>,
    vs: Seq<u16>,
    x: u16,
    j: int,
)
    requires
        encoding_ok(n, max_value, w, lo, up, vs),
        0 <= j < n as int,
        bit_at(up, high_part(x, w as nat) + j),
        ones_below(up, high_part(x, w as nat) + j) == j,
        packed(lo, j * w as int, w as int) == low_part(x, w as nat),
    ensures
        x == vs[j],
{
    let wn = w as nat;
    lemma_select1_unique(up, vs, wn, high_part(x, wn) + j, j);
    assert(high_part(x, wn) == high_part(vs[j], wn));
    assert(low_part(x, wn) == low_part(vs[j], wn));
    lemma_pow2_pos(wn);
    lemma_fundamental_div_mod(x as int, pow2(wn) as int);
    lemma_fundamental_div_mod(vs[j] as int, pow2(wn) as int);
}

/// Walk the upper bitvector once, recovering the encoded sequence and
/// checking it: exactly `n` set bits, values that fit `u16`, strictly
/// increasing, the last one `max_value`. Returns the sequence when the
/// arrays encode one, and `None` when no sequence fits them.
fn decode_check(n: u16, max_value: u16, lower_bits: u8, lower: &Vec<u8>, upper: &Vec<u8>) -> (r:
    Option<Ghost<Seq<u16>>>)
    requires
        n >= 1,
        lower_bits <= 16,
        lower@.len() == (n as int * lower_bits as int + 7) / 8,
        upper@.len() == (n as int + high_part(max_value, lower_bits as nat) + 1 + 7) / 8,
    ensures
        match r {
            Some(g) => encoding_ok(n, max_value, lower_bits, lower@, upper@, g@),
            None => forall|vs: Seq<u16>|
                !encoding_ok(n, max_value, lower_bits, lower@, upper@, vs),
        },
{
    let w = lower_bits;
    let ghost wn = w as nat;
    let ghost lo = lower@;
    let ghost up = upper@;
    proof {
        lemma_high_le(max_value, wn);
        lemma_ceil8(n as int + high_part(max_value, wn) + 1);
        lemma_ceil8(n as int * w as int);
        assert(n as int * w as int <= 0xFFFF * 16) by (nonlinear_arith)
            requires n <= 0xFFFF, w <= 16;
        lemma_pow2_pos(wn);
        lemma2_to64();
        lemma_max_high_of_width(w);
    }
    let total_bits: u32 = 8 * (upper.len() as u32);
    let max_high: u32 = 0xFFFFu32 >> (w as u32);
    let mut pos: u32 = 0;
    let mut index: u32 = 0;
    let mut prev: u16 = 0;
    let ghost mut built: Seq<u16> = Seq::empty();
    while pos < total_bits
        invariant
            n >= 1,
            w <= 16,
            wn == w as nat,
            lo == lower@,
            up == upper@,
            lower@.len() == (n as int * lower_bits as int + 7) / 8,
            upper@.len() == (n as int + high_part(max_value, wn) + 1 + 7) / 8,
            w == lower_bits,
            n as int * w as int <= 8 * lower@.len(),
            total_bits == 8 * up.len(),
            total_bits <= 0x40000,
            max_high as int == high_part(0xFFFF, wn),
            pos <= total_bits,
            index <= n,
            built.len() == index as int,
            ones_below(up, pos as int) == index as int,
            forall|j: int|
                0 <= j < index as int ==> {
                    &&& bit_at(up, high_part(#[trigger] built[j], wn) + j)
                    &&& ones_below(up, high_part(built[j], wn) + j) == j
                    &&& high_part(built[j], wn) + j < pos as int
                },
            forall|j: int|
                0 <= j < index as int ==> packed(lo, j * w as int, w as int) == low_part(
                    #[trigger] built[j],
                    wn,
                ),
            forall|j: int| 1 <= j < index as int ==> #[trigger] built[j - 1] < built[j],
            index >= 1 ==> prev == built[index as int - 1],
            forall|q: int|
                0 <= q < pos as int && #[trigger] bit_at(up, q) ==> exists|j: int|
                    0 <= j < index as int && q == high_part(built[j], wn) + j,
        decreases total_bits - pos,
    {
        let byte_idx = (pos / 8) as usize;
        let bit_idx = (pos % 8) as u8;
        proof {
            let glen = up.len() as int;
            assert(pos as int / 8 < glen) by (nonlinear_arith)
                requires pos < 8 * glen;
        }
        let b = upper[byte_idx];
        let bit = (b >> bit_idx) & 1;
        proof {
            assert((b >> bit_idx) & 1 == 0 || (b >> bit_idx) & 1 == 1) by (bit_vector);
            assert((bit == 1) == bit_at(up, pos as int));
        }
        if bit == 1 {
            if index >= n as u32 {
                proof {
                    if exists|vs: Seq<u16>|
                        encoding_ok(n, max_value, lower_bits, lower@, upper@, vs) {
                        let vs0 = choose|vs: Seq<u16>|
                            encoding_ok(n, max_value, lower_bits, lower@, upper@, vs);
                        let i0 = choose|i: int|
                            0 <= i < vs0.len() && pos as int == #[trigger] upper_pos(vs0, wn, i);
                        lemma_rank_at_elem(up, vs0, wn, i0);
                        assert(false);
                    }
                }
                return None;
            }
            proof {
                lemma_ones_below_mono(up, 0, pos as int);
            }
            let zeros = pos - index;
            if zeros > max_high {
                proof {
                    if exists|vs: Seq<u16>|
                        encoding_ok(n, max_value, lower_bits, lower@, upper@, vs) {
                        let vs0 = choose|vs: Seq<u16>|
                            encoding_ok(n, max_value, lower_bits, lower@, upper@, vs);
                        lemma_select1_unique(up, vs0, wn, pos as int, index as int);
                        lemma_pow2_pos(wn);
                        lemma_div_is_ordered(vs0[index as int] as int, 0xFFFF, pow2(wn) as int);
                        assert(false);
                    }
                }
                return None;
            }
            proof {
                assert((index as int + 1) * w as int <= n as int * w as int) by {
                    lemma_mul_inequality(index as int + 1, n as int, w as int);
                }
                assert(index as int * w as int <= n as int * w as int) by {
                    lemma_mul_inequality(index as int, n as int, w as int);
                }
                assert(index as int * w as int + w == (index as int + 1) * w as int)
                    by (nonlinear_arith);
                assert(n as int * w as int <= 0xFFFF * 16) by (nonlinear_arith)
                    requires n <= 0xFFFF, w <= 16;
            }
            let low = get_bits_u8(lower.as_slice(), (index as u64) * (w as u64), w);
            proof {
                lemma_all_ones_split(wn);
                assert(max_high as int * pow2(wn) as int + (pow2(wn) - 1) == 0xFFFF);
                assert(zeros * pow2(wn) as int <= max_high as int * pow2(wn) as int) by {
                    lemma_mul_inequality(zeros as int, max_high as int, pow2(wn) as int);
                }
                lemma_pow2_strictly_increases(wn, 32);
                lemma_u32_shl_is_mul(zeros, w as u32);
                lemma_u32_shl_is_mul(1u32, w as u32);
            }
            let val32 = (zeros << (w as u32)) | low;
            proof {
                let wu = w as u32;
                assert(((zeros << wu) | low) == (zeros << wu) + low) by (bit_vector)
                    requires low < (1u32 << wu), wu < 32;
                assert(val32 as int == zeros as int * pow2(wn) as int + low as int);
                assert(val32 <= 0xFFFF);
            }
            let val = val32 as u16;
            proof {
                lemma_fundamental_div_mod_converse(
                    val as int,
                    pow2(wn) as int,
                    zeros as int,
                    low as int,
                );
                assert(high_part(val, wn) == zeros as int);
                assert(low_part(val, wn) == low as nat);
            }
            if index > 0 && val <= prev {
                proof {
                    if exists|vs: Seq<u16>|
                        encoding_ok(n, max_value, lower_bits, lower@, upper@, vs) {
                        let vs0 = choose|vs: Seq<u16>|
                            encoding_ok(n, max_value, lower_bits, lower@, upper@, vs);
                        lemma_built_elem_eq(
                            n,
                            max_value,
                            lower_bits,
                            lo,
                            up,
                            vs0,
                            val,
                            index as int,
                        );
                        lemma_built_elem_eq(
                            n,
                            max_value,
                            lower_bits,
                            lo,
                            up,
                            vs0,
                            prev,
                            index as int - 1,
                        );
                        assert(vs0[index as int - 1] < vs0[index as int]);
                        assert(false);
                    }
                }
                return None;
            }
            let ghost old_built = built;
            proof {
                built = built.push(val);
                assert(built[index as int] == val);
                assert forall|j: int| 0 <= j < index as int implies built[j] == old_built[j] by {}
            }
            prev = val;
            index = index + 1;
            proof {
                assert forall|q: int|
                    0 <= q < pos as int + 1 && #[trigger] bit_at(up, q) implies exists|j: int|
                    0 <= j < index as int && q == high_part(built[j], wn) + j by {
                    if q == pos as int {
                        assert(q == high_part(built[index as int - 1], wn) + (index as int - 1));
                    } else {
                        let j = choose|j: int|
                            0 <= j < index as int - 1 && q == high_part(old_built[j], wn) + j;
                        assert(built[j] == old_built[j]);
                        assert(q == high_part(built[j], wn) + j);
                    }
                }
            }
        }
        pos = pos + 1;
    }
    if index < n as u32 {
        proof {
            if exists|vs: Seq<u16>| encoding_ok(n, max_value, lower_bits, lower@, upper@, vs) {
                let vs0 = choose|vs: Seq<u16>|
                    encoding_ok(n, max_value, lower_bits, lower@, upper@, vs);
                lemma_total_ones(up, vs0, wn);
                assert(false);
            }
        }
        return None;
    }
    if prev != max_value {
        proof {
            if exists|vs: Seq<u16>| encoding_ok(n, max_value, lower_bits, lower@, upper@, vs) {
                let vs0 = choose|vs: Seq<u16>|
                    encoding_ok(n, max_value, lower_bits, lower@, upper@, vs);
                lemma_built_elem_eq(
                    n,
                    max_value,
                    lower_bits,
                    lo,
                    up,
                    vs0,
                    prev,
                    n as int - 1,
                );
                assert(false);
            }
        }
        return None;
    }
    proof {
        assert forall|j: int| 1 <= j < built.len() implies #[trigger] built[j - 1] < built[j] by {}
        lemma_sorted_from_adjacent(built);
        assert(upper_bits_match(up, built, wn)) by {
            assert forall|p: int| (#[trigger] bit_at(up, p)) implies (exists|i: int|
                0 <= i < built.len() && p == #[trigger] upper_pos(built, wn, i)) by {
                let j = choose|j: int|
                    0 <= j < index as int && p == high_part(built[j], wn) + j;
                assert(p == upper_pos(built, wn, j));
            }
            assert forall|i: int| 0 <= i < built.len() implies bit_at(
                up,
                upper_pos(built, wn, i),
            ) by {
                assert(bit_at(up, high_part(built[i], wn) + i));
            }
        }
        assert(encoding_ok(n, max_value, lower_bits, lower@, upper@, built));
    }
    Some(Ghost(built))
}

/// For widths up to 16, shifting `0xFFFF` right matches its high part.
proof fn lemma_max_high_of_width(w: u8)
    requires
        w <= 16,
    ensures
        (0xFFFFu32 >> (w as u32)) as int == high_part(0xFFFF, w as nat),
{
    lemma_u32_shr_is_div(0xFFFF, w as u32);
}

/// Splitting the all-ones `u16` at width `w`: quotient times divisor plus
/// the low-bits mask gives it back.
proof fn lemma_all_ones_split(wn: nat)
    requires
        wn <= 16,
    ensures
        high_part(0xFFFF, wn) * pow2(wn) as int + (pow2(wn) - 1) == 0xFFFF,
        (pow2(wn) as int) <= 0x10000,
{
    lemma_pow2_pos(wn);
    lemma_pow2_pos((16 - wn) as nat);
    vstd::arithmetic::power2::lemma_pow2_adds(wn, (16 - wn) as nat);
    lemma2_to64();
    let a = pow2(wn) as int;
    let b = pow2((16 - wn) as nat) as int;
    assert((b - 1) * a + (a - 1) == 0xFFFF) by (nonlinear_arith)
        requires a * b == 0x10000, a >= 1;
    lemma_fundamental_div_mod_converse(0xFFFF, a, b - 1, a - 1);
}

/// Single forward pass over the encoding, yielding the values in order.
/// Counts clear bits seen so far as the running high part; each set bit
/// yields one value combining that high part with the next remainder field.
pub struct EliasFanoIterator<'a> {
    ef: &'a EliasFano,
    index: u16,
    upper_bit_pos: u32,
    zeros_seen: u32,
}

impl<'a> EliasFanoIterator<'a> {
    /// The codec being walked.
    pub closed spec fn src(self) -> EliasFano {
        *self.ef
    }

    /// How many values were yielded so far.
    pub closed spec fn emitted(self) -> int {
        self.index as int
    }

    /// The cursor state is consistent with the encoding.
    pub closed spec fn inv(self) -> bool {
        &&& self.ef.wf()
        &&& self.index <= self.ef.n
        &&& self.upper_bit_pos as int <= 8 * self.ef.upper@.len()
        &&& ones_below(self.ef.upper@, self.upper_bit_pos as int) == self.index as int
        &&& self.zeros_seen == self.upper_bit_pos - self.index
        &&& (self.index as int) < self.ef.n as int ==> self.upper_bit_pos as int <= upper_pos(
            self.ef@,
            self.ef.lower_bits as nat,
            self.index as int,
        )
    }

    /// The next value of the sequence, or `None` once all were yielded.
    pub fn next(&mut self) -> (r: Option<u16>)
        requires
            old(self).inv(),
        ensures
            final(self).inv(),
            final(self).src() == old(self).src(),
            match r {
                Some(v) => {
                    &&& old(self).emitted() < old(self).src()@.len()
                    &&& v == old(self).src()@[old(self).emitted()]
                    &&& final(self).emitted() == old(self).emitted() + 1
                },
                None => {
                    &&& old(self).emitted() == old(self).src()@.len()
                    &&& final(self).emitted() == old(self).emitted()
                },
            },
    {
        if self.index >= self.ef.n {
            return None;
        }
        let ghost up = self.ef.upper@;
        let ghost w = self.ef.lower_bits as nat;
        let ghost target = upper_pos(self.ef@, w, self.index as int);
        proof {
            lemma_rank_at_elem(up, self.ef@, w, self.index as int);
            self.ef.lemma_upper_len();
        }
        loop
            invariant
                self.ef.wf(),
                self.ef == old(self).ef,
                self.index == old(self).index,
                (self.index as int) < self.ef.n as int,
                up == self.ef.upper@,
                w == self.ef.lower_bits as nat,
                target == upper_pos(self.ef@, w, self.index as int),
                0 <= target < 8 * up.len(),
                8 * up.len() < u32::MAX,
                bit_at(up, target),
                ones_below(up, target) == self.index as int,
                self.upper_bit_pos as int <= target,
                ones_below(up, self.upper_bit_pos as int) == self.index as int,
                self.zeros_seen == self.upper_bit_pos - self.index,
            decreases target - self.upper_bit_pos,
        {
            let byte_idx = (self.upper_bit_pos / 8) as usize;
            let bit_idx = (self.upper_bit_pos % 8) as u8;
            proof {
                let glen = up.len() as int;
                assert(self.upper_bit_pos as int / 8 < glen) by (nonlinear_arith)
                    requires self.upper_bit_pos < 8 * glen;
            }
            if byte_idx >= self.ef.upper.len() {
                proof {
                    assert(false);
                }
                return None;
            }
            let b = self.ef.upper[byte_idx];
            let bit = (b >> bit_idx) & 1;
            let ghost p = self.upper_bit_pos as int;
            proof {
                assert((b >> bit_idx) & 1 == 0 || (b >> bit_idx) & 1 == 1) by (bit_vector);
                assert((bit == 1) == bit_at(up, p));
            }
            self.upper_bit_pos = self.upper_bit_pos + 1;
            if bit == 0 {
                proof {
                    if p == target {
                        assert(bit_at(up, target));
                        assert(false);
                    }
                }
                self.zeros_seen = self.zeros_seen + 1;
            } else {
                proof {
                    lemma_select1_unique(up, self.ef@, w, p, self.index as int);
                    assert(p == target);
                    assert(self.zeros_seen as int == high_part(
                        self.ef@[self.index as int],
                        w,
                    ));
                }
                let high = self.zeros_seen;
                let low = self.ef.get_lower(self.index);
                let value = combine_parts(
                    high,
                    low,
                    self.ef.lower_bits,
                    Ghost(self.ef@[self.index as int]),
                );
                proof {
                    if (self.index as int) + 1 < self.ef.n as int {
                        lemma_upper_pos_increases(
                            self.ef@,
                            w,
                            self.index as int,
                            self.index as int + 1,
                        );
                    }
                }
                self.index = self.index + 1;
                return Some(value);
            }
        }
    }

    /// Lower and upper bound on the number of values still to come.
    pub fn size_hint(&self) -> (r: (usize, Option<usize>))
        requires
            self.inv(),
        ensures
            r.0 == self.src()@.len() - self.emitted(),
            r.1 == Some(r.0),
    {
        let remaining = (self.ef.n - self.index) as usize;
        (remaining, Some(remaining))
    }
}

/// Floor of the base-2 logarithm: the unique `r` with `2^r <= q < 2^(r+1)`.
fn ilog2_u32(q: u32) -> (r: u8)
    requires
        q >= 1,
    ensures
        r <= 31,
        pow2(r as nat) <= q,
        (q as nat) < pow2(r as nat + 1),
{
    let mut w: u8 = 0;
    let mut p: u32 = 1;
    proof {
        lemma2_to64();
    }
    while q / 2 >= p
        invariant
            q >= 1,
            w <= 31,
            p == pow2(w as nat),
            p <= q,
        decreases q - p,
    {
        proof {
            lemma_pow2_unfold(w as nat + 1);
            lemma2_to64();
            if w as nat + 1 >= 32 {
                lemma_pow2_strictly_increases(31, w as nat);
            }
            assert(q / 2 >= p ==> q >= 2 * p) by {
                lemma_fundamental_div_mod(q as int, 2);
            }
        }
        p = p * 2;
        w = w + 1;
    }
    proof {
        lemma_pow2_unfold(w as nat + 1);
        assert(q < 2 * p) by {
            lemma_fundamental_div_mod(q as int, 2);
        }
    }
    w
}

/// Packed array of `values.len()` fixed-width fields, one per element, each
/// holding the element's low `lower_bits` bits, in original order.
fn build_lower(values: &[u16], lower_bits: u8) -> (r: Vec<u8>)
    requires
        1 <= values@.len() <= 0xFFFF,
        lower_bits <= 16,
    ensures
        r@.len() == (values@.len() * lower_bits as int + 7) / 8,
        forall|i: int|
            0 <= i < values@.len() ==> packed(r@, i * lower_bits as int, lower_bits as int)
                == low_part(values@[i], lower_bits as nat),
{
    let n = values.len();
    let w = lower_bits;
    if w == 0 {
        proof {
            lemma2_to64();
            assert forall|i: int| 0 <= i < values@.len() implies packed(
                Seq::<u8>::empty(),
                i * 0,
                0,
            ) == low_part(values@[i], 0) by {
                assert(low_part(values@[i], 0) == values@[i] as nat % 1);
            }
        }
        return Vec::new();
    }
    proof {
        assert(n as int * w as int <= 0xFFFF * 16) by (nonlinear_arith)
            requires n <= 0xFFFF, w <= 16;
    }
    let total_bits: u64 = (n as u64) * (w as u64);
    let num_bytes = ((total_bits + 7) / 8) as usize;
    let mut lower = zero_vec(num_bytes);
    proof {
        lemma_ceil8(total_bits as int);
    }
    let mut i: usize = 0;
    while i < n
        invariant
            i <= n,
            n == values@.len(),
            1 <= n <= 0xFFFF,
            1 <= w <= 16,
            total_bits == n * w,
            lower@.len() == num_bytes,
            num_bytes == (total_bits as int + 7) / 8,
            total_bits <= 8 * lower@.len(),
            forall|k: int|
                0 <= k < i ==> packed(lower@, k * w as int, w as int) == low_part(
                    values@[k],
                    w as nat,
                ),
            forall|q: int| i * w as int <= q ==> !bit_at(lower@, q),
        decreases n - i,
    {
        let ghost prev = lower@;
        proof {
            assert((i + 1) * w as int <= n * w as int) by {
                lemma_mul_inequality(i + 1, n as int, w as int);
            }
            assert(i * w as int <= n * w as int) by {
                lemma_mul_inequality(i as int, n as int, w as int);
            }
            assert(i * w as int + w == (i + 1) * w as int) by (nonlinear_arith);
        }
        let bit_pos: u64 = (i as u64) * (w as u64);
        set_bits_u8(&mut lower, bit_pos, values[i] as u32, w);
        proof {
            assert forall|k: int| 0 <= k < i + 1 implies packed(lower@, k * w as int, w as int)
                == low_part(values@[k], w as nat) by {
                if k < i {
                    assert(packed(prev, k * w as int, w as int) == low_part(
                        values@[k],
                        w as nat,
                    ));
                    assert((k + 1) * w as int <= i * w as int) by {
                        lemma_mul_inequality(k + 1, i as int, w as int);
                    }
                    assert(k * w as int + w == (k + 1) * w as int) by (nonlinear_arith);
                    lemma_packed_agree(prev, lower@, k * w as int, w as int);
                } else {
                    assert(packed(lower@, i * w as int, w as int) == values@[i as int] as nat
                        % pow2(w as nat));
                }
            }
        }
        i = i + 1;
    }
    lower
}

/// Bitvector of `n + high(max) + 1` bits; element `i` with high part `h`
/// sets the bit at position `h + i`.
fn build_upper(values: &[u16], lower_bits: u8) -> (r: Vec<u8>)
    requires
        1 <= values@.len() <= 0xFFFF,
        lower_bits <= 16,
        strictly_sorted(values@),
    ensures
        r@.len() == (values@.len() + high_part(values@.last(), lower_bits as nat) + 1 + 7) / 8,
        upper_bits_match(r@, values@, lower_bits as nat),
{
    let n = values.len();
    let w = lower_bits;
    let max_upper: u64 = (values[n - 1] as u64) >> (w as u64);
    proof {
        lemma_u64_shr_is_div(values@[n as int - 1] as u64, w as u64);
        lemma_pow2_pos(w as nat);
    }
    let total_bits: u64 = (n as u64) + max_upper + 1;
    let num_bytes = ((total_bits + 7) / 8) as usize;
    let mut upper = zero_vec(num_bytes);
    proof {
        lemma_ceil8(total_bits as int);
    }
    let mut i: usize = 0;
    while i < n
        invariant
            i <= n,
            n == values@.len(),
            1 <= n <= 0xFFFF,
            w <= 16,
            strictly_sorted(values@),
            max_upper == high_part(values@[n as int - 1], w as nat),
            total_bits == n + max_upper + 1,
            upper@.len() == num_bytes,
            total_bits <= 8 * upper@.len(),
            forall|p: int|
                (#[trigger] bit_at(upper@, p)) <==> (exists|j: int|
                    0 <= j < i && p == #[trigger] upper_pos(values@, w as nat, j)),
        decreases n - i,
    {
        let ghost prev = upper@;
        let high: u64 = (values[i] as u64) >> (w as u64);
        proof {
            lemma_u64_shr_is_div(values@[i as int] as u64, w as u64);
            lemma_pow2_pos(w as nat);
            if (i as int) < n as int - 1 {
                lemma_div_is_ordered(
                    values@[i as int] as int,
                    values@[n as int - 1] as int,
                    pow2(w as nat) as int,
                );
            }
        }
        let pos: u64 = high + (i as u64);
        set_bit(&mut upper, pos);
        proof {
            assert(pos as int == upper_pos(values@, w as nat, i as int));
            assert forall|p: int| (#[trigger] bit_at(upper@, p)) implies (exists|j: int|
                0 <= j < i + 1 && p == #[trigger] upper_pos(values@, w as nat, j)) by {
                if p == pos as int {
                    assert(0 <= (i as int) < i + 1 && p == upper_pos(values@, w as nat, i as int));
                } else {
                    assert(bit_at(prev, p));
                }
            }
            assert forall|j: int| 0 <= j < i + 1 implies bit_at(
                upper@,
                upper_pos(values@, w as nat, j),
            ) by {
                if j < i {
                    assert(bit_at(prev, upper_pos(values@, w as nat, j)));
                }
            }
        }
        i = i + 1;
    }
    upper
}

} // verus!
