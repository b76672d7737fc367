//! The values of Laplacian entries travel as the bit patterns of IEEE-754 binary64 numbers
//! (what `f64::to_bits` gives). The library moves, compares for identity and stores these
//! patterns; arithmetic on them is left to the caller. This module fixes the few patterns the
//! library writes itself.
use vstd::prelude::*;
use vstd::arithmetic::power2::{pow2, lemma_pow2_unfold, lemma_pow2_adds, lemma_pow2_strictly_increases, lemma2_to64, lemma_pow2_pos};

verus! {

/// The bit pattern of `+0.0`.
pub const ZERO_BITS: u64 = 0;

/// The bit pattern of `-1.0`: sign 1, biased exponent 1023, fraction 0.
pub const NEG_ONE_BITS: u64 = 0xBFF0_0000_0000_0000;

/// Counts below this bound (2^53) convert to binary64 exactly.
pub const EXACT_COUNT_LIMIT: u64 = 0x20_0000_0000_0000;

/// The exponent of the highest set bit of `d` (`0` for `d < 2`).
pub open spec fn floor_log2(d: nat) -> nat
    decreases d,
{
    if d < 2 {
        0
    } else {
        1 + floor_log2(d / 2)
    }
}

/// The binary64 bit pattern of the integer `d`, for `0 <= d < 2^53` where the conversion
/// `d as f64` is exact: zero is all zero bits; otherwise the sign is 0, the biased exponent is
/// `1023 + e` with `2^e <= d < 2^(e+1)`, and the 52-bit fraction is `(d - 2^e) * 2^(52 - e)`.
pub open spec fn count_bits(d: nat) -> nat {
    if d == 0 {
        0
    } else {
        let e = floor_log2(d);
        ((1023 + e) * pow2(52) + (d - pow2(e)) * pow2((52 - e) as nat)) as nat
    }
}

proof fn lemma_floor_log2(d: nat, e: nat)
    requires
        pow2(e) <= d < pow2(e + 1),
    ensures
        floor_log2(d) == e,
    decreases e,
{
    lemma_pow2_unfold(e + 1);
    if e == 0 {
        lemma2_to64();
    } else {
        lemma_pow2_unfold(e);
        lemma2_to64();
        lemma_floor_log2(d / 2, (e - 1) as nat);
    }
}

proof fn lemma_pow2_52_53()
    ensures
        pow2(52) == 0x10_0000_0000_0000,
        pow2(53) == 0x20_0000_0000_0000,
{
    lemma2_to64();
    lemma_pow2_adds(32, 20);
    lemma_pow2_adds(32, 21);
    assert(pow2(20) == 0x10_0000) by {
        lemma_pow2_adds(16, 4);
    }
    assert(pow2(21) == 0x20_0000) by {
        lemma_pow2_adds(16, 5);
    }
}

/// The binary64 bit pattern of the count `d`, as `(d as f64).to_bits()` gives it.
pub fn count_to_bits(d: usize) -> (bits: u64)
    requires
        d < EXACT_COUNT_LIMIT,
    ensures
        bits as nat == count_bits(d as nat),
{
    if d == 0 {
        return 0;
    }
    proof {
        lemma_pow2_52_53();
        lemma2_to64();
    }
    let dd: u64 = d as u64;
    let mut e: u64 = 0;
    let mut p: u64 = 1;
    while p <= dd / 2
        invariant
            1 <= p <= dd,
            dd < 0x20_0000_0000_0000,
            p as nat == pow2(e as nat),
            e <= 52,
            pow2(53) == 0x20_0000_0000_0000,
        decreases dd - p,
    {
        proof {
            lemma_pow2_unfold((e + 1) as nat);
            if e + 1 > 52 {
                if e + 1 > 53 {
                    lemma_pow2_strictly_increases(53, (e + 1) as nat);
                }
            }
        }
        p = p * 2;
        e = e + 1;
    }
    proof {
        lemma_pow2_unfold((e + 1) as nat);
        lemma_floor_log2(dd as nat, e as nat);
    }
    let mut scale: u64 = 1;
    let mut k: u64 = e;
    while k < 52
        invariant
            e <= k <= 52,
            scale as nat == pow2((k - e) as nat),
            pow2(52) == 0x10_0000_0000_0000,
        decreases 52 - k,
    {
        proof {
            lemma_pow2_unfold((k + 1 - e) as nat);
            if k + 1 - e < 52 {
                lemma_pow2_strictly_increases((k + 1 - e) as nat, 52);
            }
        }
        scale = scale * 2;
        k = k + 1;
    }
    proof {
        lemma_pow2_adds(e as nat, (52 - e) as nat);
        assert((dd - p) * scale < 0x10_0000_0000_0000) by (nonlinear_arith)
            requires
                dd - p < p,
                p * scale == 0x10_0000_0000_0000,
        ;
    }
    (1023 + e) * 0x10_0000_0000_0000 + (dd - p) * scale
}

proof fn lemma_floor_log2_bounds(d: nat)
    requires
        d >= 1,
    ensures
        pow2(floor_log2(d)) <= d < pow2(floor_log2(d) + 1),
    decreases d,
{
    if d < 2 {
        lemma2_to64();
    } else {
        lemma_floor_log2_bounds(d / 2);
        let e = floor_log2(d / 2);
        lemma_pow2_unfold(e + 1);
        lemma_pow2_unfold(e + 2);
    }
}

/// A positive count below 2^53 has a non-zero bit pattern that fits in 64 bits.
pub proof fn lemma_count_bits_nonzero(d: nat)
    requires
        0 < d < EXACT_COUNT_LIMIT,
    ensures
        0 < count_bits(d) < 0x1_0000_0000_0000_0000,
{
    lemma_pow2_52_53();
    lemma_floor_log2_bounds(d);
    let e = floor_log2(d);
    if e > 52 {
        if e > 53 {
            lemma_pow2_strictly_increases(53, e);
        }
    }
    lemma_pow2_adds(e, (52 - e) as nat);
    lemma_pow2_unfold(e + 1);
    let p = pow2(e);
    let q = pow2((52 - e) as nat);
    assert((d - p) * q < 0x10_0000_0000_0000) by (nonlinear_arith)
        requires
            0 <= d - p < p,
            p * q == 0x10_0000_0000_0000,
    ;
    assert(0 <= (d - p) * q) by (nonlinear_arith)
        requires
            0 <= d - p,
            0 <= q,
    ;
}

/// The pattern of a positive count below 2^53 denotes that count: its sign bit is clear, its
/// biased exponent `E` is at least 1023, and with the 52-bit fraction `F` the binary64 value
/// `(2^52 + F) * 2^(E - 1023) / 2^52` equals `d`.
pub proof fn lemma_count_bits_value(d: nat)
    requires
        0 < d < EXACT_COUNT_LIMIT,
    ensures
        ({
            let bits = count_bits(d);
            let e_field = bits / pow2(52);
            let f_field = bits % pow2(52);
            &&& bits < pow2(63)
            &&& 1023 <= e_field <= 1023 + 52
            &&& (pow2(52) + f_field) * pow2((e_field - 1023) as nat) == d * pow2(52)
        }),
{
    lemma_pow2_52_53();
    lemma_floor_log2_bounds(d);
    let e = floor_log2(d);
    if e > 52 {
        if e > 53 {
            lemma_pow2_strictly_increases(53, e);
        }
    }
    lemma_pow2_adds(e, (52 - e) as nat);
    lemma_pow2_unfold(e + 1);
    let p = pow2(e);
    let q = pow2((52 - e) as nat);
    let big = pow2(52);
    let f = (d - p) * q;
    lemma_pow2_pos((52 - e) as nat);
    assert(f < big) by (nonlinear_arith)
        requires
            f == (d - p) * q,
            0 <= d - p < p,
            q > 0,
            p * q == big,
    ;
    assert(0 <= f) by (nonlinear_arith)
        requires
            f == (d - p) * q,
            0 <= d - p,
            0 <= q,
    ;
    let bits = (1023 + e) * big + f;
    assert(count_bits(d) == bits);
    let bigi = big as int;
    assert(bits / bigi == 1023 + e && bits % bigi == f) by (nonlinear_arith)
        requires
            bits == (1023 + e) * bigi + f,
            0 <= f < bigi,
            bigi > 0,
    ;
    assert((big + f) * p == d * big) by (nonlinear_arith)
        requires
            f == (d - p) * q,
            p * q == big,
    ;
    assert(pow2(63) == 0x8000_0000_0000_0000) by {
        lemma2_to64();
        lemma_pow2_adds(32, 31);
        lemma_pow2_adds(16, 15);
    }
    assert(bits < pow2(63)) by (nonlinear_arith)
        requires
            bits == (1023 + e) * big + f,
            f < big,
            e <= 52,
            big == 0x10_0000_0000_0000,
            pow2(63) == 0x8000_0000_0000_0000,
    ;
}

} // verus!
