//! Saturating integer arithmetic on `i64`.
use vstd::prelude::*;

verus! {

/// `x` clamped to the range of `i64`.
pub open spec fn clamp64(x: int) -> int {
    if x > i64::MAX {
        i64::MAX as int
    } else if x < i64::MIN {
        i64::MIN as int
    } else {
        x
    }
}

/// `a + b`, saturating at the bounds of `i64` (as `i64::saturating_add`).
pub fn sat_add(a: i64, b: i64) -> (r: i64)
    ensures
        r == clamp64(a + b),
{
    if b >= 0 {
        if a > i64::MAX - b {
            i64::MAX
        } else {
            a + b
        }
    } else {
        if a < i64::MIN - b {
            i64::MIN
        } else {
            a + b
        }
    }
}

/// `a - b`, saturating at the bounds of `i64` (as `i64::saturating_sub`).
pub fn sat_sub(a: i64, b: i64) -> (r: i64)
    ensures
        r == clamp64(a - b),
{
    if b >= 0 {
        if a < i64::MIN + b {
            i64::MIN
        } else {
            a - b
        }
    } else {
        if a > i64::MAX + b {
            i64::MAX
        } else {
            a - b
        }
    }
}

/// `2 * a`, saturating at the bounds of `i64` (as `a.saturating_mul(2)`).
pub fn sat_double(a: i64) -> (r: i64)
    ensures
        r == clamp64(2 * a),
{
    sat_add(a, a)
}

/// `a * b` for non-negative `a` and `b`, saturating at `i64::MAX` (as
/// `i64::saturating_mul` on such arguments).
pub fn sat_mul_nonneg(a: i64, b: i64) -> (r: i64)
    requires
        a >= 0,
        b >= 0,
    ensures
        r == if a * b > i64::MAX {
            i64::MAX as int
        } else {
            a * b
        },
{
    if a == 0 || b <= i64::MAX / a {
        proof {
            if a > 0 {
                assert(a * b <= a * (i64::MAX / a)) by (nonlinear_arith)
                    requires
                        a > 0,
                        b <= i64::MAX / a,
                ;
                assert(a * (i64::MAX / a) <= i64::MAX) by (nonlinear_arith)
                    requires
                        a > 0,
                ;
            }
        }
        a * b
    } else {
        proof {
            assert(a * b > i64::MAX) by (nonlinear_arith)
                requires
                    a > 0,
                    b > i64::MAX / a,
            ;
        }
        i64::MAX
    }
}

/// `⌈e^k⌉` for `k` in `1..=44` (0 elsewhere): an integer `x` satisfies
/// `x ≥ exp_ceil(k)` exactly when `ln x ≥ k`.
pub open spec fn exp_ceil(k: int) -> int {
    if k == 1 {
        3
    } else if k == 2 {
        8
    } else if k == 3 {
        21
    } else if k == 4 {
        55
    } else if k == 5 {
        149
    } else if k == 6 {
        404
    } else if k == 7 {
        1097
    } else if k == 8 {
        2981
    } else if k == 9 {
        8104
    } else if k == 10 {
        22027
    } else if k == 11 {
        59875
    } else if k == 12 {
        162755
    } else if k == 13 {
        442414
    } else if k == 14 {
        1202605
    } else if k == 15 {
        3269018
    } else if k == 16 {
        8886111
    } else if k == 17 {
        24154953
    } else if k == 18 {
        65659970
    } else if k == 19 {
        178482301
    } else if k == 20 {
        485165196
    } else if k == 21 {
        1318815735
    } else if k == 22 {
        3584912847
    } else if k == 23 {
        9744803447
    } else if k == 24 {
        26489122130
    } else if k == 25 {
        72004899338
    } else if k == 26 {
        195729609429
    } else if k == 27 {
        532048240602
    } else if k == 28 {
        1446257064292
    } else if k == 29 {
        3931334297145
    } else if k == 30 {
        10686474581525
    } else if k == 31 {
        29048849665248
    } else if k == 32 {
        78962960182681
    } else if k == 33 {
        214643579785917
    } else if k == 34 {
        583461742527455
    } else if k == 35 {
        1586013452313431
    } else if k == 36 {
        4311231547115196
    } else if k == 37 {
        11719142372802612
    } else if k == 38 {
        31855931757113757
    } else if k == 39 {
        86593400423993747
    } else if k == 40 {
        235385266837019986
    } else if k == 41 {
        639843493530054950
    } else if k == 42 {
        1739274941520501048
    } else if k == 43 {
        4727839468229346562
    } else if k == 44 {
        12851600114359308276
    } else {
        0
    }
}

fn exp_ceil_at(k: u32) -> (t: u64)
    requires
        1 <= k <= 44,
    ensures
        t == exp_ceil(k as int),
{
    match k {
        1 => 3u64,
        2 => 8u64,
        3 => 21u64,
        4 => 55u64,
        5 => 149u64,
        6 => 404u64,
        7 => 1097u64,
        8 => 2981u64,
        9 => 8104u64,
        10 => 22027u64,
        11 => 59875u64,
        12 => 162755u64,
        13 => 442414u64,
        14 => 1202605u64,
        15 => 3269018u64,
        16 => 8886111u64,
        17 => 24154953u64,
        18 => 65659970u64,
        19 => 178482301u64,
        20 => 485165196u64,
        21 => 1318815735u64,
        22 => 3584912847u64,
        23 => 9744803447u64,
        24 => 26489122130u64,
        25 => 72004899338u64,
        26 => 195729609429u64,
        27 => 532048240602u64,
        28 => 1446257064292u64,
        29 => 3931334297145u64,
        30 => 10686474581525u64,
        31 => 29048849665248u64,
        32 => 78962960182681u64,
        33 => 214643579785917u64,
        34 => 583461742527455u64,
        35 => 1586013452313431u64,
        36 => 4311231547115196u64,
        37 => 11719142372802612u64,
        38 => 31855931757113757u64,
        39 => 86593400423993747u64,
        40 => 235385266837019986u64,
        41 => 639843493530054950u64,
        42 => 1739274941520501048u64,
        43 => 4727839468229346562u64,
        44 => 12851600114359308276u64,
        _ => 12851600114359308276u64,
    }
}

/// `⌊ln x⌋` for `x ≥ 1`: the largest `k` with `⌈e^k⌉ ≤ x` (0 when none).
pub fn floor_ln(x: u64) -> (r: u32)
    ensures
        r <= 44,
        r == 0 || exp_ceil(r as int) <= x,
        r == 44 || x < exp_ceil(r + 1),
        x <= u32::MAX ==> r <= 22,
{
    let mut k: u32 = 1;
    while k <= 44 && exp_ceil_at(k) <= x
        invariant
            1 <= k <= 45,
            k == 1 || exp_ceil(k - 1) <= x,
            x <= u32::MAX ==> k <= 23,
        decreases 45 - k,
    {
        k = k + 1;
    }
    k - 1
}

/// Number of bits of `x`: 0 for 0, else one more than for `x / 2`.
pub open spec fn bits(x: nat) -> nat
    decreases x,
{
    if x == 0 {
        0
    } else {
        1 + bits(x / 2)
    }
}

/// `2^k`.
pub open spec fn pow2k(k: nat) -> nat
    decreases k,
{
    if k == 0 {
        1
    } else {
        2 * pow2k((k - 1) as nat)
    }
}

proof fn lemma_bits_le(x: nat, k: nat)
    requires
        x < pow2k(k),
    ensures
        bits(x) <= k,
    decreases k,
{
    if x > 0 {
        assert(k > 0);
        lemma_bits_le(x / 2, (k - 1) as nat);
    }
}

/// Number of bits of `x` (as `u64::BITS - x.leading_zeros()`).
pub fn bit_length(x: u64) -> (b: u32)
    ensures
        b == bits(x as nat),
        b <= 64,
{
    proof {
        assert(pow2k(64) == 0x1_0000_0000_0000_0000) by {
            reveal_with_fuel(pow2k, 65);
        }
        lemma_bits_le(x as nat, 64);
    }
    let mut b: u32 = 0;
    let mut y: u64 = x;
    while y > 0
        invariant
            b + bits(y as nat) == bits(x as nat),
            bits(x as nat) <= 64,
        decreases y,
    {
        y = y / 2;
        b = b + 1;
    }
    b
}

/// A value below `2^63` has at most 63 bits.
pub proof fn lemma_bits_i64(x: u64)
    requires
        x <= i64::MAX,
    ensures
        bits(x as nat) <= 63,
{
    assert(pow2k(63) == 0x8000_0000_0000_0000) by {
        reveal_with_fuel(pow2k, 64);
    }
    lemma_bits_le(x as nat, 63);
}

} // verus!
verus! {

/// An arithmetic right shift by one bit less is at least twice the shift by
/// one bit more: `⌊w / 2ˢ⌋ ≥ 2·⌊w / 2ˢ⁺¹⌋`; shifting by 0 keeps `w`.
pub proof fn lemma_shift_halving(w: i64, s: u32)
    requires
        s < 63,
    ensures
        (w >> s) >= 2 * (w >> ((s + 1) as u32)),
        (w >> 0u32) == w,
{
    assert((w >> s) >= 2 * (w >> ((s + 1) as u32))) by (bit_vector)
        requires
            s < 63,
    ;
    assert((w >> 0u32) == w) by (bit_vector);
}

} // verus!
