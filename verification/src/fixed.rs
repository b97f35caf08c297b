//! Fixed-point arithmetic: scale factors held in units of 1/65536, and the
//! integer square root.

use vstd::prelude::*;
use vstd::arithmetic::div_mod::lemma_div_is_ordered;

verus! {

/// The scale factor one, in units of 1/65536.
pub const ONE: u64 = 0x1_0000;

/// The largest scale factor that scanning uses: 32768.
pub const MAX_SCALE: u64 = 0x8000_0000;

/// The largest length that is scaled: 32767.
pub const MAX_LENGTH: u32 = 0x7fff;

/// The length `v` times the scale factor `scale / 65536`, rounded to the
/// nearest integer, a half going up.
pub open spec fn scaled(v: int, scale: int) -> int {
    (v * scale + 0x8000) / 0x1_0000
}

/// Scaling keeps the order of lengths.
pub proof fn lemma_scaled_monotone(a: int, b: int, scale: int)
    requires
        0 <= a <= b,
        0 <= scale,
    ensures
        0 <= scaled(a, scale) <= scaled(b, scale),
{
    assert(0 <= a * scale <= b * scale) by (nonlinear_arith)
        requires
            0 <= a <= b,
            0 <= scale,
    ;
    lemma_div_is_ordered(a * scale + 0x8000, b * scale + 0x8000, 0x1_0000);
    lemma_div_is_ordered(0, a * scale + 0x8000, 0x1_0000);
}

/// At the scale factor one, lengths stay as they are.
pub proof fn lemma_scaled_by_one(v: int)
    ensures
        scaled(v, ONE as int) == v,
{
    vstd::arithmetic::div_mod::lemma_fundamental_div_mod_converse(v * 0x1_0000 + 0x8000, 0x1_0000, v, 0x8000);
}

/// A scale factor of at least one does not shorten a length.
pub proof fn lemma_scaled_grows(v: int, scale: int)
    requires
        0 <= v,
        ONE <= scale,
    ensures
        v <= scaled(v, scale),
{
    lemma_scaled_by_one(v);
    assert(v * 0x1_0000 <= v * scale) by (nonlinear_arith)
        requires
            0 <= v,
            0x1_0000 <= scale,
    ;
    lemma_div_is_ordered(v * 0x1_0000 + 0x8000, v * scale + 0x8000, 0x1_0000);
}

/// The bound that a scaled length keeps.
pub proof fn lemma_scaled_bound(v: int, scale: int)
    requires
        0 <= v <= MAX_LENGTH,
        0 <= scale <= MAX_SCALE,
    ensures
        0 <= scaled(v, scale) <= 0x4000_0000_0000,
{
    assert(0 <= v * scale <= 0x7fff * 0x8000_0000) by (nonlinear_arith)
        requires
            0 <= v <= 0x7fff,
            0 <= scale <= 0x8000_0000,
    ;
    lemma_div_is_ordered(v * scale + 0x8000, 0x7fff * 0x8000_0000int + 0x8000, 0x1_0000);
    lemma_div_is_ordered(0, v * scale + 0x8000, 0x1_0000);
}

/// The length `v` at the scale factor `scale / 65536`.
pub fn scale_length(v: u32, scale: u64) -> (r: u64)
    requires
        v <= MAX_LENGTH,
        scale <= MAX_SCALE,
    ensures
        r == scaled(v as int, scale as int),
{
    assert(0 <= v * scale <= 0x7fff * 0x8000_0000) by (nonlinear_arith)
        requires
            0 <= v <= 0x7fff,
            0 <= scale <= 0x8000_0000,
    ;
    ((v as u64) * scale + 0x8000) / 0x1_0000
}

/// `r` is the square root of `n`, rounded down.
pub open spec fn is_sqrt_floor(n: int, r: int) -> bool {
    0 <= r && r * r <= n < (r + 1) * (r + 1)
}

/// The square root of `n`, rounded down; zero for a negative `n`.
pub open spec fn sqrt_floor(n: int) -> int {
    if n < 0 {
        0
    } else {
        choose|r: int| is_sqrt_floor(n, r)
    }
}

/// A number has one rounded-down square root.
pub proof fn lemma_sqrt_floor_unique(n: int, r: int)
    requires
        is_sqrt_floor(n, r),
    ensures
        sqrt_floor(n) == r,
{
    assert(r * r >= 0) by (nonlinear_arith);
    let s = sqrt_floor(n);
    assert(is_sqrt_floor(n, s));
    assert(s == r) by (nonlinear_arith)
        requires
            0 <= r,
            0 <= s,
            r * r <= n < (r + 1) * (r + 1),
            s * s <= n < (s + 1) * (s + 1),
    ;
}

/// The square root of `n`, rounded down.
pub fn isqrt(n: u128) -> (r: u64)
    requires
        n < 0x4000_0000_0000_0000_0000_0000_0000_0000,
    ensures
        is_sqrt_floor(n as int, r as int),
        r == sqrt_floor(n as int),
{
    let mut lo: u128 = 0;
    let mut hi: u128 = 0x8000_0000_0000_0000;
    assert(hi * hi == 0x4000_0000_0000_0000_0000_0000_0000_0000) by (nonlinear_arith)
        requires
            hi == 0x8000_0000_0000_0000,
    ;
    while hi - lo > 1
        invariant
            lo < hi <= 0x8000_0000_0000_0000,
            lo * lo <= n < hi * hi,
        decreases hi - lo,
    {
        let mid: u128 = lo + (hi - lo) / 2;
        assert(mid * mid < 0x4000_0000_0000_0000_0000_0000_0000_0000) by (nonlinear_arith)
            requires
                0 <= mid < 0x8000_0000_0000_0000,
        ;
        if mid * mid <= n {
            lo = mid;
        } else {
            hi = mid;
        }
    }
    proof {
        assert(hi == lo + 1);
        lemma_sqrt_floor_unique(n as int, lo as int);
    }
    lo as u64
}

} // verus!
