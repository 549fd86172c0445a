//! Fixed-point numbers and the affine maps between a domain and the unit interval.
//!
//! A number `r` is held as the integer `r * 65536`, rounded down. Crisp values
//! and degrees of membership are `i32`; a normalized input, which may lie far
//! outside the unit interval when the domain is narrow, is `i64`.

use vstd::prelude::*;

verus! {

/// The fixed-point representation of 1.
pub const ONE: i32 = 65536;

/// The position of `x` in the domain `[start, end)`, as a fraction of its
/// width: `(x - start) / (end - start)`, rounded down.
pub open spec fn normalize(x: int, start: int, end: int) -> int {
    (x - start) * ONE / (end - start)
}

/// The crisp value at the fraction `n` of the domain `[start, end)`:
/// `n * (end - start) + start`, rounded down.
pub open spec fn denormalize(n: int, start: int, end: int) -> int {
    n * (end - start) / (ONE as int) + start
}

/// Both ends of the domain are normalized exactly: the start to 0, the end to 1.
pub proof fn lemma_normalize_ends(start: int, end: int)
    requires
        start < end,
    ensures
        normalize(start, start, end) == 0,
        normalize(end, start, end) == ONE,
{
    let w = end - start;
    assert(0 * ONE / w == 0) by (nonlinear_arith)
        requires
            w > 0,
    ;
    assert(w * ONE / w == ONE) by (nonlinear_arith)
        requires
            w > 0,
    ;
}

/// Both ends of the unit interval are denormalized exactly: 0 to the start of
/// the domain, 1 to its end.
pub proof fn lemma_denormalize_ends(start: int, end: int)
    ensures
        denormalize(0, start, end) == start,
        denormalize(ONE as int, start, end) == end,
{
    let w = end - start;
    assert(0 * w / (ONE as int) == 0) by (nonlinear_arith);
    assert((ONE as int) * w / (ONE as int) == w) by (nonlinear_arith);
}

/// Denormalizing undoes normalizing up to the rounding of the two divisions:
/// the round trip never overshoots `x`, and falls short of it by less than one
/// unit more than a 65536th of the domain's width.
pub proof fn lemma_round_trip(x: int, start: int, end: int)
    requires
        start < end,
    ensures
        denormalize(normalize(x, start, end), start, end) <= x,
        (x - denormalize(normalize(x, start, end), start, end) - 1) * ONE < end - start,
{
    let w = end - start;
    let d = x - start;
    let n = normalize(x, start, end);
    let r = n * w / (ONE as int);
    assert(n * w <= d * ONE && d * ONE - w < n * w) by (nonlinear_arith)
        requires
            w > 0,
            n == d * ONE / w,
    ;
    assert(r <= d && (d - r - 1) * ONE < w) by (nonlinear_arith)
        requires
            r == n * w / (ONE as int),
            n * w <= d * ONE,
            d * ONE - w < n * w,
    ;
}

/// Normalizing undoes denormalizing up to the rounding of the two divisions:
/// the round trip never overshoots `n`, and falls short of it by less than one
/// unit more than 65536 over the domain's width.
pub proof fn lemma_round_trip_back(n: int, start: int, end: int)
    requires
        start < end,
    ensures
        normalize(denormalize(n, start, end), start, end) <= n,
        (n - normalize(denormalize(n, start, end), start, end) - 1) * (end - start) < ONE,
{
    let w = end - start;
    let d = n * w / (ONE as int);
    let back = normalize(denormalize(n, start, end), start, end);
    assert(d * ONE <= n * w && n * w - ONE < d * ONE) by (nonlinear_arith)
        requires
            d == n * w / (ONE as int),
    ;
    assert(back <= n && (n - back - 1) * w < ONE) by (nonlinear_arith)
        requires
            w > 0,
            back == d * ONE / w,
            d * ONE <= n * w,
            n * w - ONE < d * ONE,
    ;
}

/// Normalizes the crisp value `x` over the domain `[start, end)`.
pub(crate) fn normalized(x: i32, start: i32, end: i32) -> (n: i64)
    requires
        start < end,
    ensures
        n == normalize(x as int, start as int, end as int),
{
    let diff: i64 = x as i64 - start as i64;
    let den: i64 = end as i64 - start as i64;
    assert(-0x1_0000_0000_0000 < diff * 65536 < 0x1_0000_0000_0000);
    let num: i64 = diff * (ONE as i64);
    proof {
        assert(-0x1_0000_0000_0000 < num / den < 0x1_0000_0000_0000) by (nonlinear_arith)
            requires
                den >= 1,
                -0x1_0000_0000_0000 < num < 0x1_0000_0000_0000,
        ;
    }
    match num.checked_div_euclid(den) {
        Some(q) => q,
        // The divisor is above 0 and the quotient fits.
        None => 0,
    }
}

/// Denormalizes the fraction `n` of the unit interval over the domain
/// `[start, end)`.
pub(crate) fn denormalized(n: i32, start: i32, end: i32) -> (x: i32)
    requires
        start < end,
        0 <= n <= ONE,
    ensures
        x == denormalize(n as int, start as int, end as int),
        start <= x <= end,
{
    let w: i64 = end as i64 - start as i64;
    assert(0 <= n * w <= 65536 * w) by (nonlinear_arith)
        requires
            0 <= n <= 65536,
            w > 0,
    ;
    let scaled: i64 = n as i64 * w;
    proof {
        assert(0 <= scaled / (ONE as i64) <= w) by (nonlinear_arith)
            requires
                scaled == n * w,
                0 <= n <= ONE,
                w > 0,
                ONE == 65536,
        ;
    }
    let offset: i64 = scaled / (ONE as i64);
    (offset + start as i64) as i32
}

} // verus!
