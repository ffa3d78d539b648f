//! Placing a raw coordinate on one axis of the grid.

use vstd::prelude::*;

use crate::binary32::{
    div_nearest_even, lemma_nearest_even_bound, lemma_nearest_even_lower_bound,
    lemma_nearest_even_monotone, lemma_power_of_two_ratio, lemma_quotient_error,
    lemma_quotient_scale, lemma_rounded_error, lemma_rounded_exact, lemma_rounded_monotone,
    lemma_rounded_scaled, is_single, is_single_quotient, law_integers_round_to_single_precision,
    law_quotients_round_to_single_precision, power_of_two, quotient, quotient_scale,
    round_integer, rounded, SIGNIFICAND_END, SIGNIFICAND_MIN,
};

verus! {

/// The coordinate that the 32 bits of `value` stand for in two's complement.
pub open spec fn signed(value: u32) -> int {
    if value < 0x8000_0000 {
        value as int
    } else {
        value - 0x1_0000_0000
    }
}

/// The width of a logical range; a degenerate range counts as one wide.
pub open spec fn span(min: int, max: int) -> int {
    if max - min > 1 {
        max - min
    } else {
        1
    }
}

/// The width of the range is a 32-bit number.
pub open spec fn span_fits(min: i32, max: i32) -> bool {
    i32::MIN <= max - min <= i32::MAX
}

/// The distance of the coordinate from the start of the range is a 32-bit
/// number.
pub open spec fn offset_fits(value: u32, min: i32) -> bool {
    i32::MIN <= signed(value) - min <= i32::MAX
}

/// The index, out of `0..=last`, that stands for `offset` on an axis `span`
/// wide: the single-precision quotient `offset / span`, kept within 0 and 1,
/// times `last`, rounded to the nearest integer with ties upward.
pub open spec fn grid_index(offset: int, span: int, last: nat) -> nat {
    let n = rounded(offset as nat);
    let d = rounded(span as nat);
    if offset <= 0 {
        0
    } else if n >= d {
        last
    } else {
        let scale = quotient_scale(n, d);
        let product = rounded(quotient(n, d) * last);
        (2 * product + scale) / (2 * scale)
    }
}

/// The power of two that brings `n / d` up to a normalized significand.
fn find_quotient_scale(n: u64, d: u64) -> (s: u64)
    requires
        0 < n < d <= 0x8000_0000,
    ensures
        s == quotient_scale(n as nat, d as nat),
        0 < s <= 0x80_0000_0000_0000,
        n * s < SIGNIFICAND_END * d,
{
    let mut t: u64 = n;
    let mut s: u64 = 1;
    assert(n < 0x100_0000 * d) by (nonlinear_arith)
        requires
            n < d,
    ;
    while t < SIGNIFICAND_MIN * d
        invariant
            0 < n < d <= 0x8000_0000,
            t == n * s,
            0 < t < SIGNIFICAND_END * d,
            0 < s <= t,
            quotient_scale(n as nat, d as nat) == s
                * quotient_scale(t as nat, d as nat),
        decreases SIGNIFICAND_END * d - t,
    {
        let ghost rest = quotient_scale((2 * t) as nat, d as nat);
        assert(s * (2 * rest) == (s * 2) * rest) by (nonlinear_arith);
        assert(n * (s * 2) == 2 * (n * s)) by (nonlinear_arith);
        t = t * 2;
        s = s * 2;
    }
    assert(s * quotient_scale(t as nat, d as nat) == s) by (nonlinear_arith)
        requires
            quotient_scale(t as nat, d as nat) == 1,
    ;
    s
}

/// The index, out of `0..=last`, of the grid line on which a raw coordinate is
/// drawn, for a device that reports this axis from `min` to `max`.
///
/// Whatever lies before the range is drawn at 0 and whatever lies past it at
/// `last`.
pub fn place(value: u32, min: i32, max: i32, last: usize) -> (index: usize)
    requires
        span_fits(min, max),
        offset_fits(value, min),
        last < SIGNIFICAND_END,
    ensures
        index == grid_index(signed(value) - min, span(min as int, max as int), last as nat),
        index == grid_index(
            (if value < 0x8000_0000 {
                value as int
            } else {
                value - 0x1_0000_0000
            }) - min,
            if max > min {
                max - min
            } else {
                1
            },
            last as nat,
        ),
        index <= last,
{
    let coordinate: i32 = #[verifier::truncate] (value as i32);
    assert(value < 0x8000_0000 ==> value as i32 == value) by (bit_vector);
    assert(value >= 0x8000_0000 ==> value as i32 == value - 0x1_0000_0000) by (bit_vector);
    let offset: i32 = coordinate - min;
    let width: i32 = max - min;
    let width: i32 = if width > 1 {
        width
    } else {
        1
    };
    if offset <= 0 {
        return 0;
    }
    proof {
        lemma_rounded_span(offset as nat);
        lemma_rounded_span(width as nat);
    }
    let n: u64 = round_integer(offset as u64);
    let d: u64 = round_integer(width as u64);
    if n >= d {
        return last;
    }
    let scale: u64 = find_quotient_scale(n, d);
    assert(n * scale < 0x80_0000_0000_0000) by (nonlinear_arith)
        requires
            n * scale < 0x100_0000 * d,
            d <= 0x8000_0000,
    ;
    let significand: u64 = div_nearest_even(n * scale, d);
    proof {
        lemma_nearest_even_bound((n * scale) as nat, d as nat, SIGNIFICAND_END as nat);
        assert(n * scale <= scale * d) by (nonlinear_arith)
            requires
                n < d,
        ;
        lemma_nearest_even_bound((n * scale) as nat, d as nat, scale as nat);
        assert(significand * last <= 0x1_0000_0000_0000) by (nonlinear_arith)
            requires
                significand <= 0x100_0000,
                last < 0x100_0000,
        ;
    }
    let product: u64 = round_integer(significand * (last as u64));
    proof {
        lemma_quotient_scale(n as nat, d as nat);
        lemma_product_bound(significand as nat, scale as nat, last as nat);
    }
    let index: u64 = (2 * product + scale) / (2 * scale);
    index as usize
}

/// An integer of at most 31 bits stays one when it is rounded.
proof fn lemma_rounded_span(n: nat)
    requires
        0 < n <= 0x7fff_ffff,
    ensures
        0 < rounded(n) <= 0x8000_0000,
{
    lemma_rounded_exact(1);
    lemma_rounded_monotone(1, n);
    lemma_rounded_monotone(n, 0x8000_0000);
    reveal_with_fuel(power_of_two, 33);
    lemma_rounded_scaled(0x8000_0000, 1);
}

/// A fraction that does not exceed one gives an index that does not exceed
/// `last`.
proof fn lemma_product_bound(significand: nat, scale: nat, last: nat)
    requires
        significand <= scale,
        power_of_two(scale),
        last < SIGNIFICAND_END,
    ensures
        rounded(significand * last) <= scale * last,
        (2 * rounded(significand * last) + scale) / (2 * scale) <= last,
{
    let product = rounded(significand * last);
    assert(significand * last <= scale * last) by (nonlinear_arith)
        requires
            significand <= scale,
    ;
    lemma_rounded_monotone(significand * last, scale * last);
    lemma_rounded_scaled(scale, last);
    lemma_rounded_exact(last);
    assert(2 * product + scale < (2 * scale) * (last + 1)) by (nonlinear_arith)
        requires
            product <= scale * last,
            scale > 0,
    ;
    vstd::arithmetic::div_mod::lemma_multiply_divide_lt(
        (2 * product + scale) as int,
        (2 * scale) as int,
        (last + 1) as int,
    );
}

/// A finger further along the device's axis is never drawn before one that is
/// less far along.
pub proof fn law_place_keeps_order(offset1: int, offset2: int, span: int, last: nat)
    requires
        offset1 <= offset2,
        span >= 1,
        last < SIGNIFICAND_END,
    ensures
        grid_index(offset1, span, last) <= grid_index(offset2, span, last),
{
    if offset1 > 0 {
        let n1 = rounded(offset1 as nat);
        let n2 = rounded(offset2 as nat);
        let d = rounded(span as nat);
        lemma_rounded_monotone(offset1 as nat, offset2 as nat);
        lemma_rounded_exact(1);
        lemma_rounded_monotone(1, offset1 as nat);
        if n1 < d {
            assert(n1 < SIGNIFICAND_END * d && n2 < d ==> n2 < SIGNIFICAND_END * d);
            lemma_quotient_scale(n1, d);
            lemma_grid_index_bound(n1, d, last);
            if n2 < d {
                lemma_quotient_scale(n2, d);
                lemma_quotient_order(n1, n2, d, last);
            }
        }
    }
}

/// A fraction below one gives an index that does not exceed `last`.
proof fn lemma_grid_index_bound(n: nat, d: nat, last: nat)
    requires
        0 < n < d,
        last < SIGNIFICAND_END,
    ensures
        (2 * rounded(quotient(n, d) * last) + quotient_scale(n, d)) / (2 * quotient_scale(n, d))
            <= last,
{
    let scale = quotient_scale(n, d);
    assert(n < SIGNIFICAND_END * d);
    lemma_quotient_scale(n, d);
    assert(n * scale <= scale * d) by (nonlinear_arith)
        requires
            n < d,
    ;
    lemma_nearest_even_bound(n * scale, d, scale);
    lemma_product_bound(quotient(n, d), scale, last);
}

/// Larger dividends give larger indices.
proof fn lemma_quotient_order(n1: nat, n2: nat, d: nat, last: nat)
    requires
        0 < n1 <= n2 < d,
    ensures
        (2 * rounded(quotient(n1, d) * last) + quotient_scale(n1, d)) / (2 * quotient_scale(n1, d))
            <= (2 * rounded(quotient(n2, d) * last) + quotient_scale(n2, d)) / (2
            * quotient_scale(n2, d)),
{
    let (s1, s2) = (quotient_scale(n1, d), quotient_scale(n2, d));
    let (m1, m2) = (quotient(n1, d), quotient(n2, d));
    let (p1, p2) = (rounded(m1 * last), rounded(m2 * last));
    assert(n1 < SIGNIFICAND_END * d && n2 < SIGNIFICAND_END * d);
    lemma_quotient_scale(n1, d);
    lemma_quotient_scale(n2, d);
    if s1 < s2 {
        let t = lemma_power_of_two_ratio(s2, s1);
        assert(t >= 2) by (nonlinear_arith)
            requires
                s2 == s1 * t,
                s1 < s2,
        ;
        assert(n2 * s2 >= 2 * (n1 * s1)) by (nonlinear_arith)
            requires
                s2 == s1 * t,
                t >= 2,
                n1 <= n2,
        ;
    }
    let t = lemma_power_of_two_ratio(s1, s2);
    // The significand of the smaller quotient, in units of the larger one's.
    if t == 1 {
        assert(s1 == s2 && m2 * t == m2) by (nonlinear_arith)
            requires
                s1 == s2 * t,
                t == 1,
        ;
        assert(n1 * s1 <= n2 * s1) by (nonlinear_arith)
            requires
                n1 <= n2,
        ;
        lemma_nearest_even_monotone(n1 * s1, n2 * s2, d);
    } else {
        lemma_nearest_even_bound(n1 * s1, d, SIGNIFICAND_END as nat);
        lemma_nearest_even_lower_bound(n2 * s2, d, SIGNIFICAND_MIN as nat);
        assert(m1 <= m2 * t) by (nonlinear_arith)
            requires
                m1 <= 0x100_0000,
                m2 >= 0x80_0000,
                t >= 2,
        ;
    }
    assert(m1 * last <= t * (m2 * last)) by (nonlinear_arith)
        requires
            m1 <= m2 * t,
    ;
    lemma_rounded_monotone(m1 * last, t * (m2 * last));
    lemma_rounded_scaled(t, m2 * last);
    assert(p1 <= t * p2);
    let k = (2 * p2 + s2) / (2 * s2);
    vstd::arithmetic::div_mod::lemma_fundamental_div_mod((2 * p2 + s2) as int, (2 * s2) as int);
    vstd::arithmetic::div_mod::lemma_mod_bound((2 * p2 + s2) as int, (2 * s2) as int);
    assert(2 * p1 + s1 < (2 * s1) * (k + 1)) by (nonlinear_arith)
        requires
            p1 <= t * p2,
            s1 == s2 * t,
            t >= 1,
            2 * p2 + s2 < (2 * s2) * k + 2 * s2,
    ;
    vstd::arithmetic::div_mod::lemma_multiply_divide_lt(
        (2 * p1 + s1) as int,
        (2 * s1) as int,
        (k + 1) as int,
    );
}

/// No index exceeds `last`.
pub proof fn lemma_grid_index_within(offset: int, span: int, last: nat)
    requires
        span >= 1,
        last < SIGNIFICAND_END,
    ensures
        grid_index(offset, span, last) <= last,
{
    law_place_covers_the_axis(span, span, last);
    if offset < span {
        law_place_keeps_order(offset, span, span, last);
    } else {
        law_place_covers_the_axis(offset, span, last);
    }
}

/// The two ends of a range that is not degenerate are drawn at the two ends of
/// the grid, and whatever lies outside the range is drawn at the nearer end.
pub proof fn law_place_covers_the_axis(offset: int, span: int, last: nat)
    requires
        span >= 1,
    ensures
        offset <= 0 ==> grid_index(offset, span, last) == 0,
        offset >= span ==> grid_index(offset, span, last) == last,
{
    if offset >= span {
        lemma_rounded_monotone(span as nat, offset as nat);
    }
}

/// A finger within the range is drawn at most one grid line away from its exact
/// place, which is `last * offset / span`.
pub proof fn law_place_is_near(offset: int, span: int, last: nat)
    requires
        0 <= offset <= span,
        span >= 1,
        last <= 0x10_0000,
    ensures
        -span <= grid_index(offset, span, last) * span - last * offset <= span,
{
    let n = rounded(offset as nat);
    let d = rounded(span as nat);
    let index = grid_index(offset, span, last);
    lemma_rounded_error(offset as nat);
    lemma_rounded_error(span as nat);
    if offset == 0 {
        assert(index * span == 0 && last * offset == 0) by (nonlinear_arith)
            requires
                index == 0,
                offset == 0,
        ;
    } else if n >= d {
        assert(0x80_0000 * (span - offset) <= span);
        assert(0 <= last * span - last * offset <= span) by (nonlinear_arith)
            requires
                0 <= offset <= span,
                0 <= last <= 0x10_0000,
                0x80_0000 * (span - offset) <= span,
        ;
    } else {
        lemma_rounded_exact(1);
        lemma_rounded_monotone(1, offset as nat);
        assert(n < SIGNIFICAND_END * d);
        lemma_quotient_scale(n, d);
        lemma_quotient_error(n, d);
        let s = quotient_scale(n, d);
        let m = quotient(n, d);
        let p = rounded(m * last);
        lemma_rounded_error(m * last);
        lemma_product_error(offset, span, last as int, n as int, d as int, s as int, m as int, p as int);
        vstd::arithmetic::div_mod::lemma_fundamental_div_mod((2 * p + s) as int, (2 * s) as int);
        vstd::arithmetic::div_mod::lemma_mod_bound((2 * p + s) as int, (2 * s) as int);
        lemma_index_error(offset, span, last as int, s as int, p as int, index as int);
    }
}

/// On a device whose range is not extremely fine a finger within the range is
/// drawn on the grid line that is nearest to its exact place, which is
/// `last * offset / span`: single precision never picks a line that is further
/// away. This covers every range of up to 32767 units on both axes of the grid.
pub proof fn law_place_is_nearest(offset: int, span: int, last: nat)
    requires
        0 <= offset <= span,
        1 <= span < SIGNIFICAND_END,
        last * span <= 0x3f_0000,
    ensures
        -span <= 2 * (grid_index(offset, span, last) * span - last * offset) <= span,
{
    let index = grid_index(offset, span, last);
    lemma_rounded_exact(offset as nat);
    lemma_rounded_exact(span as nat);
    if offset == 0 {
        assert(index * span == 0 && last * offset == 0) by (nonlinear_arith)
            requires
                index == 0,
                offset == 0,
        ;
    } else if offset < span {
        let n = offset as nat;
        let d = span as nat;
        assert(n < SIGNIFICAND_END * d);
        lemma_quotient_scale(n, d);
        lemma_quotient_error(n, d);
        let s = quotient_scale(n, d);
        let m = quotient(n, d);
        let p = rounded(m * last);
        lemma_rounded_error(m * last);
        lemma_exact_product_error(offset, span, last as int, s as int, m as int, p as int);
        vstd::arithmetic::div_mod::lemma_fundamental_div_mod((2 * p + s) as int, (2 * s) as int);
        vstd::arithmetic::div_mod::lemma_mod_bound((2 * p + s) as int, (2 * s) as int);
        lemma_nearest_index(offset, span, last as int, s as int, p as int, index as int);
    }
}

/// Where only the quotient and the product are rounded, the product moves by
/// less than half of one part in `w`.
proof fn lemma_exact_product_error(o: int, w: int, l: int, s: int, m: int, p: int)
    requires
        0 < o <= w,
        0 <= l,
        l * w <= 0x3f_0000,
        s > 0,
        -(o * s) <= 0x100_0000 * (m * w - o * s) <= o * s,
        -(m * l) <= 0x100_0000 * (p - m * l) <= m * l,
    ensures
        -s < 2 * (p * w - (l * o) * s) < s,
{
    let pw = p * w;
    let mlw = (m * l) * w;
    let los = (l * o) * s;
    assert(0xff_ffff * (m * l) <= 0x100_0000 * p <= 0x100_0001 * (m * l));
    assert(0xff_ffff * mlw <= 0x100_0000 * pw <= 0x100_0001 * mlw) by (nonlinear_arith)
        requires
            0xff_ffff * (m * l) <= 0x100_0000 * p <= 0x100_0001 * (m * l),
            w > 0,
            pw == p * w,
            mlw == (m * l) * w,
    ;
    assert(0xff_ffff * los <= 0x100_0000 * mlw <= 0x100_0001 * los) by (nonlinear_arith)
        requires
            0xff_ffff * (o * s) <= 0x100_0000 * (m * w) <= 0x100_0001 * (o * s),
            l >= 0,
            los == (l * o) * s,
            mlw == (m * l) * w,
    ;
    assert(0 <= l * o <= l * w) by (nonlinear_arith)
        requires
            0 < o <= w,
            0 <= l,
    ;
    assert(0 <= los <= 0x3f_0000 * s) by (nonlinear_arith)
        requires
            0 <= l * o <= 0x3f_0000,
            s > 0,
            los == (l * o) * s,
    ;
    assert(-s < 2 * pw - 2 * los < s);
}

/// An error of less than half of one part in `w` does not carry a fraction with
/// the denominator `w` past the middle between two indices.
proof fn lemma_nearest_index(o: int, w: int, l: int, s: int, p: int, index: int)
    requires
        w > 0,
        s > 0,
        -s < 2 * (p * w - (l * o) * s) < s,
        (2 * s) * index <= 2 * p + s < (2 * s) * index + 2 * s,
    ensures
        -w <= 2 * (index * w - l * o) <= w,
{
    let sw = s * w;
    let miss = index * w - l * o;
    assert(2 * (p * w) - sw < 2 * ((s * index) * w) <= 2 * (p * w) + sw) by (nonlinear_arith)
        requires
            w > 0,
            sw == s * w,
            (2 * s) * index <= 2 * p + s < (2 * s) * index + 2 * s,
    ;
    assert((s * index) * w - (l * o) * s == s * miss) by (nonlinear_arith)
        requires
            miss == index * w - l * o,
    ;
    assert(-s - sw < 2 * (s * miss) < s + sw);
    assert(-w - 1 < 2 * miss < w + 1) by (nonlinear_arith)
        requires
            -s - sw < 2 * (s * miss) < s + sw,
            sw == s * w,
            s > 0,
    ;
}

/// Four roundings together move the product by half a grid line at most.
proof fn lemma_product_error(o: int, w: int, l: int, n: int, d: int, s: int, m: int, p: int)
    requires
        0 < o <= w,
        0 <= l <= 0x10_0000,
        n > 0,
        d > 0,
        s > 0,
        m >= 0,
        p >= 0,
        -o <= 0x100_0000 * (n - o) <= o,
        -w <= 0x100_0000 * (d - w) <= w,
        -(n * s) <= 0x100_0000 * (m * d - n * s) <= n * s,
        -(m * l) <= 0x100_0000 * (p - m * l) <= m * l,
    ensures
        -(s * w) <= 2 * (p * w) - 2 * ((l * o) * s) <= s * w,
{
    // Each error bound, multiplied out to the common denominators.
    let pd = p * d;
    let pw = p * w;
    let mld = (m * l) * d;
    let nsl = (n * s) * l;
    let los = (l * o) * s;
    let sw = s * w;
    assert(0xff_ffff * mld <= 0x100_0000 * pd <= 0x100_0001 * mld) by (nonlinear_arith)
        requires
            0xff_ffff * (m * l) <= 0x100_0000 * p <= 0x100_0001 * (m * l),
            d > 0,
            pd == p * d,
            mld == (m * l) * d,
    ;
    assert(0xff_ffff * nsl <= 0x100_0000 * mld <= 0x100_0001 * nsl) by (nonlinear_arith)
        requires
            0xff_ffff * (n * s) <= 0x100_0000 * (m * d) <= 0x100_0001 * (n * s),
            l >= 0,
            nsl == (n * s) * l,
            mld == (m * l) * d,
    ;
    assert(0xff_ffff * los <= 0x100_0000 * nsl <= 0x100_0001 * los) by (nonlinear_arith)
        requires
            0xff_ffff * o <= 0x100_0000 * n <= 0x100_0001 * o,
            s * l >= 0,
            los == (l * o) * s,
            nsl == (n * s) * l,
    ;
    assert(0xff_ffff * pw <= 0x100_0000 * pd <= 0x100_0001 * pw) by (nonlinear_arith)
        requires
            0xff_ffff * w <= 0x100_0000 * d <= 0x100_0001 * w,
            p >= 0,
            pw == p * w,
            pd == p * d,
    ;
    assert(0 <= los <= 0x10_0000 * sw) by (nonlinear_arith)
        requires
            0 < o <= w,
            0 <= l <= 0x10_0000,
            s > 0,
            los == (l * o) * s,
            sw == s * w,
    ;
    assert(-sw <= 2 * pw - 2 * los <= sw);
}

/// Rounding to the nearest index adds half a grid line at most.
proof fn lemma_index_error(o: int, w: int, l: int, s: int, p: int, index: int)
    requires
        w > 0,
        s > 0,
        -(s * w) <= 2 * (p * w) - 2 * ((l * o) * s) <= s * w,
        (2 * s) * index <= 2 * p + s < (2 * s) * index + 2 * s,
    ensures
        -w <= index * w - l * o <= w,
{
    let sw = s * w;
    let miss = index * w - l * o;
    assert(2 * (p * w) - sw < 2 * ((s * index) * w) <= 2 * (p * w) + sw) by (nonlinear_arith)
        requires
            w > 0,
            sw == s * w,
            (2 * s) * index <= 2 * p + s < (2 * s) * index + 2 * s,
    ;
    assert((s * index) * w - (l * o) * s == s * miss) by (nonlinear_arith)
        requires
            miss == index * w - l * o,
    ;
    assert(-sw <= s * miss <= sw);
    assert(-w <= miss <= w) by (nonlinear_arith)
        requires
            -sw <= s * miss <= sw,
            sw == s * w,
            s > 0,
    ;
}

/// A finger past the start of the range is placed by single-precision
/// arithmetic: the two distances are rounded, their quotient is rounded and kept
/// at one or below, its product with `last` is rounded, and the index is the
/// integer nearest to that, the upper one where two are equally near. Each
/// rounding goes to the nearest number with a 24-bit significand, ties to even.
pub proof fn law_place_follows_single_precision(
    offset: int,
    span: int,
    last: nat,
    n: (nat, nat),
    d: (nat, nat),
    m: nat,
    s: nat,
    p: (nat, nat),
)
    requires
        offset > 0,
        span >= 1,
        is_single(offset as nat, n.0, n.1),
        is_single(span as nat, d.0, d.1),
    ensures
        n.0 * n.1 >= d.0 * d.1 ==> grid_index(offset, span, last) == last,
        n.0 * n.1 < d.0 * d.1 && is_single_quotient(n.0 * n.1, d.0 * d.1, m, s) && is_single(
            m * last,
            p.0,
            p.1,
        ) ==> 2 * (s * grid_index(offset, span, last)) <= 2 * (p.0 * p.1) + s < 2 * (s * (
        grid_index(offset, span, last) + 1)),
{
    law_integers_round_to_single_precision(offset as nat, n.0, n.1);
    law_integers_round_to_single_precision(span as nat, d.0, d.1);
    let top = n.0 * n.1;
    let bottom = d.0 * d.1;
    if top < bottom && is_single_quotient(top, bottom, m, s) && is_single(m * last, p.0, p.1) {
        lemma_rounded_exact(1);
        lemma_rounded_monotone(1, offset as nat);
        law_quotients_round_to_single_precision(top, bottom, m, s);
        law_integers_round_to_single_precision(m * last, p.0, p.1);
        assert(s > 0) by (nonlinear_arith)
            requires
                0x80_0000 * bottom <= top * s,
                bottom > 0,
        ;
        let index = grid_index(offset, span, last);
        let sum = 2 * (p.0 * p.1) + s;
        assert(index == sum / (2 * s));
        vstd::arithmetic::div_mod::lemma_fundamental_div_mod(sum as int, (2 * s) as int);
        vstd::arithmetic::div_mod::lemma_mod_bound(sum as int, (2 * s) as int);
        assert((2 * s) * index == 2 * (s * index) && 2 * (s * (index + 1)) == 2 * (s * index) + 2
            * s) by (nonlinear_arith);
    }
}

} // verus!
