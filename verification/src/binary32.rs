//! Single-precision arithmetic on non-negative numbers, carried out exactly
//! on integers.
//!
//! A finger's place on the grid is defined by IEEE 754 binary32 operations
//! (conversions from integers, a division and a multiplication), each rounded
//! to 24 significant bits with ties to even.
//! None of the values involved is ever small enough to be subnormal or large
//! enough to overflow, so a positive binary32 number is here an integer
//! significand over a power of two.

use vstd::prelude::*;

verus! {

/// One more than the largest 24-bit significand.
pub const SIGNIFICAND_END: u64 = 0x100_0000;

/// The smallest significand of a normalized number.
pub const SIGNIFICAND_MIN: u64 = 0x80_0000;

/// The integer nearest to `n / d`; the even one where two are equally near.
pub open spec fn nearest_even(n: nat, d: nat) -> nat {
    let q = n / d;
    let r = n % d;
    if 2 * r < d || (2 * r == d && q % 2 == 0) {
        q
    } else {
        q + 1
    }
}

/// The spacing of the binary32 numbers around the integer `n`, but never less
/// than one: the smallest power of two of which `n` holds fewer than
/// `SIGNIFICAND_END`.
pub open spec fn spacing(n: nat) -> nat
    decreases n,
{
    if n < SIGNIFICAND_END {
        1
    } else {
        2 * spacing(n / 2)
    }
}

/// The binary32 number nearest to the integer `n`.
pub open spec fn rounded(n: nat) -> nat {
    nearest_even(n, spacing(n)) * spacing(n)
}

/// The power of two that brings `n / d` up to a normalized significand.
pub open spec fn quotient_scale(n: nat, d: nat) -> nat
    decreases
            if n < SIGNIFICAND_MIN * d {
                SIGNIFICAND_MIN * d - n
            } else {
                0
            },
{
    if n == 0 || n >= SIGNIFICAND_MIN * d {
        1
    } else {
        2 * quotient_scale(2 * n, d)
    }
}

/// The significand of the binary32 number nearest to `n / d`, for
/// `0 < n < d`; the number itself is this over `quotient_scale(n, d)`.
pub open spec fn quotient(n: nat, d: nat) -> nat {
    nearest_even(n * quotient_scale(n, d), d)
}

/// The division of `n` by `d`, rounded to the nearest integer with ties to
/// even.
pub fn div_nearest_even(n: u64, d: u64) -> (q: u64)
    requires
        0 < d <= 0x4000_0000_0000_0000,
        n < 0x8000_0000_0000_0000,
    ensures
        q == nearest_even(n as nat, d as nat),
{
    let q: u64 = n / d;
    let r: u64 = n % d;
    assert(q <= n) by (nonlinear_arith)
        requires
            q == n / d,
            d > 0,
    ;
    if 2 * r < d || (2 * r == d && q % 2 == 0) {
        q
    } else {
        q + 1
    }
}

/// The spacing of the binary32 numbers around `n`.
pub fn find_spacing(n: u64) -> (u: u64)
    requires
        n <= 0x1_0000_0000_0000,
    ensures
        u == spacing(n as nat),
        0 < u <= 0x200_0000,
        n < u * SIGNIFICAND_END,
{
    let mut t: u64 = n;
    let mut u: u64 = 1;
    while t >= SIGNIFICAND_END
        invariant
            n <= 0x1_0000_0000_0000,
            0 < u,
            t * u <= n < (t + 1) * u,
            spacing(n as nat) == u * spacing(t as nat),
            u <= 0x200_0000,
        decreases t,
    {
        assert(u <= 0x100_0000) by (nonlinear_arith)
            requires
                t * u <= 0x1_0000_0000_0000,
                t >= 0x100_0000,
        ;
        let h: u64 = t / 2;
        assert((h * (2 * u)) <= t * u && (t + 1) * u <= (h + 1) * (2 * u)) by (nonlinear_arith)
            requires
                h == t / 2,
        ;
        assert(u * (2 * spacing(h as nat)) == (u * 2) * spacing(h as nat)) by (nonlinear_arith);
        t = h;
        u = u * 2;
    }
    assert(n < u * 0x100_0000) by (nonlinear_arith)
        requires
            n < (t + 1) * u,
            t < 0x100_0000,
            u > 0,
    ;
    assert(u * spacing(t as nat) == u) by (nonlinear_arith)
        requires
            spacing(t as nat) == 1,
    ;
    u
}

/// The binary32 number nearest to the integer `n`.
pub fn round_integer(n: u64) -> (v: u64)
    requires
        n <= 0x1_0000_0000_0000,
    ensures
        v == rounded(n as nat),
        v <= 0x2_0000_0000_0000,
{
    let u = find_spacing(n);
    let q = div_nearest_even(n, u);
    proof {
        assert(q * u <= 0x100_0000 * 0x200_0000) by {
            lemma_nearest_even_bound(n as nat, u as nat, 0x100_0000);
            assert(q * u <= 0x100_0000 * 0x200_0000) by (nonlinear_arith)
                requires
                    q <= 0x100_0000,
                    u <= 0x200_0000,
            ;
        }
    }
    q * u
}

/// `n / d` and `n % d` are the quotient and the remainder.
proof fn lemma_division(n: nat, d: nat)
    requires
        d > 0,
    ensures
        n == d * (n / d) + n % d,
        0 <= n % d < d,
{
    vstd::arithmetic::div_mod::lemma_fundamental_div_mod(n as int, d as int);
    vstd::arithmetic::div_mod::lemma_mod_bound(n as int, d as int);
}

/// Rounding does not carry a quotient past an integer that it does not exceed.
pub proof fn lemma_nearest_even_bound(n: nat, d: nat, k: nat)
    requires
        d > 0,
        n <= k * d,
    ensures
        nearest_even(n, d) <= k,
{
    let q = n / d;
    let r = n % d;
    lemma_division(n, d);
    assert(q < k || (q == k && r == 0)) by (nonlinear_arith)
        requires
            n == d * q + r,
            r >= 0,
            n <= k * d,
            d > 0,
    ;
}

/// Rounding does not carry a quotient below an integer that it reaches.
pub proof fn lemma_nearest_even_lower_bound(n: nat, d: nat, k: nat)
    requires
        d > 0,
        k * d <= n,
    ensures
        k <= nearest_even(n, d),
{
    let q = n / d;
    let r = n % d;
    lemma_division(n, d);
    assert(k <= q) by (nonlinear_arith)
        requires
            n == d * q + r,
            r < d,
            k * d <= n,
            d > 0,
    ;
}

/// Rounding to the nearest integer keeps the order of the dividends.
pub proof fn lemma_nearest_even_monotone(n1: nat, n2: nat, d: nat)
    requires
        d > 0,
        n1 <= n2,
    ensures
        nearest_even(n1, d) <= nearest_even(n2, d),
{
    lemma_division(n1, d);
    lemma_division(n2, d);
    let (q1, q2) = (n1 / d, n2 / d);
    assert(q1 <= q2 && (q1 == q2 ==> n1 % d <= n2 % d)) by (nonlinear_arith)
        requires
            n1 == d * q1 + n1 % d,
            n2 == d * q2 + n2 % d,
            0 <= n1 % d < d,
            0 <= n2 % d < d,
            n1 <= n2,
    ;
}

/// The rounded quotient is off by half a unit at most.
pub proof fn lemma_nearest_even_error(n: nat, d: nat)
    requires
        d > 0,
    ensures
        -(d as int) <= 2 * (nearest_even(n, d) * d - n) <= d,
{
    lemma_division(n, d);
    let q = n / d;
    assert(q * d == d * q && (q + 1) * d == d * q + d) by (nonlinear_arith);
}

/// Doubling both numbers leaves the rounded quotient as it is.
proof fn lemma_nearest_even_doubled(n: nat, d: nat)
    requires
        d > 0,
    ensures
        nearest_even(2 * n, 2 * d) == nearest_even(n, d),
{
    lemma_division(n, d);
    let q = n / d;
    let r = n % d;
    assert((2 * n) as int == q * (2 * d) + 2 * r) by (nonlinear_arith)
        requires
            n == d * q + r,
    ;
    vstd::arithmetic::div_mod::lemma_fundamental_div_mod_converse(
        (2 * n) as int,
        (2 * d) as int,
        q as int,
        (2 * r) as int,
    );
}

/// The spacing is positive, and apart from the smallest one it leaves a
/// normalized significand.
pub proof fn lemma_spacing(n: nat)
    ensures
        spacing(n) >= 1,
        n < SIGNIFICAND_END * spacing(n),
        spacing(n) > 1 ==> n >= SIGNIFICAND_MIN * spacing(n),
    decreases n,
{
    if n >= SIGNIFICAND_END {
        lemma_spacing(n / 2);
    }
}

/// Larger integers lie in the same or in a sparser part of the number line.
proof fn lemma_spacing_monotone(n1: nat, n2: nat)
    requires
        n1 <= n2,
    ensures
        spacing(n1) == spacing(n2) || 2 * spacing(n1) <= spacing(n2),
    decreases n2,
{
    lemma_spacing(n2 / 2);
    if n1 >= SIGNIFICAND_END {
        lemma_spacing_monotone(n1 / 2, n2 / 2);
    }
}

/// Integers of at most 24 bits are binary32 numbers.
pub proof fn lemma_rounded_exact(n: nat)
    requires
        n < SIGNIFICAND_END,
    ensures
        rounded(n) == n,
{
    assert(n / 1 == n && n % 1 == 0);
    assert(nearest_even(n, spacing(n)) == n);
    assert(n * spacing(n) == n) by (nonlinear_arith)
        requires
            spacing(n) == 1,
    ;
}

/// Rounding commutes with doubling.
pub proof fn lemma_rounded_doubled(n: nat)
    ensures
        rounded(2 * n) == 2 * rounded(n),
{
    if n < SIGNIFICAND_MIN {
        lemma_rounded_exact(n);
        lemma_rounded_exact(2 * n);
    } else {
        let u = spacing(n);
        lemma_spacing(n);
        assert((2 * n) / 2 == n);
        assert(spacing(2 * n) == 2 * u);
        lemma_nearest_even_doubled(n, u);
        let q = nearest_even(n, u);
        assert(q * (2 * u) == 2 * (q * u)) by (nonlinear_arith);
    }
}

/// Rounding to binary32 keeps the order of integers.
pub proof fn lemma_rounded_monotone(n1: nat, n2: nat)
    requires
        n1 <= n2,
    ensures
        rounded(n1) <= rounded(n2),
{
    let (u1, u2) = (spacing(n1), spacing(n2));
    let (q1, q2) = (nearest_even(n1, u1), nearest_even(n2, u2));
    lemma_spacing(n1);
    lemma_spacing(n2);
    lemma_spacing_monotone(n1, n2);
    if u1 == u2 {
        lemma_nearest_even_monotone(n1, n2, u1);
        assert(q1 * u1 <= q2 * u1) by (nonlinear_arith)
            requires
                q1 <= q2,
        ;
    } else {
        lemma_nearest_even_bound(n1, u1, SIGNIFICAND_END as nat);
        lemma_nearest_even_lower_bound(n2, u2, SIGNIFICAND_MIN as nat);
        assert(q1 * u1 <= q2 * u2) by (nonlinear_arith)
            requires
                q1 <= 0x100_0000,
                q2 >= 0x80_0000,
                2 * u1 <= u2,
        ;
    }
}

/// Rounding an integer changes it by one part in `SIGNIFICAND_END` at most.
pub proof fn lemma_rounded_error(n: nat)
    ensures
        -(n as int) <= SIGNIFICAND_END * (rounded(n) - n) <= n,
{
    let u = spacing(n);
    lemma_spacing(n);
    lemma_nearest_even_error(n, u);
    if u == 1 {
        lemma_rounded_exact(n);
    }
}

/// `s` is 1, 2, 4, 8 and so on.
pub open spec fn power_of_two(s: nat) -> bool
    decreases s,
{
    s == 1 || (s > 1 && s % 2 == 0 && power_of_two(s / 2))
}

/// Rounding commutes with scaling by a power of two.
pub proof fn lemma_rounded_scaled(s: nat, n: nat)
    requires
        power_of_two(s),
    ensures
        rounded(s * n) == s * rounded(n),
    decreases s,
{
    if s > 1 {
        let h = s / 2;
        lemma_rounded_scaled(h, n);
        lemma_rounded_doubled(h * n);
        assert(s * n == 2 * (h * n)) by (nonlinear_arith)
            requires
                s == 2 * h,
        ;
        assert(2 * (h * rounded(n)) == s * rounded(n)) by (nonlinear_arith)
            requires
                s == 2 * h,
        ;
    } else {
        assert(s * n == n && s * rounded(n) == rounded(n)) by (nonlinear_arith)
            requires
                s == 1,
        ;
    }
}

/// Of two powers of two the larger one is the smaller one times a power of
/// two.
pub proof fn lemma_power_of_two_ratio(large: nat, small: nat) -> (t: nat)
    requires
        power_of_two(large),
        power_of_two(small),
        small <= large,
    ensures
        power_of_two(t),
        large == small * t,
    decreases small,
{
    if small == 1 {
        large
    } else {
        let t = lemma_power_of_two_ratio(large / 2, small / 2);
        assert(large == small * t) by (nonlinear_arith)
            requires
                large / 2 == (small / 2) * t,
                large % 2 == 0,
                small % 2 == 0,
        ;
        t
    }
}

/// The scale of a quotient is the power of two that normalizes it.
pub proof fn lemma_quotient_scale(n: nat, d: nat)
    requires
        0 < n < SIGNIFICAND_END * d,
    ensures
        power_of_two(quotient_scale(n, d)),
        SIGNIFICAND_MIN * d <= n * quotient_scale(n, d) < SIGNIFICAND_END * d,
    decreases
            if n < SIGNIFICAND_MIN * d {
                SIGNIFICAND_MIN * d - n
            } else {
                0
            },
{
    if n < SIGNIFICAND_MIN * d {
        lemma_quotient_scale(2 * n, d);
        let s = quotient_scale(2 * n, d);
        assert((2 * s) / 2 == s && (2 * s) % 2 == 0);
        assert(s >= 1);
        assert(n * (2 * s) == (2 * n) * s) by (nonlinear_arith);
    } else {
        assert(n * quotient_scale(n, d) == n) by (nonlinear_arith)
            requires
                quotient_scale(n, d) == 1,
        ;
    }
}

/// Rounding a quotient changes it by one part in `SIGNIFICAND_END` at most.
pub proof fn lemma_quotient_error(n: nat, d: nat)
    requires
        0 < n < SIGNIFICAND_END * d,
    ensures
        -(n * quotient_scale(n, d)) <= SIGNIFICAND_END * (quotient(n, d) * d - n * quotient_scale(
            n,
            d,
        )) <= n * quotient_scale(n, d),
{
    lemma_quotient_scale(n, d);
    lemma_nearest_even_error(n * quotient_scale(n, d), d);
}

/// The distance of two numbers.
pub open spec fn distance(a: int, b: int) -> int {
    if a < b {
        b - a
    } else {
        a - b
    }
}

/// No other multiple of `d` is nearer to `n`.
proof fn lemma_nearest_even_is_nearest(n: nat, d: nat, k: int)
    requires
        d > 0,
    ensures
        distance((nearest_even(n, d) * d) as int, n as int) <= distance(k * d, n as int),
{
    let q = nearest_even(n, d) as int;
    lemma_nearest_even_error(n, d);
    assert(k * d >= q * d + d || k * d <= q * d - d || k == q) by (nonlinear_arith)
        requires
            d > 0,
    ;
}

/// A spacing is a power of two.
proof fn lemma_spacing_power(n: nat)
    ensures
        power_of_two(spacing(n)),
    decreases n,
{
    if n >= SIGNIFICAND_END {
        lemma_spacing_power(n / 2);
        let u = spacing(n / 2);
        lemma_spacing(n / 2);
        assert((2 * u) / 2 == u && (2 * u) % 2 == 0);
    }
}

/// No integer `m * u` with a 24-bit significand `m` and a power of two `u` is
/// nearer to `n` than its rounded value.
pub proof fn law_rounded_is_nearest(n: nat, m: nat, u: nat)
    requires
        m < SIGNIFICAND_END,
        power_of_two(u),
    ensures
        distance(rounded(n) as int, n as int) <= distance((m * u) as int, n as int),
{
    let own = spacing(n);
    lemma_spacing(n);
    lemma_spacing_power(n);
    if u >= own {
        let t = lemma_power_of_two_ratio(u, own);
        lemma_nearest_even_is_nearest(n, own, (m * t) as int);
        assert((m * t) * own == m * u) by (nonlinear_arith)
            requires
                u == own * t,
        ;
    } else {
        let t = lemma_power_of_two_ratio(own, u);
        assert(t >= 2) by (nonlinear_arith)
            requires
                own == u * t,
                u < own,
        ;
        assert(m * u <= 0x80_0000 * own) by (nonlinear_arith)
            requires
                m < 0x100_0000,
                own == u * t,
                t >= 2,
        ;
        lemma_nearest_even_is_nearest(n, own, SIGNIFICAND_MIN as int);
    }
}

/// No fraction `m / s` with a 24-bit significand `m` and a power of two `s` is
/// nearer to `n / d` than the rounded quotient. The two distances are compared
/// over their common denominator.
pub proof fn law_quotient_is_nearest(n: nat, d: nat, m: nat, s: nat)
    requires
        0 < n < SIGNIFICAND_END * d,
        m < SIGNIFICAND_END,
        power_of_two(s),
    ensures
        distance((quotient(n, d) * d) as int, (n * quotient_scale(n, d)) as int) * s <= distance(
            (m * d) as int,
            (n * s) as int,
        ) * quotient_scale(n, d),
{
    let own = quotient_scale(n, d);
    let miss = distance((quotient(n, d) * d) as int, (n * own) as int);
    let other = distance((m * d) as int, (n * s) as int);
    lemma_quotient_scale(n, d);
    if s <= own {
        let t = lemma_power_of_two_ratio(own, s);
        lemma_nearest_even_is_nearest(n * own, d, (m * t) as int);
        assert((m * t) * d - n * own == (m * d - n * s) * t) by (nonlinear_arith)
            requires
                own == s * t,
        ;
        assert(distance(((m * t) * d) as int, (n * own) as int) == other * t) by (nonlinear_arith)
            requires
                (m * t) * d - n * own == (m * d - n * s) * t,
                other == distance((m * d) as int, (n * s) as int),
                t >= 0,
        ;
        assert(miss * s <= other * own) by (nonlinear_arith)
            requires
                miss <= other * t,
                own == s * t,
                s >= 0,
        ;
    } else {
        let t = lemma_power_of_two_ratio(s, own);
        assert(t >= 2) by (nonlinear_arith)
            requires
                s == own * t,
                own < s,
        ;
        let least = SIGNIFICAND_MIN * d;
        lemma_nearest_even_is_nearest(n * own, d, SIGNIFICAND_MIN as int);
        assert(m * d <= least * t) by (nonlinear_arith)
            requires
                m < 0x100_0000,
                least == 0x80_0000 * d,
                t >= 2,
        ;
        assert(n * s == (n * own) * t) by (nonlinear_arith)
            requires
                s == own * t,
        ;
        assert(least * t <= (n * own) * t) by (nonlinear_arith)
            requires
                least <= n * own,
        ;
        assert(miss * s <= other * own) by (nonlinear_arith)
            requires
                miss <= n * own - least,
                s == own * t,
                other == (n * own) * t - m * d,
                m * d <= least * t,
                own > 0,
                t > 0,
        ;
    }
}

/// `q` is the integer nearest to `n / d`, and even where two are equally near.
pub open spec fn is_nearest_even(n: nat, d: nat, q: nat) -> bool {
    &&& -(d as int) <= 2 * (q * d - n) <= d
    &&& 2 * (q * d - n) == d || 2 * (q * d - n) == -(d as int) ==> q % 2 == 0
}

/// `q * u` is the integer `n` in single precision: a significand of 24 bits
/// times a power of two, as near to `n` as the size of `n` allows.
pub open spec fn is_single(n: nat, q: nat, u: nat) -> bool {
    &&& power_of_two(u)
    &&& if n < 0x100_0000 {
        u == 1
    } else {
        0x80_0000 * u <= n < 0x100_0000 * u
    }
    &&& is_nearest_even(n, u, q)
}

/// `m / s` is `n / d` in single precision: a significand of 24 bits over a power
/// of two, as near to `n / d` as its size allows.
pub open spec fn is_single_quotient(n: nat, d: nat, m: nat, s: nat) -> bool {
    &&& power_of_two(s)
    &&& 0x80_0000 * d <= n * s < 0x100_0000 * d
    &&& is_nearest_even(n * s, d, m)
}

/// A quotient has one nearest integer, the even one of two.
pub proof fn law_division_rounds_to_nearest_even(n: nat, d: nat, q: nat)
    requires
        d > 0,
    ensures
        is_nearest_even(n, d, q) <==> q == nearest_even(n, d),
{
    lemma_division(n, d);
    let own = nearest_even(n, d);
    let floor = n / d;
    lemma_nearest_even_error(n, d);
    assert(floor * d == d * floor && (floor + 1) * d == d * floor + d) by (nonlinear_arith);
    if q != own && is_nearest_even(n, d, q) {
        assert(q == own + 1 || own == q + 1) by (nonlinear_arith)
            requires
                -(d as int) <= 2 * (own * d - n) <= d,
                -(d as int) <= 2 * (q * d - n) <= d,
                d > 0,
                q != own,
        ;
        assert((own + 1) * d == own * d + d && (q + 1) * d == q * d + d) by (nonlinear_arith);
    }
}

/// An integer has one value in single precision.
pub proof fn law_integers_round_to_single_precision(n: nat, q: nat, u: nat)
    ensures
        is_single(n, q, u) ==> rounded(n) == q * u,
        exists|k: nat, v: nat| #[trigger] is_single(n, k, v),
{
    let own = spacing(n);
    lemma_spacing(n);
    lemma_spacing_power(n);
    law_division_rounds_to_nearest_even(n, own, nearest_even(n, own));
    assert(n >= SIGNIFICAND_END ==> own > 1);
    assert(is_single(n, nearest_even(n, own), own));
    if is_single(n, q, u) {
        if u < own {
            let t = lemma_power_of_two_ratio(own, u);
            assert(own >= 2 * u) by (nonlinear_arith)
                requires
                    own == u * t,
                    u < own,
            ;
        } else if own < u {
            let t = lemma_power_of_two_ratio(u, own);
            assert(u >= 2 * own) by (nonlinear_arith)
                requires
                    u == own * t,
                    own < u,
            ;
        }
        assert(u == own);
        law_division_rounds_to_nearest_even(n, u, q);
    }
}

/// A quotient has one value in single precision.
pub proof fn law_quotients_round_to_single_precision(n: nat, d: nat, m: nat, s: nat)
    requires
        0 < n < d,
    ensures
        is_single_quotient(n, d, m, s) ==> quotient(n, d) == m && quotient_scale(n, d) == s,
        exists|k: nat, v: nat| #[trigger] is_single_quotient(n, d, k, v),
{
    let own = quotient_scale(n, d);
    assert(n < SIGNIFICAND_END * d);
    lemma_quotient_scale(n, d);
    law_division_rounds_to_nearest_even(n * own, d, quotient(n, d));
    assert(is_single_quotient(n, d, quotient(n, d), own));
    if is_single_quotient(n, d, m, s) {
        if s < own {
            let t = lemma_power_of_two_ratio(own, s);
            assert(n * own >= 2 * (n * s)) by (nonlinear_arith)
                requires
                    own == s * t,
                    s < own,
            ;
        } else if own < s {
            let t = lemma_power_of_two_ratio(s, own);
            assert(n * s >= 2 * (n * own)) by (nonlinear_arith)
                requires
                    s == own * t,
                    own < s,
            ;
        }
        assert(s == own);
        law_division_rounds_to_nearest_even(n * s, d, m);
    }
}

} // verus!
