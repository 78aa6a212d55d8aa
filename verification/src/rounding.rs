//! Binary floating point arithmetic on positive numbers, carried out in integers.
//!
//! A number is a significand times a power of two. The significand lies in
//! `half .. 2 * half`, where `half` is the power of two that fixes the precision,
//! and every operation gives the representable number nearest to the exact result,
//! on a tie the one with the even significand.

use vstd::arithmetic::power2::*;
use vstd::prelude::*;

verus! {

/// The least significand of the 53 bit precision.
pub const HALF_53: u64 = 0x10_0000_0000_0000;

/// The least significand of the 24 bit precision.
pub const HALF_24: u64 = 0x80_0000;

/// The number `m` times two to the power of `e`.
pub struct Scaled {
    pub m: nat,
    pub e: int,
}

/// Two to the power of `k`, or one where `k` is negative.
pub open spec fn power(k: int) -> nat {
    if k >= 0 {
        pow2(k as nat)
    } else {
        1
    }
}

/// `n / d` rounded to the nearest integer, on a tie to the even one.
pub open spec fn round_even(n: nat, d: nat) -> nat {
    let q = n / d;
    let r = n % d;
    if 2 * r < d || (2 * r == d && q % 2 == 0) {
        q
    } else {
        q + 1
    }
}

/// Whether `n / d` divided by two to the power of `e` lies in `half .. 2 * half`.
pub open spec fn fits_at(half: nat, n: nat, d: nat, e: int) -> bool {
    half * (d * power(e)) <= n * power(-e) < 2 * half * (d * power(e))
}

/// The exponent of `n / d` at a precision.
pub open spec fn exponent_of(half: nat, n: nat, d: nat) -> int {
    choose|e: int| fits_at(half, n, d, e)
}

/// The representable number nearest to `n / d`.
pub open spec fn nearest(half: nat, n: nat, d: nat) -> Scaled {
    let e = exponent_of(half, n, d);
    let m = round_even(n * power(-e), d * power(e));
    if m == 2 * half {
        Scaled { m: half, e: e + 1 }
    } else {
        Scaled { m, e }
    }
}

/// The representable number nearest to `a / b`.
pub open spec fn quotient(half: nat, a: Scaled, b: Scaled) -> Scaled {
    let q = nearest(half, a.m, b.m);
    Scaled { m: q.m, e: q.e + a.e - b.e }
}

/// The representable number nearest to `c` times `a`.
pub open spec fn multiple(half: nat, a: Scaled, c: nat) -> Scaled {
    let p = nearest(half, a.m * c, 1);
    Scaled { m: p.m, e: p.e + a.e }
}

/// Scaling both sides of a power of two by a common one.
pub proof fn lemma_power_shift(e: int, k: nat)
    requires
        e + k >= 0,
    ensures
        power(e) * pow2(k) == power(-e) * pow2((e + k) as nat),
{
    lemma2_to64();
    if e >= 0 {
        lemma_pow2_adds(e as nat, k);
    } else {
        lemma_pow2_adds((-e) as nat, (e + k) as nat);
    }
}

/// `fits_at` over one common power of two.
pub proof fn lemma_fits_common(half: nat, n: nat, d: nat, e: int, k: nat)
    requires
        e + k >= 0,
    ensures
        fits_at(half, n, d, e) <==> half * d * pow2((e + k) as nat) <= n * pow2(k) < 2 * half * d
            * pow2((e + k) as nat),
{
    lemma_power_shift(e, k);
    lemma_pow2_pos(k);
    lemma_pow2_pos((e + k) as nat);
    lemma2_to64();
    if e < 0 {
        lemma_pow2_pos((-e) as nat);
    } else {
        lemma_pow2_pos(e as nat);
    }
    let up = power(e);
    let down = power(-e);
    let pk = pow2(k);
    let pe = pow2((e + k) as nat);
    assert(half * (d * up) * pk == half * d * pe * down) by (nonlinear_arith)
        requires
            up * pk == down * pe,
    ;
    assert(2 * half * (d * up) * pk == 2 * half * d * pe * down) by (nonlinear_arith)
        requires
            up * pk == down * pe,
    ;
    assert(n * down * pk == n * pk * down) by (nonlinear_arith);
    assert(half * (d * up) <= n * down <==> half * d * pe <= n * pk) by (nonlinear_arith)
        requires
            half * (d * up) * pk == half * d * pe * down,
            n * down * pk == n * pk * down,
            pk > 0,
            down > 0,
    ;
    assert(n * down < 2 * half * (d * up) <==> n * pk < 2 * half * d * pe) by (nonlinear_arith)
        requires
            2 * half * (d * up) * pk == 2 * half * d * pe * down,
            n * down * pk == n * pk * down,
            pk > 0,
            down > 0,
    ;
}

/// A number fits at one exponent only.
pub proof fn lemma_fits_unique(half: nat, n: nat, d: nat, a: int, b: int)
    requires
        fits_at(half, n, d, a),
        fits_at(half, n, d, b),
    ensures
        a == b,
{
    lemma_fits_at_least(half, n, d, a, b);
    lemma_fits_at_least(half, n, d, b, a);
}

proof fn lemma_fits_at_least(half: nat, n: nat, d: nat, a: int, b: int)
    requires
        fits_at(half, n, d, a),
        fits_at(half, n, d, b),
    ensures
        a >= b,
{
    if a < b {
        let k: nat = if a < 0 {
            (-a) as nat
        } else {
            0
        };
        lemma_fits_common(half, n, d, a, k);
        lemma_fits_common(half, n, d, b, k);
        let pa = pow2((a + k) as nat);
        let pb = pow2((b + k) as nat);
        lemma_pow2_unfold((a + k + 1) as nat);
        if a + 1 < b {
            lemma_pow2_strictly_increases((a + k + 1) as nat, (b + k) as nat);
        }
        assert(2 * half * d * pa <= half * d * pb) by (nonlinear_arith)
            requires
                2 * pa <= pb,
        ;
    }
}

/// Every positive number fits at some exponent from `e` on, where it is not too
/// small at `e`.
proof fn lemma_fits_from(half: nat, n: nat, d: nat, e: int)
    requires
        half > 0,
        d > 0,
        half * (d * power(e)) <= n * power(-e),
    ensures
        exists|f: int| fits_at(half, n, d, f),
    decreases n - e,
{
    if fits_at(half, n, d, e) {
    } else {
        lemma2_to64();
        if e >= 0 {
            let p = pow2(e as nat);
            lemma_pow2_exceeds(e as nat);
            assert(half * (d * p) >= p) by (nonlinear_arith)
                requires
                    half > 0,
                    d > 0,
            ;
            lemma_pow2_unfold((e + 1) as nat);
            assert(half * (d * (2 * p)) == 2 * half * (d * p)) by (nonlinear_arith);
        } else {
            lemma_pow2_unfold((-e) as nat);
            let p = pow2((-e - 1) as nat);
            assert(n * (2 * p) == 2 * (n * p)) by (nonlinear_arith);
            assert(2 * half * (d * 1) == 2 * (half * (d * 1))) by (nonlinear_arith);
            if e == -1 {
                assert(power(-(e + 1)) == 1);
            }
        }
        lemma_fits_from(half, n, d, e + 1);
    }
}

/// Two to the power of `k` is larger than `k`.
proof fn lemma_pow2_exceeds(k: nat)
    ensures
        pow2(k) > k,
    decreases k,
{
    lemma2_to64();
    if k > 0 {
        lemma_pow2_exceeds((k - 1) as nat);
        lemma_pow2_unfold(k);
    }
}

/// Every positive number fits at its exponent.
pub proof fn lemma_exponent_fits(half: nat, n: nat, d: nat)
    requires
        half > 0,
        n > 0,
        d > 0,
    ensures
        fits_at(half, n, d, exponent_of(half, n, d)),
{
    let k = half * d;
    assert(k > 0) by (nonlinear_arith)
        requires
            half > 0,
            d > 0,
            k == half * d,
    ;
    lemma_pow2_exceeds(k);
    let p = pow2(k);
    assert(half * (d * 1) <= n * p) by (nonlinear_arith)
        requires
            half * d == k,
            p > k,
            n > 0,
    ;
    lemma_fits_from(half, n, d, -(k as int));
}

/// Rounding depends on the ratio only.
pub proof fn lemma_round_even_ratio(n: nat, d: nat, t: nat, u: nat)
    requires
        d > 0,
        u > 0,
        t * d == n * u,
    ensures
        round_even(n, d) == round_even(t, u),
{
    let q = n / d;
    let r = n % d;
    let x = t / u;
    let y = t % u;
    vstd::arithmetic::div_mod::lemma_fundamental_div_mod(n as int, d as int);
    vstd::arithmetic::div_mod::lemma_fundamental_div_mod(t as int, u as int);
    assert(q == x && y * d == r * u) by (nonlinear_arith)
        requires
            n == d * q + r,
            t == u * x + y,
            0 <= r < d,
            0 <= y < u,
            t * d == n * u,
            d > 0,
            u > 0,
    ;
    assert((2 * r < d <==> 2 * y < u) && (2 * r == d <==> 2 * y == u)) by (nonlinear_arith)
        requires
            y * d == r * u,
            d > 0,
            u > 0,
    ;
}

/// Powers of two in the numerator and the denominator move the exponent and leave
/// the significand alone.
pub proof fn law_nearest_scales(half: nat, n: nat, d: nat, i: nat, j: nat)
    requires
        half > 0,
        n > 0,
        d > 0,
    ensures
        nearest(half, n * pow2(i), d * pow2(j)).m == nearest(half, n, d).m,
        nearest(half, n * pow2(i), d * pow2(j)).e == nearest(half, n, d).e + i - j,
{
    let pi = pow2(i);
    let pj = pow2(j);
    lemma_pow2_pos(i);
    lemma_pow2_pos(j);
    assert(n * pi > 0 && d * pj > 0) by (nonlinear_arith)
        requires
            n > 0,
            d > 0,
            pi > 0,
            pj > 0,
    ;
    let e = exponent_of(half, n * pi, d * pj);
    lemma_exponent_fits(half, n * pi, d * pj);
    let f = e - i + j;
    let k: nat = if e < 0 {
        (-e) as nat
    } else {
        0
    };
    lemma_fits_common(half, n * pi, d * pj, e, k);
    lemma_fits_common(half, n, d, f, k + i);
    lemma_pow2_adds(k, i);
    lemma_pow2_adds((e + k) as nat, j);
    let a = pow2(k);
    let b = pow2((e + k) as nat);
    assert(half * (d * pj) * b == half * d * (b * pj)) by (nonlinear_arith);
    assert(2 * half * (d * pj) * b == 2 * half * d * (b * pj)) by (nonlinear_arith);
    assert((n * pi) * a == n * (a * pi)) by (nonlinear_arith);
    assert(fits_at(half, n, d, f));
    lemma_exponent_fits(half, n, d);
    lemma_fits_unique(half, n, d, f, exponent_of(half, n, d));
    lemma_power_shift(e, k);
    lemma_power_shift(f, k + i);
    let u = power(e);
    let v = power(-e);
    let x = power(f);
    let y = power(-f);
    lemma_pow2_pos(k);
    lemma2_to64();
    if e >= 0 {
        lemma_pow2_pos(e as nat);
    }
    if f >= 0 {
        lemma_pow2_pos(f as nat);
    }
    assert(pi * v * x == y * pj * u) by (nonlinear_arith)
        requires
            u * a == v * b,
            x * (a * pi) == y * (b * pj),
            a > 0,
    ;
    assert(d * pj * u > 0 && d * x > 0) by (nonlinear_arith)
        requires
            d > 0,
            pj > 0,
            u > 0,
            x > 0,
    ;
    assert((n * y) * (d * pj * u) == (n * d) * (y * pj * u)) by (nonlinear_arith);
    assert((n * pi * v) * (d * x) == (n * d) * (pi * v * x)) by (nonlinear_arith);
    lemma_round_even_ratio(n * pi * v, d * pj * u, n * y, d * x);
}

/// A whole number with few enough digits is its own nearest representable number.
pub proof fn law_nearest_exact(half: nat, n: nat)
    requires
        half > 0,
        0 < n < 2 * half,
    ensures
        nearest(half, n, 1).e <= 0,
        nearest(half, n, 1).m == n * pow2((-nearest(half, n, 1).e) as nat),
{
    let e = exponent_of(half, n, 1);
    lemma_exponent_fits(half, n, 1);
    lemma2_to64();
    if e > 0 {
        lemma_pow2_unfold(e as nat);
        lemma_pow2_pos((e - 1) as nat);
        let p = pow2((e - 1) as nat);
        assert(half * (1 * (2 * p)) >= 2 * half) by (nonlinear_arith)
            requires
                p >= 1,
        ;
    }
    let t = n * power(-e);
    assert(1 * power(e) == 1);
    assert(t / 1 == t && t % 1 == 0);
    assert(2 * half * (1 * power(e)) == 2 * half) by (nonlinear_arith)
        requires
            power(e) == 1,
    ;
}

/// The distance between two numbers.
pub open spec fn distance(a: nat, b: nat) -> int {
    if a <= b {
        b - a
    } else {
        a - b
    }
}

/// An integer is rounded to within one half, and no integer is nearer.
pub proof fn lemma_round_even_near(t: nat, u: nat, c: nat)
    requires
        u > 0,
    ensures
        2 * distance(round_even(t, u) * u, t) <= u,
        distance(round_even(t, u) * u, t) <= distance(c * u, t),
{
    let q = t / u;
    let r = t % u;
    vstd::arithmetic::div_mod::lemma_fundamental_div_mod(t as int, u as int);
    assert((q + 1) * u == q * u + u) by (nonlinear_arith);
    assert(q * u == u * q) by (nonlinear_arith);
    if c <= q {
        assert(c * u <= q * u) by (nonlinear_arith)
            requires
                c <= q,
        ;
    } else {
        assert(c * u >= (q + 1) * u) by (nonlinear_arith)
            requires
                c >= q + 1,
        ;
    }
}

/// Of the same divisor, a larger number is not rounded to a smaller one.
pub proof fn lemma_round_even_monotone(n: nat, t: nat, d: nat)
    requires
        d > 0,
        n <= t,
    ensures
        round_even(n, d) <= round_even(t, d),
{
    vstd::arithmetic::div_mod::lemma_fundamental_div_mod(n as int, d as int);
    vstd::arithmetic::div_mod::lemma_fundamental_div_mod(t as int, d as int);
    vstd::arithmetic::div_mod::lemma_div_is_ordered(n as int, t as int, d as int);
}

/// An integer nearer than one half is the one that rounding gives.
pub proof fn lemma_round_even_unique(t: nat, u: nat, c: nat)
    requires
        2 * distance(c * u, t) < u,
    ensures
        round_even(t, u) == c,
{
    let r = round_even(t, u);
    lemma_round_even_near(t, u, c);
    if r > c {
        assert(r * u >= c * u + u) by (nonlinear_arith)
            requires
                r >= c + 1,
        ;
    } else if r < c {
        assert(c * u >= r * u + u) by (nonlinear_arith)
            requires
                c >= r + 1,
        ;
    }
}

/// The nearest representable number over one common power of two: the exact value
/// is `t / u` steps, and the result is that many steps rounded.
proof fn lemma_nearest_common(half: nat, n: nat, d: nat, k: nat)
    requires
        half > 0,
        n > 0,
        d > 0,
        exponent_of(half, n, d) + k >= 0,
    ensures
        ({
            let e = exponent_of(half, n, d);
            let x = nearest(half, n, d);
            let step = pow2((e + k) as nat);
            let t = n * pow2(k);
            let u = d * step;
            &&& u > 0
            &&& x.e + k >= 0
            &&& x.m * pow2((x.e + k) as nat) == round_even(t, u) * step
            &&& half * u <= t < 2 * half * u
        }),
{
    let e = exponent_of(half, n, d);
    lemma_exponent_fits(half, n, d);
    lemma_fits_common(half, n, d, e, k);
    lemma_power_shift(e, k);
    let step = pow2((e + k) as nat);
    let up = power(e);
    let down = power(-e);
    let t = n * pow2(k);
    let u = d * step;
    lemma_pow2_pos((e + k) as nat);
    lemma2_to64();
    if e >= 0 {
        lemma_pow2_pos(e as nat);
    }
    assert(u > 0 && d * up > 0) by (nonlinear_arith)
        requires
            u == d * step,
            d > 0,
            step > 0,
            up > 0,
    ;
    assert(t * (d * up) == (n * down) * u) by (nonlinear_arith)
        requires
            t == n * pow2(k),
            u == d * step,
            up * pow2(k) == down * step,
    ;
    lemma_round_even_ratio(n * down, d * up, t, u);
    assert(half * d * step == half * u) by (nonlinear_arith)
        requires
            u == d * step,
    ;
    assert(2 * half * d * step == 2 * half * u) by (nonlinear_arith)
        requires
            u == d * step,
    ;
    lemma_pow2_unfold((e + k + 1) as nat);
    assert(half * (2 * step) == (2 * half) * step) by (nonlinear_arith);
}

/// No representable number lies nearer to `n / d` than the one that `nearest`
/// gives. The two distances are compared after multiplication by `d` and by two to
/// the power of `k`.
pub proof fn law_nearest_is_closest(half: nat, n: nat, d: nat, other: Scaled, k: nat)
    requires
        half > 0,
        n > 0,
        d > 0,
        other.m < 2 * half,
        exponent_of(half, n, d) + k >= 0,
        other.e + k >= 0,
    ensures
        nearest(half, n, d).e + k >= 0,
        distance(
            nearest(half, n, d).m * pow2((nearest(half, n, d).e + k) as nat) * d,
            n * pow2(k),
        ) <= distance(other.m * pow2((other.e + k) as nat) * d, n * pow2(k)),
{
    let e = exponent_of(half, n, d);
    let step = pow2((e + k) as nat);
    let t = n * pow2(k);
    let u = d * step;
    let small = pow2((other.e + k) as nat);
    lemma_nearest_common(half, n, d, k);
    let m = round_even(t, u);
    assert(m * step * d == m * u) by (nonlinear_arith)
        requires
            u == d * step,
    ;
    if other.e >= e {
        lemma_pow2_adds((other.e - e) as nat, (e + k) as nat);
        let c = other.m * pow2((other.e - e) as nat);
        lemma_round_even_near(t, u, c);
        assert(other.m * small * d == c * u) by (nonlinear_arith)
            requires
                small == pow2((other.e - e) as nat) * step,
                c == other.m * pow2((other.e - e) as nat),
                u == d * step,
        ;
    } else {
        lemma_round_even_near(t, u, half);
        lemma_pow2_unfold((other.e + k + 1) as nat);
        if other.e + 1 < e {
            lemma_pow2_strictly_increases((other.e + k + 1) as nat, (e + k) as nat);
        }
        assert(other.m * small * d <= half * u) by (nonlinear_arith)
            requires
                other.m < 2 * half,
                2 * small <= step,
                u == d * step,
        ;
    }
}

/// The nearest representable number differs from `n / d` by at most one part in
/// `2 * half`. The difference is taken after multiplication by `d` and by two to
/// the power of `k`.
pub proof fn law_nearest_relative_error(half: nat, n: nat, d: nat, k: nat)
    requires
        half > 0,
        n > 0,
        d > 0,
        exponent_of(half, n, d) + k >= 0,
    ensures
        nearest(half, n, d).e + k >= 0,
        2 * half * distance(
            nearest(half, n, d).m * pow2((nearest(half, n, d).e + k) as nat) * d,
            n * pow2(k),
        ) <= n * pow2(k),
{
    let e = exponent_of(half, n, d);
    let step = pow2((e + k) as nat);
    let t = n * pow2(k);
    let u = d * step;
    lemma_nearest_common(half, n, d, k);
    let m = round_even(t, u);
    assert(m * step * d == m * u) by (nonlinear_arith)
        requires
            u == d * step,
    ;
    lemma_round_even_near(t, u, 0);
    let gap = distance(m * u, t);
    assert(2 * half * gap <= half * u) by (nonlinear_arith)
        requires
            2 * gap <= u,
            half > 0,
    ;
}

/// A number, counted in units of two to the power of `-k`.
pub open spec fn count(x: Scaled, k: int) -> nat {
    x.m * pow2((x.e + k) as nat)
}

/// The nearest representable number depends on the ratio only.
proof fn lemma_nearest_ratio_only(half: nat, n: nat, d: nat, t: nat, u: nat)
    requires
        half > 0,
        n > 0,
        d > 0,
        t > 0,
        u > 0,
        t * d == n * u,
    ensures
        nearest(half, n, d) == nearest(half, t, u),
{
    let e = exponent_of(half, n, d);
    lemma_exponent_fits(half, n, d);
    lemma_exponent_fits(half, t, u);
    let up = power(e);
    let down = power(-e);
    lemma2_to64();
    if e >= 0 {
        lemma_pow2_pos(e as nat);
    } else {
        lemma_pow2_pos((-e) as nat);
    }
    assert(d * up > 0 && u * up > 0) by (nonlinear_arith)
        requires
            d > 0,
            u > 0,
            up > 0,
    ;
    assert((t * down) * (d * up) == (n * down) * (u * up)) by {
        assert((t * down) * (d * up) == (t * d) * (down * up)) by (nonlinear_arith);
        assert((n * down) * (u * up) == (n * u) * (down * up)) by (nonlinear_arith);
    }
    let g = d * up;
    let h = u * up;
    let x = n * down;
    let y = t * down;
    assert(half * h <= y) by (nonlinear_arith)
        requires
            half * g <= x,
            y * g == x * h,
            g > 0,
    ;
    assert(y < 2 * half * h) by (nonlinear_arith)
        requires
            x < 2 * half * g,
            y * g == x * h,
            g > 0,
            h > 0,
    ;
    lemma_fits_unique(half, t, u, e, exponent_of(half, t, u));
    lemma_round_even_ratio(x, g, y, h);
}

/// Where `n / d` does not exceed `t / u`, its nearest representable number does not
/// exceed that of `t / u` either.
pub proof fn law_nearest_monotone(half: nat, n: nat, d: nat, t: nat, u: nat, k: nat)
    requires
        half > 0,
        n > 0,
        d > 0,
        t > 0,
        u > 0,
        n * u <= t * d,
        exponent_of(half, n, d) + k >= 0,
        exponent_of(half, t, u) + k >= 0,
    ensures
        count(nearest(half, n, d), k as int) <= count(nearest(half, t, u), k as int),
{
    let a = nearest(half, n, d);
    let b = nearest(half, t, u);
    lemma_nearest_in_range(half, n, d);
    lemma_nearest_in_range(half, t, u);
    law_nearest_is_closest(half, n, d, b, k);
    law_nearest_is_closest(half, t, u, a, k);
    let x = count(a, k as int);
    let y = count(b, k as int);
    let p = pow2(k);
    lemma_pow2_pos(k);
    if x > y {
        let np = n * p;
        let tp = t * p;
        // Twice the first ratio is at least `x + y`, twice the second at most that.
        assert(x * d > y * d && x * u > y * u) by (nonlinear_arith)
            requires
                x > y,
                d > 0,
                u > 0,
        ;
        assert(2 * np >= x * d + y * d);
        assert(2 * tp <= x * u + y * u);
        assert((2 * np) * u >= (x * d + y * d) * u) by (nonlinear_arith)
            requires
                2 * np >= x * d + y * d,
        ;
        assert((2 * tp) * d <= (x * u + y * u) * d) by (nonlinear_arith)
            requires
                2 * tp <= x * u + y * u,
        ;
        assert((x * d + y * d) * u == (x * u + y * u) * d) by (nonlinear_arith);
        assert((2 * np) * u == 2 * p * (n * u)) by (nonlinear_arith)
            requires
                np == n * p,
        ;
        assert((2 * tp) * d == 2 * p * (t * d)) by (nonlinear_arith)
            requires
                tp == t * p,
        ;
        assert(n * u >= t * d) by (nonlinear_arith)
            requires
                2 * p * (n * u) >= 2 * p * (t * d),
                p > 0,
        ;
        lemma_nearest_ratio_only(half, n, d, t, u);
    }
}

/// The significand of the nearest representable number lies in its range.
pub proof fn lemma_nearest_in_range(half: nat, n: nat, d: nat)
    requires
        half > 0,
        n > 0,
        d > 0,
    ensures
        half <= nearest(half, n, d).m < 2 * half,
        exponent_of(half, n, d) <= nearest(half, n, d).e <= exponent_of(half, n, d) + 1,
{
    let e = exponent_of(half, n, d);
    lemma_exponent_fits(half, n, d);
    let t = n * power(-e);
    let u = d * power(e);
    lemma2_to64();
    if e >= 0 {
        lemma_pow2_pos(e as nat);
    }
    assert(u > 0) by (nonlinear_arith)
        requires
            u == d * power(e),
            d > 0,
            power(e) > 0,
    ;
    vstd::arithmetic::div_mod::lemma_fundamental_div_mod(t as int, u as int);
    let q = (t / u) as int;
    let r = (t % u) as int;
    assert(half <= q < 2 * half) by (nonlinear_arith)
        requires
            t == u * q + r,
            0 <= r < u,
            half * u <= t < 2 * half * u,
    ;
}

/// The exponents of ratios of machine integers.
pub proof fn lemma_exponent_range(half: nat, n: nat, d: nat)
    requires
        0 < half <= 0x10_0000_0000_0000,
        0 < n <= u64::MAX,
        0 < d <= u64::MAX,
    ensures
        -118 < exponent_of(half, n, d) < 118,
{
    let e = exponent_of(half, n, d);
    lemma_exponent_fits(half, n, d);
    lemma2_to64();
    if e > 0 {
        let p = pow2(e as nat);
        assert(half * (d * p) >= p) by (nonlinear_arith)
            requires
                half >= 1,
                d >= 1,
        ;
        lemma_small_power(e as nat);
    } else if e < 0 {
        let p = pow2((-e) as nat);
        assert(n * p >= p) by (nonlinear_arith)
            requires
                n >= 1,
        ;
        assert(2 * half * (d * 1) <= 0x20_0000_0000_0000 * u64::MAX) by (nonlinear_arith)
            requires
                half <= 0x10_0000_0000_0000,
                d <= u64::MAX,
        ;
        lemma_small_power((-e) as nat);
    }
}

/// A quotient is the nearest representable number to the ratio of the two counts.
pub proof fn law_quotient_of_counts(half: nat, a: Scaled, b: Scaled, k: int)
    requires
        half > 0,
        a.m > 0,
        b.m > 0,
        a.e + k >= 0,
        b.e + k >= 0,
    ensures
        quotient(half, a, b) == nearest(half, count(a, k), count(b, k)),
{
    law_nearest_scales(half, a.m, b.m, (a.e + k) as nat, (b.e + k) as nat);
}

/// A multiple is the nearest representable number to the multiple of the count.
pub proof fn law_multiple_of_count(half: nat, a: Scaled, c: nat, k: nat)
    requires
        half > 0,
        a.m > 0,
        c > 0,
        a.e + k >= 0,
    ensures
        multiple(half, a, c) == nearest(half, count(a, k as int) * c, pow2(k)),
{
    assert(a.m * c > 0) by (nonlinear_arith)
        requires
            a.m > 0,
            c > 0,
    ;
    law_nearest_scales(half, a.m * c, 1, (a.e + k) as nat, k);
    let p = pow2((a.e + k) as nat);
    assert((a.m * c) * p == a.m * p * c) by (nonlinear_arith);
    assert(1 * pow2(k) == pow2(k));
}

/// A positive number at some precision.
#[derive(Clone, Copy)]
pub struct Float {
    pub significand: u64,
    pub exponent: i32,
}

impl View for Float {
    type V = Scaled;

    open spec fn view(&self) -> Scaled {
        Scaled { m: self.significand as nat, e: self.exponent as int }
    }
}

/// A power of two below two to the power of 118 has an exponent below 118.
proof fn lemma_small_power(k: nat)
    requires
        pow2(k) < 0x40_0000_0000_0000 * 0x1_0000_0000_0000_0000,
    ensures
        k < 118,
{
    lemma2_to64();
    lemma2_to64_rest();
    lemma_pow2_adds(54, 64);
    if k > 118 {
        lemma_pow2_strictly_increases(118, k);
    }
}

/// The representable number nearest to `n / d`.
pub fn nearest_ratio(half: u64, n: u64, d: u64) -> (r: Float)
    requires
        1 <= half <= HALF_53,
        n > 0,
        d > 0,
    ensures
        r@ == nearest(half as nat, n as nat, d as nat),
        half <= r.significand < 2 * half,
        -118 < r.exponent <= 118,
{
    let mut num: u128 = n as u128;
    let mut den: u128 = d as u128;
    let wide: u128 = half as u128;
    let mut e: i32 = 0;
    proof {
        lemma2_to64();
    }
    assert(wide * den <= 0x10_0000_0000_0000 * 0xffff_ffff_ffff_ffff) by (nonlinear_arith)
        requires
            wide <= 0x10_0000_0000_0000,
            den <= 0xffff_ffff_ffff_ffff,
    ;
    if num < wide * den {
        let ghost mut k: nat = 0;
        while num < wide * den
            invariant
                n > 0,
                d > 0,
                den == d,
                1 <= wide <= 0x10_0000_0000_0000,
                wide * den <= 0x10_0000_0000_0000 * 0xffff_ffff_ffff_ffff,
                num == n as nat * pow2(k),
                num < 2 * (wide * den),
                e == -(k as int),
                k <= 118,
            decreases 2 * (wide * den) - num,
        {
            proof {
                lemma_pow2_unfold(k + 1);
                lemma_pow2_pos(k);
                let p = pow2(k);
                assert(2 * (n as nat * p) == n as nat * (2 * p)) by (nonlinear_arith);
                assert(n as nat * p >= p) by (nonlinear_arith)
                    requires
                        n > 0,
                ;
                lemma_small_power(k);
                k = k + 1;
            }
            num = num * 2;
            e = e - 1;
        }
        proof {
            lemma_pow2_pos(k);
            let p = pow2(k);
            assert(n as nat * p >= p) by (nonlinear_arith)
                requires
                    n > 0,
            ;
            lemma_small_power(k);
        }
    } else {
        let ghost mut k: nat = 0;
        while num >= 2 * (wide * den)
            invariant
                n > 0,
                d > 0,
                num == n,
                1 <= wide <= 0x10_0000_0000_0000,
                den == d as nat * pow2(k),
                wide * den <= num,
                e == k,
                k <= 118,
            decreases num - wide * den,
        {
            proof {
                lemma_pow2_unfold(k + 1);
                lemma_pow2_pos(k);
                let p = pow2(k);
                assert(2 * (d as nat * p) == d as nat * (2 * p)) by (nonlinear_arith);
                assert(d as nat * p >= p) by (nonlinear_arith)
                    requires
                        d > 0,
                ;
                assert(wide * den >= den) by (nonlinear_arith)
                    requires
                        wide >= 1,
                ;
                assert(wide * (2 * den) == 2 * (wide * den)) by (nonlinear_arith);
                assert(wide * den > 0);
                lemma_small_power(k);
                k = k + 1;
            }
            den = den * 2;
            e = e + 1;
        }
        proof {
            lemma_pow2_pos(k);
            let p = pow2(k);
            assert(d as nat * p >= p) by (nonlinear_arith)
                requires
                    d > 0,
            ;
            assert(wide * den >= den) by (nonlinear_arith)
                requires
                    wide >= 1,
            ;
            lemma_small_power(k);
        }
    }
    assert(num == n as nat * power(-e));
    assert(den == d as nat * power(e as int));
    proof {
        assert(2 * wide * den == 2 * (wide * den)) by (nonlinear_arith);
        assert(fits_at(half as nat, n as nat, d as nat, e as int));
        lemma_fits_unique(
            half as nat,
            n as nat,
            d as nat,
            e as int,
            exponent_of(half as nat, n as nat, d as nat),
        );
        vstd::arithmetic::div_mod::lemma_fundamental_div_mod(num as int, den as int);
    }
    let q: u128 = num / den;
    let r: u128 = num % den;
    proof {
        let qi = q as int;
        let di = den as int;
        assert(wide <= q < 2 * wide) by (nonlinear_arith)
            requires
                num == di * qi + r,
                qi == q,
                di == den,
                0 <= r < di,
                wide * den <= num < 2 * (wide * den),
        ;
    }
    let m: u128 = if r < den - r || (r == den - r && q % 2 == 0) { q } else { q + 1 };
    assert(m == round_even(num as nat, den as nat));
    if m == 2 * wide {
        Float { significand: half, exponent: e + 1 }
    } else {
        Float { significand: m as u64, exponent: e }
    }
}

/// The representable number nearest to `a / b`.
pub fn quotient_of(half: u64, a: Float, b: Float) -> (r: Float)
    requires
        1 <= half <= HALF_53,
        a.significand > 0,
        b.significand > 0,
        -1000 <= a.exponent <= 1000,
        -1000 <= b.exponent <= 1000,
    ensures
        r@ == quotient(half as nat, a@, b@),
        half <= r.significand < 2 * half,
        a.exponent - b.exponent - 118 < r.exponent <= a.exponent - b.exponent + 118,
{
    let q = nearest_ratio(half, a.significand, b.significand);
    Float { significand: q.significand, exponent: q.exponent + a.exponent - b.exponent }
}

/// The representable number nearest to `c` times `a`.
pub fn multiple_of(half: u64, a: Float, c: u64) -> (r: Float)
    requires
        1 <= half <= HALF_53,
        a.significand > 0,
        c > 0,
        a.significand * c <= u64::MAX,
        -1000 <= a.exponent <= 1000,
    ensures
        r@ == multiple(half as nat, a@, c as nat),
        half <= r.significand < 2 * half,
        a.exponent - 118 < r.exponent <= a.exponent + 118,
{
    assert(a.significand * c > 0) by (nonlinear_arith)
        requires
            a.significand > 0,
            c > 0,
    ;
    let p = nearest_ratio(half, a.significand * c, 1);
    Float { significand: p.significand, exponent: p.exponent + a.exponent }
}

} // verus!
