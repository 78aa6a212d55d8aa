//! Double precision numbers, held as their IEEE 754 bit patterns.

use crate::digits;
use crate::rounding;
use crate::rounding::{Float, HALF_53};
use crate::text;
use vstd::arithmetic::power2::*;
use vstd::prelude::*;

verus! {

/// The weight of the sign bit.
pub const SIGN: u64 = 0x8000_0000_0000_0000;

/// The bit pattern of positive infinity; larger magnitudes are not numbers.
pub const INFINITY: u64 = 0x7ff0_0000_0000_0000;

/// A double precision number.
#[derive(Clone, Copy, Debug, PartialEq, Eq, Structural)]
pub struct Double {
    pub bits: u64,
}

/// The bit pattern of a representable positive number.
pub open spec fn encoded(x: rounding::Scaled) -> Double {
    Double { bits: ((x.e + 1074) * HALF_53 + x.m) as u64 }
}

impl Double {
    /// Whether the sign bit is set.
    pub open spec fn negative(self) -> bool {
        self.bits >= SIGN
    }

    /// The bits below the sign bit.
    pub open spec fn magnitude(self) -> int {
        if self.negative() {
            self.bits - SIGN
        } else {
            self.bits as int
        }
    }

    /// Whether the pattern stands for no number.
    pub open spec fn nan(self) -> bool {
        self.magnitude() > INFINITY
    }

    /// An integer that orders the patterns that stand for numbers as the numbers
    /// themselves are ordered; the two zeros share one.
    pub open spec fn order(self) -> int {
        if self.negative() {
            -self.magnitude()
        } else {
            self.magnitude()
        }
    }

    /// The numeric `self < other`, which never holds of a pattern that is no number.
    pub open spec fn lt(self, other: Double) -> bool {
        !self.nan() && !other.nan() && self.order() < other.order()
    }

    /// The numeric `self >= other`, which never holds of a pattern that is no
    /// number.
    pub open spec fn ge(self, other: Double) -> bool {
        !self.nan() && !other.nan() && self.order() >= other.order()
    }

    /// The absolute value of a finite number, as a significand and an exponent.
    pub open spec fn absolute(self) -> rounding::Scaled {
        let field = self.magnitude() / (HALF_53 as int);
        let fraction = self.magnitude() % (HALF_53 as int);
        if field == 0 {
            rounding::Scaled { m: fraction as nat, e: -1074 }
        } else {
            rounding::Scaled { m: (HALF_53 + fraction) as nat, e: field - 1075 }
        }
    }

    /// The number, counted in units of two to the power of -1074, of which every
    /// finite number is a multiple. Infinity stands at the place that follows the
    /// largest finite number.
    pub open spec fn units(self) -> int {
        let size = (self.absolute().m * pow2((self.absolute().e + 1074) as nat)) as int;
        if self.negative() {
            -size
        } else {
            size
        }
    }

    /// The number with one digit after the point.
    pub open spec fn one_decimal(self) -> Seq<char> {
        if self.nan() {
            "NaN"@
        } else {
            let sign = if self.negative() {
                seq!['-']
            } else {
                Seq::empty()
            };
            if self.magnitude() == INFINITY {
                sign + "inf"@
            } else {
                sign + tenths_text(tenths(self.absolute()))
            }
        }
    }

    /// Positive zero.
    pub fn zero() -> (d: Double)
        ensures
            d == (Double { bits: 0 }),
            d.units() == 0,
    {
        let d = Double { bits: 0 };
        assert(d.units() == 0) by {
            assert(0 * pow2(0) == 0) by (nonlinear_arith);
        }
        d
    }

    /// The bits below the sign bit.
    fn size(self) -> (m: u64)
        ensures
            m == self.magnitude(),
    {
        if self.bits >= SIGN {
            self.bits - SIGN
        } else {
            self.bits
        }
    }

    /// Whether `self` is less than `other`.
    pub fn less_than(self, other: Double) -> (r: bool)
        ensures
            r == self.lt(other),
    {
        let a: u64 = self.size();
        let b: u64 = other.size();
        if a > INFINITY || b > INFINITY {
            return false;
        }
        let below: bool = self.bits >= SIGN;
        let other_below: bool = other.bits >= SIGN;
        if below {
            if other_below {
                a > b
            } else {
                a > 0 || b > 0
            }
        } else {
            if other_below {
                false
            } else {
                a < b
            }
        }
    }

    /// Whether `self` is greater than or equal to `other`.
    pub fn at_least(self, other: Double) -> (r: bool)
        ensures
            r == self.ge(other),
    {
        if self.size() > INFINITY || other.size() > INFINITY {
            return false;
        }
        !self.less_than(other)
    }

    /// The number with one digit after the point.
    pub fn to_one_decimal(self) -> (s: String)
        ensures
            s@ == self.one_decimal(),
    {
        let mut out = String::new();
        let m: u64 = self.size();
        if m > INFINITY {
            out.append("NaN");
            assert(out@ =~= "NaN"@);
            return out;
        }
        if self.bits >= SIGN {
            out.push('-');
        }
        assert(out@ =~= if self.negative() {
            seq!['-']
        } else {
            Seq::empty()
        });
        if m == INFINITY {
            out.append("inf");
        } else {
            let field: u64 = m / HALF_53;
            let fraction: u64 = m % HALF_53;
            if field == 0 {
                append_tenths(&mut out, fraction, -1074);
            } else {
                append_tenths(&mut out, HALF_53 + fraction, field as i32 - 1075);
            }
        }
        out
    }
}

/// The absolute value, counted in units, grows with the magnitude.
proof fn lemma_units_grow(a: Double, b: Double)
    requires
        a.magnitude() < b.magnitude() <= INFINITY,
    ensures
        0 <= a.absolute().m * pow2((a.absolute().e + 1074) as nat) < b.absolute().m * pow2(
            (b.absolute().e + 1074) as nat,
        ),
{
    let h = HALF_53 as int;
    let f = a.magnitude() / h;
    let g = b.magnitude() / h;
    lemma2_to64();
    lemma_pow2_pos((a.absolute().e + 1074) as nat);
    lemma_pow2_pos((b.absolute().e + 1074) as nat);
    let p = pow2((a.absolute().e + 1074) as nat);
    let q = pow2((b.absolute().e + 1074) as nat);
    let m = a.absolute().m;
    let n = b.absolute().m;
    assert(f <= g);
    if a.absolute().e == b.absolute().e {
        assert(m < n);
        assert(0 <= m * p < n * p) by (nonlinear_arith)
            requires
                m < n,
                p > 0,
        ;
    } else {
        assert(f < g);
        assert(g >= 1 && n >= h && m < 2 * h);
        lemma_pow2_unfold((a.absolute().e + 1075) as nat);
        if a.absolute().e + 1 < b.absolute().e {
            lemma_pow2_strictly_increases(
                (a.absolute().e + 1075) as nat,
                (b.absolute().e + 1074) as nat,
            );
        }
        assert(0 <= m * p < n * q) by (nonlinear_arith)
            requires
                m < 2 * h,
                n >= h,
                2 * p <= q,
                p > 0,
                h > 0,
        ;
    }
}

/// The bit patterns that stand for numbers are ordered as the numbers are.
pub proof fn law_order_is_numeric(a: Double, b: Double)
    requires
        !a.nan(),
        !b.nan(),
    ensures
        a.order() < b.order() <==> a.units() < b.units(),
        a.order() == b.order() <==> a.units() == b.units(),
{
    let zero = Double { bits: 0 };
    assert(zero.absolute().m * pow2((zero.absolute().e + 1074) as nat) == 0) by (nonlinear_arith)
        requires
            zero.absolute().m == 0,
    ;
    if a.magnitude() > 0 {
        lemma_units_grow(zero, a);
    }
    if b.magnitude() > 0 {
        lemma_units_grow(zero, b);
    }
    if a.magnitude() < b.magnitude() {
        lemma_units_grow(a, b);
    } else if b.magnitude() < a.magnitude() {
        lemma_units_grow(b, a);
    }
}

/// The bit pattern of a representable number stands for that number.
pub proof fn law_encoded_is_exact(x: rounding::Scaled)
    requires
        HALF_53 <= x.m < 2 * HALF_53,
        -1074 <= x.e < 972,
    ensures
        encoded(x).absolute() == x,
        !encoded(x).negative(),
        !encoded(x).nan(),
        encoded(x).units() == x.m * pow2((x.e + 1074) as nat),
{
    let b = (x.e + 1074) * HALF_53 + x.m;
    assert(b / (HALF_53 as int) == x.e + 1075 && b % (HALF_53 as int) == x.m - HALF_53);
}

/// The bit pattern of a representable number.
pub fn encode(x: Float) -> (d: Double)
    requires
        HALF_53 <= x.significand < 2 * HALF_53,
        -1074 <= x.exponent < 972,
    ensures
        d == encoded(x@),
        !d.negative(),
        !d.nan(),
{
    proof {
        law_encoded_is_exact(x@);
    }
    Double { bits: ((x.exponent + 1074) as u64) * HALF_53 + x.significand }
}

/// `100 * part / whole` as double precision arithmetic gives it: both numbers are
/// converted, then divided, then multiplied, and each step is rounded.
pub open spec fn percentage(part: nat, whole: nat) -> Double {
    if part == 0 {
        Double { bits: 0 }
    } else {
        let half = HALF_53 as nat;
        let share = rounding::quotient(
            half,
            rounding::nearest(half, part, 1),
            rounding::nearest(half, whole, 1),
        );
        encoded(rounding::multiple(half, share, 100))
    }
}

/// `100 * part / whole` in double precision.
pub fn percentage_of(part: u64, whole: u64) -> (d: Double)
    requires
        whole > 0,
    ensures
        d == percentage(part as nat, whole as nat),
        !d.negative(),
        !d.nan(),
{
    if part == 0 {
        return Double { bits: 0 };
    }
    let a = rounding::nearest_ratio(HALF_53, part, 1);
    let b = rounding::nearest_ratio(HALF_53, whole, 1);
    let share = rounding::quotient_of(HALF_53, a, b);
    encode(rounding::multiple_of(HALF_53, share, 100))
}

/// The steps of a percentage, each counted in units of two to the power of -1074.
pub proof fn lemma_percentage_steps(part: nat, whole: nat)
    requires
        0 < part <= u64::MAX,
        0 < whole <= u64::MAX,
    ensures
        ({
            let half = HALF_53 as nat;
            let a = rounding::nearest(half, part, 1);
            let b = rounding::nearest(half, whole, 1);
            let share = rounding::quotient(half, a, b);
            let r = rounding::multiple(half, share, 100);
            let s = pow2(1074);
            &&& -118 < rounding::exponent_of(half, part, 1)
            &&& -118 < rounding::exponent_of(half, whole, 1)
            &&& -354 < rounding::exponent_of(
                half,
                rounding::count(a, 1074),
                rounding::count(b, 1074),
            )
            &&& -472 < rounding::exponent_of(half, rounding::count(share, 1074) * 100, s)
            &&& a.m > 0
            &&& b.m > 0
            &&& share.m > 0
            &&& share == rounding::nearest(
                half,
                rounding::count(a, 1074),
                rounding::count(b, 1074),
            )
            &&& r == rounding::nearest(half, rounding::count(share, 1074) * 100, s)
            &&& rounding::count(a, 1074) > 0
            &&& rounding::count(b, 1074) > 0
            &&& rounding::count(share, 1074) > 0
            &&& percentage(part, whole).units() == rounding::count(r, 1074)
            &&& !percentage(part, whole).negative()
            &&& !percentage(part, whole).nan()
        }),
{
    let half = HALF_53 as nat;
    let a = rounding::nearest(half, part, 1);
    let b = rounding::nearest(half, whole, 1);
    let q = rounding::nearest(half, a.m, b.m);
    let share = rounding::quotient(half, a, b);
    let p = rounding::nearest(half, share.m * 100, 1);
    let r = rounding::multiple(half, share, 100);
    rounding::lemma_nearest_in_range(half, part, 1);
    rounding::lemma_nearest_in_range(half, whole, 1);
    rounding::lemma_exponent_range(half, part, 1);
    rounding::lemma_exponent_range(half, whole, 1);
    rounding::lemma_nearest_in_range(half, a.m, b.m);
    rounding::lemma_exponent_range(half, a.m, b.m);
    rounding::lemma_nearest_in_range(half, share.m * 100, 1);
    rounding::lemma_exponent_range(half, share.m * 100, 1);
    rounding::law_quotient_of_counts(half, a, b, 1074);
    rounding::law_multiple_of_count(half, share, 100, 1074);
    law_encoded_is_exact(r);
    lemma_count_positive(a);
    lemma_count_positive(b);
    lemma_count_positive(share);
    lemma_pow2_pos(1074);
    rounding::lemma_nearest_in_range(half, rounding::count(a, 1074), rounding::count(b, 1074));
    rounding::lemma_nearest_in_range(half, rounding::count(share, 1074) * 100, pow2(1074));
}

proof fn lemma_count_positive(x: rounding::Scaled)
    requires
        x.m > 0,
    ensures
        rounding::count(x, 1074) > 0,
{
    let p = pow2((x.e + 1074) as nat);
    lemma_pow2_pos((x.e + 1074) as nat);
    assert(x.m * p > 0) by (nonlinear_arith)
        requires
            x.m > 0,
            p > 0,
    ;
}

/// Of the same whole, a larger part has no smaller percentage.
pub proof fn law_percentage_monotone(part: nat, larger: nat, whole: nat)
    requires
        part <= larger <= u64::MAX,
        0 < whole <= u64::MAX,
    ensures
        percentage(part, whole).order() <= percentage(larger, whole).order(),
{
    if part > 0 {
        let half = HALF_53 as nat;
        let s = pow2(1074);
        lemma_percentage_steps(part, whole);
        lemma_percentage_steps(larger, whole);
        lemma_pow2_pos(1074);
        let a = rounding::nearest(half, part, 1);
        let c = rounding::nearest(half, larger, 1);
        let b = rounding::nearest(half, whole, 1);
        rounding::law_nearest_monotone(half, part, 1, larger, 1, 1074);
        let x = rounding::count(a, 1074);
        let y = rounding::count(c, 1074);
        let z = rounding::count(b, 1074);
        assert(x * z <= y * z) by (nonlinear_arith)
            requires
                x <= y,
        ;
        rounding::law_nearest_monotone(half, x, z, y, z, 1074);
        let v = rounding::count(rounding::quotient(half, a, b), 1074) * 100;
        let w = rounding::count(rounding::quotient(half, c, b), 1074) * 100;
        assert(v * s <= w * s) by (nonlinear_arith)
            requires
                v <= w,
        ;
        rounding::law_nearest_monotone(half, v, s, w, s, 1074);
        law_order_is_numeric(percentage(part, whole), percentage(larger, whole));
    } else if larger > 0 {
        lemma_percentage_steps(larger, whole);
    }
}

/// A computed percentage differs from the exact one, `100 * part / whole`, by at most
/// one part in two to the power of 50.
pub proof fn law_percentage_accuracy(part: nat, whole: nat)
    requires
        0 < part <= u64::MAX,
        0 < whole <= u64::MAX,
    ensures
        0x4_0000_0000_0000 * rounding::distance(
            percentage(part, whole).units() as nat * whole,
            100 * part * pow2(1074),
        ) <= 100 * part * pow2(1074),
{
    let half = HALF_53 as nat;
    let h = 2 * half;
    let s = pow2(1074);
    lemma_percentage_steps(part, whole);
    lemma_pow2_pos(1074);
    let sa = rounding::nearest(half, part, 1);
    let sb = rounding::nearest(half, whole, 1);
    let sq = rounding::quotient(half, sa, sb);
    let a = rounding::count(sa, 1074);
    let b = rounding::count(sb, 1074);
    let q = rounding::count(sq, 1074);
    let r = rounding::count(rounding::multiple(half, sq, 100), 1074);
    rounding::law_nearest_relative_error(half, part, 1, 1074);
    rounding::law_nearest_relative_error(half, whole, 1, 1074);
    rounding::law_nearest_relative_error(half, a, b, 1074);
    rounding::law_nearest_relative_error(half, q * 100, s, 1074);
    let ps = part * s;
    let ws = whole * s;
    assert(h * rounding::distance(a, ps) <= ps);
    assert(h * rounding::distance(b, ws) <= ws);
    assert(h * rounding::distance(q * b, a * s) <= a * s);
    assert(h * rounding::distance(r, q * 100) <= q * 100) by {
        let g = rounding::distance(r, q * 100);
        assert(rounding::distance(r * s, (q * 100) * s) == g * s) by (nonlinear_arith)
            requires
                g == rounding::distance(r, q * 100),
                r <= q * 100 ==> rounding::distance(r, q * 100) == q * 100 - r,
                r > q * 100 ==> rounding::distance(r, q * 100) == r - q * 100,
                r * s <= (q * 100) * s ==> rounding::distance(r * s, (q * 100) * s) == (q * 100) * s - r
                    * s,
                r * s > (q * 100) * s ==> rounding::distance(r * s, (q * 100) * s) == r * s - (q * 100)
                    * s,
                s > 0,
        ;
        assert(h * g <= q * 100) by (nonlinear_arith)
            requires
                h * (g * s) <= (q * 100) * s,
                s > 0,
        ;
    }
    lemma_product_bounds(h, part, whole, s, a, b, q, r);
}

/// A number within one part in `h` of another.
pub proof fn lemma_within(h: nat, x: nat, y: nat)
    requires
        h * rounding::distance(x, y) <= y,
    ensures
        h * x <= (h + 1) * y,
        h * x >= (h - 1) * y,
{
    assert((h + 1) * y == h * y + y && (h - 1) * y == h * y - y) by (nonlinear_arith);
    if x <= y {
        assert(h * (y - x) == h * y - h * x) by (nonlinear_arith);
    } else {
        assert(h * (x - y) == h * x - h * y) by (nonlinear_arith);
    }
}

/// Four small factors, multiplied.
proof fn lemma_chain(v: nat, x: nat, y: nat, z: nat, t: nat)
    requires
        0x20_0000_0000_0000 * x >= 0x1f_ffff_ffff_ffff * v,
        0x20_0000_0000_0000 * x <= 0x20_0000_0000_0001 * v,
        0x20_0000_0000_0000 * x <= 0x20_0000_0000_0001 * (100 * y),
        0x20_0000_0000_0000 * x >= 0x1f_ffff_ffff_ffff * (100 * y),
        0x20_0000_0000_0000 * y <= 0x20_0000_0000_0001 * z,
        0x20_0000_0000_0000 * y >= 0x1f_ffff_ffff_ffff * z,
        0x20_0000_0000_0000 * z <= 0x20_0000_0000_0001 * t,
        0x20_0000_0000_0000 * z >= 0x1f_ffff_ffff_ffff * t,
    ensures
        0x4_0000_0000_0000 * v <= 0x4_0000_0000_0001 * (100 * t),
        0x4_0000_0000_0000 * v >= 0x3_ffff_ffff_ffff * (100 * t),
{
}

/// Four rounded steps, bounded together.
proof fn lemma_product_bounds(h: nat, p: nat, w: nat, s: nat, a: nat, b: nat, q: nat, r: nat)
    requires
        h == 0x20_0000_0000_0000,
        s > 0,
        h * rounding::distance(a, p * s) <= p * s,
        h * rounding::distance(b, w * s) <= w * s,
        h * rounding::distance(q * b, a * s) <= a * s,
        h * rounding::distance(r, q * 100) <= q * 100,
    ensures
        0x4_0000_0000_0000 * rounding::distance(r * w, 100 * p * s) <= 100 * p * s,
{
    let ps = p * s;
    let ws = w * s;
    lemma_within(h, r, q * 100);
    lemma_within(h, q * b, a * s);
    lemma_within(h, a, ps);
    lemma_within(h, b, ws);
    let rb = r * b;
    let qb = q * b;
    let scaled_a = a * s;
    let pss = ps * s;
    assert(h * rb <= (h + 1) * (100 * qb) && h * rb >= (h - 1) * (100 * qb)) by (nonlinear_arith)
        requires
            rb == r * b,
            qb == q * b,
            h * r <= (h + 1) * (q * 100),
            h * r >= (h - 1) * (q * 100),
    ;
    assert(h * scaled_a <= (h + 1) * pss && h * scaled_a >= (h - 1) * pss) by (nonlinear_arith)
        requires
            scaled_a == a * s,
            pss == ps * s,
            h * a <= (h + 1) * ps,
            h * a >= (h - 1) * ps,
    ;
    let rws = r * ws;
    assert(h * rb >= (h - 1) * rws && h * rb <= (h + 1) * rws) by (nonlinear_arith)
        requires
            rb == r * b,
            rws == r * ws,
            h * b >= (h - 1) * ws,
            h * b <= (h + 1) * ws,
    ;
    let c: nat = 0x4_0000_0000_0000;
    lemma_chain(rws, rb, qb, scaled_a, pss);
    let rw = r * w;
    let e = 100 * p * s;
    assert(rws == rw * s) by (nonlinear_arith)
        requires
            rws == r * ws,
            ws == w * s,
            rw == r * w,
    ;
    assert(100 * pss == e * s) by (nonlinear_arith)
        requires
            pss == p * s * s,
            e == 100 * p * s,
    ;
    assert(c * rw <= (c + 1) * e && c * rw >= (c - 1) * e) by (nonlinear_arith)
        requires
            c * (rw * s) <= (c + 1) * (e * s),
            c * (rw * s) >= (c - 1) * (e * s),
            s > 0,
    ;
}

/// Whether a number differs from `100 * part / whole` by at most one part in two to the
/// power of 50. Both are counted in units of two to the power of -1074.
pub open spec fn is_near_percentage(d: Double, part: int, whole: int) -> bool {
    let exact = 100 * part * pow2(1074);
    &&& !d.nan()
    &&& d.units() >= 0
    &&& 0x4_0000_0000_0000 * (d.units() * whole - exact) <= exact
    &&& 0x4_0000_0000_0000 * (exact - d.units() * whole) <= exact
}

/// A computed percentage is near the exact one.
pub proof fn law_percentage_is_near(part: nat, whole: nat)
    requires
        part <= u64::MAX,
        0 < whole <= u64::MAX,
    ensures
        is_near_percentage(percentage(part, whole), part as int, whole as int),
{
    let d = percentage(part, whole);
    if part == 0 {
        lemma_zero_units();
        assert(0 * pow2(1074) == 0) by (nonlinear_arith);
        assert(0 * whole == 0) by (nonlinear_arith);
    } else {
        lemma_percentage_steps(part, whole);
        law_percentage_accuracy(part, whole);
    }
}

/// The number whose bits are all clear is zero.
pub proof fn lemma_zero_units()
    ensures
        (Double { bits: 0 }).units() == 0,
        !(Double { bits: 0 }).nan(),
{
    assert(0 * pow2(0) == 0) by (nonlinear_arith);
}

/// The comparisons are those of numbers: a number is less than another, or at least as
/// large, by its value alone, and neither holds of a pattern that is no number.
pub proof fn law_comparisons_are_numeric(a: Double, b: Double)
    ensures
        a.lt(b) <==> !a.nan() && !b.nan() && a.units() < b.units(),
        a.ge(b) <==> !a.nan() && !b.nan() && a.units() >= b.units(),
{
    if !a.nan() && !b.nan() {
        law_order_is_numeric(a, b);
    }
}

/// The tenths of a number are those nearest to it: it differs from them by half a tenth
/// at most. The number is counted in units of two to the power of `-k`.
pub proof fn law_tenths_are_nearest(x: rounding::Scaled, k: nat)
    requires
        x.e + k >= 0,
    ensures
        2 * (10 * rounding::count(x, k as int) - tenths(x) * pow2(k)) <= pow2(k),
        2 * (tenths(x) * pow2(k) - 10 * rounding::count(x, k as int)) <= pow2(k),
{
    lemma_tenths_of_count(x, k);
    lemma_pow2_pos(k);
    rounding::lemma_round_even_near(10 * rounding::count(x, k as int), pow2(k), 0);
}

/// A nonnegative number in tenths, rounded to the nearest, on a tie to the even one.
pub open spec fn tenths(x: rounding::Scaled) -> nat {
    if x.e >= 0 {
        10 * (x.m * pow2(x.e as nat))
    } else {
        rounding::round_even(10 * x.m, pow2((-x.e) as nat))
    }
}

/// A number of tenths with one digit after the point.
pub open spec fn tenths_text(t: nat) -> Seq<char> {
    text::decimal(t / 10) + seq!['.', text::digit_char((t % 10) as int)]
}

/// The tenths of a number by its count in units of two to the power of `-k`.
proof fn lemma_tenths_of_count(x: rounding::Scaled, k: nat)
    requires
        x.e + k >= 0,
    ensures
        tenths(x) == rounding::round_even(10 * rounding::count(x, k as int), pow2(k)),
{
    let c = rounding::count(x, k as int);
    let u = pow2(k);
    lemma_pow2_pos(k);
    if x.e >= 0 {
        let p = pow2(x.e as nat);
        lemma_pow2_adds(x.e as nat, k);
        assert((10 * (x.m * p)) * u == 10 * c) by (nonlinear_arith)
            requires
                c == x.m * (p * u),
        ;
        rounding::lemma_round_even_unique(10 * c, u, 10 * (x.m * p));
    } else {
        let small = pow2((-x.e) as nat);
        let p = pow2((x.e + k) as nat);
        lemma_pow2_pos((-x.e) as nat);
        lemma_pow2_adds((x.e + k) as nat, (-x.e) as nat);
        assert((10 * c) * small == (10 * x.m) * u) by (nonlinear_arith)
            requires
                c == x.m * p,
                u == p * small,
        ;
        rounding::lemma_round_even_ratio(10 * x.m, small, 10 * c, u);
    }
}

/// A larger number has no fewer tenths.
pub proof fn law_tenths_monotone(x: rounding::Scaled, y: rounding::Scaled, k: nat)
    requires
        x.e + k >= 0,
        y.e + k >= 0,
        rounding::count(x, k as int) <= rounding::count(y, k as int),
    ensures
        tenths(x) <= tenths(y),
{
    lemma_tenths_of_count(x, k);
    lemma_tenths_of_count(y, k);
    lemma_pow2_pos(k);
    rounding::lemma_round_even_monotone(
        10 * rounding::count(x, k as int),
        10 * rounding::count(y, k as int),
        pow2(k),
    );
}

/// Writes `m` times two to the power of `e`, with one digit after the point, at the
/// end of `out`.
pub fn append_tenths(out: &mut String, m: u64, e: i32)
    requires
        m <= 2 * HALF_53,
        e >= 0 ==> m > 0,
        -2000 <= e,
    ensures
        final(out)@ == old(out)@ + tenths_text(tenths(rounding::Scaled { m: m as nat, e: e as int })),
{
    let ghost start = out@;
    if e >= 0 {
        digits::append_scaled(out, m, e as u32);
        out.push('.');
        out.push('0');
        proof {
            let whole = m as nat * pow2(e as nat);
            assert((10 * whole) / 10 == whole && (10 * whole) % 10 == 0);
            assert(out@ =~= start + tenths_text(10 * whole));
        }
    } else {
        let t: u64 = rounded_shift(10 * m, (-e) as u32);
        text::append_decimal(out, t / 10);
        out.push('.');
        out.push(text::digit(t % 10));
        assert(out@ =~= start + tenths_text(t as nat));
    }
}

/// `n` divided by two to the power of `k`, rounded to the nearest integer, on a tie
/// to the even one.
fn rounded_shift(n: u64, k: u32) -> (q: u64)
    requires
        n <= 0x8000_0000_0000_0000,
        k > 0,
    ensures
        q == rounding::round_even(n as nat, pow2(k as nat)),
{
    proof {
        lemma2_to64();
        lemma2_to64_rest();
    }
    if k >= 64 {
        proof {
            if k > 64 {
                lemma_pow2_strictly_increases(64, k as nat);
            }
            vstd::arithmetic::div_mod::lemma_basic_div(n as int, pow2(k as nat) as int);
            vstd::arithmetic::div_mod::lemma_small_mod(n as nat, pow2(k as nat));
        }
        return 0;
    }
    proof {
        if k < 63 {
            lemma_pow2_strictly_increases(k as nat, 63);
        }
        vstd::bits::lemma_u64_shl_is_mul(1, k as u64);
        lemma_pow2_pos(k as nat);
    }
    let d: u64 = 1u64 << (k as u64);
    let q: u64 = n / d;
    let r: u64 = n % d;
    if r < d - r || (r == d - r && q % 2 == 0) {
        q
    } else {
        q + 1
    }
}

/// A finite number is written with one digit after the point as the number of tenths
/// nearest to it, with a minus in front if it is negative; the others are named.
pub proof fn law_one_decimal_is_nearest(d: Double) -> (t: nat)
    ensures
        d.nan() ==> d.one_decimal() == "NaN"@,
        !d.nan() && d.magnitude() == INFINITY && !d.negative() ==> d.one_decimal() == "inf"@,
        !d.nan() && d.magnitude() == INFINITY && d.negative() ==> d.one_decimal() == seq!['-']
            + "inf"@,
        d.magnitude() < INFINITY ==> {
            let size = if d.units() < 0 {
                -d.units()
            } else {
                d.units()
            };
            &&& 2 * (10 * size - t * pow2(1074)) <= pow2(1074)
            &&& 2 * (t * pow2(1074) - 10 * size) <= pow2(1074)
            &&& d.one_decimal() == (if d.negative() {
                seq!['-']
            } else {
                Seq::empty()
            }) + (text::decimal(t / 10) + seq!['.'] + text::decimal(t % 10))
        },
{
    let x = d.absolute();
    let t = tenths(x);
    let size = rounding::count(x, 1074);
    assert(Seq::<char>::empty() + "inf"@ =~= "inf"@);
    if d.magnitude() < INFINITY {
        law_tenths_are_nearest(x, 1074);
        assert(text::decimal(t % 10) =~= seq![text::digit_char((t % 10) as int)]);
        assert(tenths_text(t) =~= text::decimal(t / 10) + seq!['.'] + text::decimal(t % 10));
        assert(d.units() == (if d.negative() {
            -(size as int)
        } else {
            size as int
        }));
    }
    t
}

} // verus!
