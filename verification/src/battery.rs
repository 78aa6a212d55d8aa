//! The state of the battery, from what the system says of its power sources.

use crate::double;
use crate::rounding;
use crate::rounding::HALF_24;
use crate::text;
use vstd::arithmetic::power2::*;
use vstd::prelude::*;

verus! {

/// The power source that supplies the system.
#[derive(Debug, Clone, Copy, PartialEq, Eq, Structural)]
pub enum PowerSource {
    Battery,
    AcPower,
    Ups,
    Unknown,
}

/// A snapshot of the battery.
#[derive(Debug, Clone, Copy, PartialEq, Eq, Structural)]
pub struct BatteryState {
    /// The charge in percent.
    pub charge_percent: u8,
    /// Whether the battery is being charged.
    pub is_charging: bool,
    /// What supplies the system.
    pub source: PowerSource,
}

/// What the system says of one power source, as far as it says it.
pub struct PowerSourceRecord {
    pub kind: Option<String>,
    pub current_capacity: Option<i32>,
    pub max_capacity: Option<i32>,
    pub is_charging: Option<bool>,
    pub state: Option<String>,
}

/// A positive number rounded to the nearest integer, a half upwards.
pub open spec fn rounded(x: rounding::Scaled) -> nat {
    if x.e >= 0 {
        x.m * pow2(x.e as nat)
    } else {
        (2 * x.m + pow2((-x.e) as nat)) / (2 * pow2((-x.e) as nat))
    }
}

/// `100 * current / maximum` as single precision arithmetic gives it, for positive
/// numbers: both are converted, then divided, then multiplied, and each step is
/// rounded.
pub open spec fn charge_share(current: nat, maximum: nat) -> rounding::Scaled {
    let half = HALF_24 as nat;
    rounding::multiple(
        half,
        rounding::quotient(
            half,
            rounding::nearest(half, current, 1),
            rounding::nearest(half, maximum, 1),
        ),
        100,
    )
}

/// The charge in percent: `100 * current / maximum`, rounded to the nearest integer
/// and at most 100. A capacity that is not positive gives zero.
pub open spec fn charge(current: int, maximum: int) -> nat {
    if current <= 0 || maximum <= 0 {
        0
    } else if rounded(charge_share(current as nat, maximum as nat)) > 100 {
        100
    } else {
        rounded(charge_share(current as nat, maximum as nat))
    }
}

/// The steps of a charge, each counted in units of two to the power of -1000.
proof fn lemma_charge_steps(current: nat, maximum: nat)
    requires
        0 < current <= i32::MAX,
        0 < maximum <= i32::MAX,
    ensures
        ({
            let half = HALF_24 as nat;
            let a = rounding::nearest(half, current, 1);
            let b = rounding::nearest(half, maximum, 1);
            let share = rounding::quotient(half, a, b);
            let r = charge_share(current, maximum);
            let s = pow2(1000);
            &&& -118 < rounding::exponent_of(half, current, 1)
            &&& -118 < rounding::exponent_of(half, maximum, 1)
            &&& -354 < rounding::exponent_of(
                half,
                rounding::count(a, 1000),
                rounding::count(b, 1000),
            )
            &&& -472 < rounding::exponent_of(half, rounding::count(share, 1000) * 100, s)
            &&& -472 < r.e
            &&& half <= r.m < 2 * half
            &&& share == rounding::nearest(
                half,
                rounding::count(a, 1000),
                rounding::count(b, 1000),
            )
            &&& r == rounding::nearest(half, rounding::count(share, 1000) * 100, s)
            &&& rounding::count(a, 1000) > 0
            &&& rounding::count(b, 1000) > 0
            &&& rounding::count(share, 1000) > 0
        }),
{
    let half = HALF_24 as nat;
    let a = rounding::nearest(half, current, 1);
    let b = rounding::nearest(half, maximum, 1);
    let share = rounding::quotient(half, a, b);
    rounding::lemma_nearest_in_range(half, current, 1);
    rounding::lemma_nearest_in_range(half, maximum, 1);
    rounding::lemma_exponent_range(half, current, 1);
    rounding::lemma_exponent_range(half, maximum, 1);
    rounding::lemma_nearest_in_range(half, a.m, b.m);
    rounding::lemma_exponent_range(half, a.m, b.m);
    rounding::lemma_nearest_in_range(half, share.m * 100, 1);
    rounding::lemma_exponent_range(half, share.m * 100, 1);
    rounding::law_quotient_of_counts(half, a, b, 1000);
    rounding::law_multiple_of_count(half, share, 100, 1000);
    lemma_count_positive(a);
    lemma_count_positive(b);
    lemma_count_positive(share);
    lemma_pow2_pos(1000);
    rounding::lemma_nearest_in_range(half, rounding::count(a, 1000), rounding::count(b, 1000));
    rounding::lemma_nearest_in_range(half, rounding::count(share, 1000) * 100, pow2(1000));
}

proof fn lemma_count_positive(x: rounding::Scaled)
    requires
        x.m > 0,
    ensures
        rounding::count(x, 1000) > 0,
{
    let p = pow2((x.e + 1000) as nat);
    lemma_pow2_pos((x.e + 1000) as nat);
    assert(x.m * p > 0) by (nonlinear_arith)
        requires
            x.m > 0,
            p > 0,
    ;
}

/// Rounding over one common power of two.
proof fn lemma_rounded_count(x: rounding::Scaled, k: nat)
    requires
        x.e + k >= 0,
    ensures
        rounded(x) == (2 * rounding::count(x, k as int) + pow2(k)) / (2 * pow2(k)),
{
    let q = pow2(k);
    let y = rounding::count(x, k as int);
    lemma_pow2_pos(k);
    if x.e >= 0 {
        lemma_pow2_adds(x.e as nat, k);
        let v = x.m * pow2(x.e as nat);
        assert(y == v * q) by (nonlinear_arith)
            requires
                y == x.m * (pow2(x.e as nat) * q),
                v == x.m * pow2(x.e as nat),
        ;
        assert((2 * y + q) == v * (2 * q) + q) by (nonlinear_arith)
            requires
                y == v * q,
        ;
        vstd::arithmetic::div_mod::lemma_fundamental_div_mod_converse(
            (2 * y + q) as int,
            (2 * q) as int,
            v as int,
            q as int,
        );
    } else {
        let p = pow2((-x.e) as nat);
        let t = pow2((x.e + k) as nat);
        lemma_pow2_pos((-x.e) as nat);
        lemma_pow2_pos((x.e + k) as nat);
        lemma_pow2_adds((-x.e) as nat, (x.e + k) as nat);
        assert(2 * y + q == t * (2 * x.m + p) && 2 * q == t * (2 * p)) by (nonlinear_arith)
            requires
                y == x.m * t,
                q == p * t,
        ;
        let n = (2 * x.m + p) as int;
        let d = (2 * p) as int;
        let u = n / d;
        let v = n % d;
        vstd::arithmetic::div_mod::lemma_fundamental_div_mod(n, d);
        assert(t * n == u * (t * d) + t * v && 0 <= t * v < t * d) by (nonlinear_arith)
            requires
                n == d * u + v,
                0 <= v < d,
                t > 0,
        ;
        vstd::arithmetic::div_mod::lemma_fundamental_div_mod_converse(t * n, t * d, u, t * v);
    }
}

/// The charge is at most 100 percent, and that of a full battery is 100 percent.
pub proof fn law_charge_range(current: int, maximum: int)
    requires
        current <= i32::MAX,
        maximum <= i32::MAX,
    ensures
        charge(current, maximum) <= 100,
        0 < maximum <= current ==> charge(current, maximum) == 100,
{
    if 0 < maximum <= current {
        let half = HALF_24 as nat;
        let c = current as nat;
        let m = maximum as nat;
        let s = pow2(1000);
        lemma_charge_steps(c, m);
        lemma_pow2_pos(1000);
        let a = rounding::nearest(half, c, 1);
        let b = rounding::nearest(half, m, 1);
        let share = rounding::quotient(half, a, b);
        let r = charge_share(c, m);
        rounding::law_nearest_monotone(half, m, 1, c, 1, 1000);
        let x = rounding::count(a, 1000);
        let z = rounding::count(b, 1000);
        // One and a hundred are representable.
        rounding::law_nearest_exact(half, 1);
        rounding::law_nearest_exact(half, 100);
        rounding::lemma_exponent_range(half, 1, 1);
        rounding::lemma_exponent_range(half, 100, 1);
        lemma_whole_count(1);
        lemma_whole_count(100);
        rounding::law_nearest_monotone(half, 1, 1, x, z, 1000);
        let v = rounding::count(share, 1000) * 100;
        assert(rounding::count(share, 1000) >= s);
        rounding::law_nearest_monotone(half, 100, 1, v, s, 1000);
        let y = rounding::count(r, 1000);
        assert(y >= 100 * s);
        lemma_rounded_count(r, 1000);
        assert((2 * y + s) / (2 * s) >= 100) by (nonlinear_arith)
            requires
                y >= 100 * s,
                s > 0,
        ;
    }
}

/// For capacities of ordinary size the charge is the integer nearest to
/// `100 * current / maximum`, unless that lies halfway between two.
pub proof fn law_charge_nearest(current: int, maximum: int)
    requires
        0 < current <= 40_000,
        0 < maximum < 0x100_0000,
        (200 * current + maximum) % (2 * maximum) != 0,
    ensures
        charge(current, maximum) == (if (200 * current + maximum) / (2 * maximum) > 100 {
            100
        } else {
            (200 * current + maximum) / (2 * maximum)
        }),
{
    let half = HALF_24 as nat;
    let c = current as nat;
    let m = maximum as nat;
    let s = pow2(1000);
    lemma_pow2_pos(1000);
    lemma_charge_steps(c, m);
    let a = rounding::nearest(half, c, 1);
    let b = rounding::nearest(half, m, 1);
    let share = rounding::quotient(half, a, b);
    let r = charge_share(c, m);
    let x = rounding::count(a, 1000);
    let z = rounding::count(b, 1000);
    lemma_whole_count(c);
    lemma_whole_count(m);
    rounding::law_nearest_relative_error(half, x, z, 1000);
    let w = rounding::count(share, 1000);
    rounding::law_nearest_relative_error(half, w * 100, s, 1000);
    let y = rounding::count(r, 1000);
    let h = 2 * half;
    let cs = c * s;
    assert(h * rounding::distance(w * m, cs) <= cs) by {
        assert(w * z == w * m * s) by (nonlinear_arith)
            requires
                z == m * s,
        ;
        lemma_cancel(h, w * m, cs, s);
    }
    assert(h * rounding::distance(y, w * 100) <= w * 100) by {
        lemma_cancel(h, y, w * 100, s);
    }
    // Both errors together stay below one step.
    let ym = y * m;
    let wm = w * m;
    assert(h * rounding::distance(ym, wm * 100) <= wm * 100) by {
        lemma_expand(h, y, w * 100, m);
        assert(w * 100 * m == wm * 100) by (nonlinear_arith)
            requires
                wm == w * m,
        ;
    }
    assert(401 * cs < h * s) by (nonlinear_arith)
        requires
            cs == c * s,
            c <= 40_000,
            h == 0x100_0000,
            s > 0,
    ;
    assert(rounding::distance(2 * ym, 200 * cs) < s);
    let t = ((200 * current + maximum) / (2 * maximum)) as nat;
    let q = 2 * y + s;
    vstd::arithmetic::div_mod::lemma_fundamental_div_mod(200 * current + maximum, 2 * maximum);
    let v = (200 * current + maximum) % (2 * maximum);
    vstd::arithmetic::div_mod::lemma_mod_bound(200 * current + maximum, 2 * maximum);
    let g = 2 * m;
    assert(200 * c + m == g * t + v && 1 <= v <= g - 1);
    let gt = g * t;
    assert(200 * cs + m * s == gt * s + v * s) by (nonlinear_arith)
        requires
            cs == c * s,
            200 * c + m == gt + v,
    ;
    assert(v * s >= s && v * s <= g * s - s) by (nonlinear_arith)
        requires
            1 <= v <= g - 1,
            s > 0,
    ;
    assert(q * m == 2 * ym + m * s) by (nonlinear_arith)
        requires
            q == 2 * y + s,
            ym == y * m,
    ;
    assert(q * m > gt * s);
    assert(q * m < gt * s + g * s);
    assert(gt * s == t * (2 * s) * m) by (nonlinear_arith)
        requires
            gt == g * t,
            g == 2 * m,
    ;
    assert(g * s == 2 * s * m) by (nonlinear_arith)
        requires
            g == 2 * m,
    ;
    assert(q > t * (2 * s) && q < t * (2 * s) + 2 * s) by (nonlinear_arith)
        requires
            q * m > t * (2 * s) * m,
            q * m < t * (2 * s) * m + 2 * s * m,
            m > 0,
    ;
    vstd::arithmetic::div_mod::lemma_fundamental_div_mod_converse(
        q as int,
        (2 * s) as int,
        t as int,
        (q - t * (2 * s)) as int,
    );
    lemma_rounded_count(r, 1000);
}

/// The count of a whole number with at most 24 bits.
proof fn lemma_whole_count(n: nat)
    requires
        0 < n < 0x100_0000,
    ensures
        rounding::count(rounding::nearest(HALF_24 as nat, n, 1), 1000) == n * pow2(1000),
{
    let half = HALF_24 as nat;
    let x = rounding::nearest(half, n, 1);
    rounding::law_nearest_exact(half, n);
    rounding::lemma_nearest_in_range(half, n, 1);
    rounding::lemma_exponent_range(half, n, 1);
    lemma_pow2_adds((-x.e) as nat, (x.e + 1000) as nat);
    let p = pow2((-x.e) as nat);
    let t = pow2((x.e + 1000) as nat);
    assert((n * p) * t == n * (p * t)) by (nonlinear_arith);
}

/// A common factor does not matter to a relative distance.
proof fn lemma_expand(h: nat, a: nat, b: nat, s: nat)
    requires
        h * rounding::distance(a, b) <= b,
    ensures
        h * rounding::distance(a * s, b * s) <= b * s,
{
    let g = rounding::distance(a, b);
    if a <= b {
        assert(b * s - a * s == g * s && a * s <= b * s) by (nonlinear_arith)
            requires
                g == b - a,
                a <= b,
        ;
    } else {
        assert(a * s - b * s == g * s && a * s >= b * s) by (nonlinear_arith)
            requires
                g == a - b,
                a > b,
        ;
    }
    assert(h * (g * s) <= b * s) by (nonlinear_arith)
        requires
            h * g <= b,
    ;
}

/// A common factor can be taken out of a relative distance.
proof fn lemma_cancel(h: nat, a: nat, b: nat, s: nat)
    requires
        s > 0,
        h * rounding::distance(a * s, b * s) <= b * s,
    ensures
        h * rounding::distance(a, b) <= b,
{
    let g = rounding::distance(a, b);
    if a <= b {
        assert(b * s - a * s == g * s && a * s <= b * s) by (nonlinear_arith)
            requires
                g == b - a,
                a <= b,
        ;
    } else {
        assert(a * s - b * s == g * s && a * s >= b * s) by (nonlinear_arith)
            requires
                g == a - b,
                a > b,
        ;
    }
    assert(h * g <= b) by (nonlinear_arith)
        requires
            h * (g * s) <= b * s,
            s > 0,
    ;
}

/// The charge in percent.
pub fn charge_percent(current: i32, maximum: i32) -> (percent: u8)
    ensures
        percent == charge(current as int, maximum as int),
        percent <= 100,
        0 < maximum <= current ==> percent == 100,
        0 < current <= 40_000 && 0 < maximum < 0x100_0000 && (200 * current + maximum) % (2
            * maximum) != 0 ==> percent == (if (200 * current + maximum) / (2 * maximum) > 100 {
            100
        } else {
            (200 * current + maximum) / (2 * maximum)
        }),
{
    proof {
        law_charge_range(current as int, maximum as int);
        if 0 < current <= 40_000 && 0 < maximum < 0x100_0000 && (200 * current + maximum) % (2
            * maximum) != 0 {
            law_charge_nearest(current as int, maximum as int);
        }
    }
    if current <= 0 || maximum <= 0 {
        return 0;
    }
    let a = rounding::nearest_ratio(HALF_24, current as u64, 1);
    let b = rounding::nearest_ratio(HALF_24, maximum as u64, 1);
    let share = rounding::quotient_of(HALF_24, a, b);
    let r = rounding::multiple_of(HALF_24, share, 100);
    let ghost x = r@;
    if r.exponent >= 0 {
        proof {
            lemma_pow2_pos(x.e as nat);
            let p = pow2(x.e as nat);
            assert(x.m * p >= x.m) by (nonlinear_arith)
                requires
                    p >= 1,
            ;
        }
        return 100;
    }
    let k: u32 = (-r.exponent) as u32;
    proof {
        lemma2_to64();
        lemma2_to64_rest();
        lemma_pow2_pos(k as nat);
    }
    if k >= 32 {
        proof {
            if k > 32 {
                lemma_pow2_strictly_increases(32, k as nat);
            }
            let p = pow2(k as nat);
            vstd::arithmetic::div_mod::lemma_basic_div((2 * x.m + p) as int, (2 * p) as int);
        }
        return 0;
    }
    proof {
        if k < 31 {
            lemma_pow2_strictly_increases(k as nat, 31);
        }
        vstd::bits::lemma_u64_shl_is_mul(1, k as u64);
    }
    let p: u64 = 1u64 << (k as u64);
    let t: u64 = (2 * r.significand + p) / (2 * p);
    if t > 100 {
        100
    } else {
        t as u8
    }
}

/// What supplies the system, by the state of a power source.
pub open spec fn source_of(state: Option<String>) -> PowerSource {
    match state {
        None => PowerSource::Unknown,
        Some(s) => if text::contains_text(s@, "AC Power"@) {
            PowerSource::AcPower
        } else if text::contains_text(s@, "UPS"@) {
            PowerSource::Ups
        } else {
            PowerSource::Battery
        },
    }
}

/// Whether a power source is a built-in battery.
pub open spec fn is_internal(record: PowerSourceRecord) -> bool {
    record.kind matches Some(kind) && kind@ == "InternalBattery"@
}

/// The battery state that a power source reports. A missing capacity counts as zero,
/// a missing maximum as 100.
pub open spec fn state_of(record: PowerSourceRecord) -> BatteryState {
    let current: int = match record.current_capacity {
        Some(c) => c as int,
        None => 0,
    };
    let maximum: int = match record.max_capacity {
        Some(m) => m as int,
        None => 100,
    };
    BatteryState {
        charge_percent: charge(current, maximum) as u8,
        is_charging: record.is_charging == Some(true),
        source: source_of(record.state),
    }
}

/// The state of the first built-in battery.
pub open spec fn first_internal(records: Seq<PowerSourceRecord>) -> Option<BatteryState>
    decreases records.len(),
{
    if records.len() == 0 {
        None
    } else if is_internal(records[0]) {
        Some(state_of(records[0]))
    } else {
        first_internal(records.drop_first())
    }
}

/// What supplies the system, by the state of a power source.
fn power_source(state: &Option<String>) -> (source: PowerSource)
    ensures
        source == source_of(*state),
{
    match state {
        None => PowerSource::Unknown,
        Some(s) => {
            if text::contains(s.as_str(), "AC Power") {
                PowerSource::AcPower
            } else if text::contains(s.as_str(), "UPS") {
                PowerSource::Ups
            } else {
                PowerSource::Battery
            }
        },
    }
}

/// The state of the first built-in battery among the power sources; `None` where
/// there is none, as in a desktop machine.
pub fn get_battery_state(records: &[PowerSourceRecord]) -> (state: Option<BatteryState>)
    ensures
        state == first_internal(records@),
        state is None <==> forall|i: int|
            0 <= i < records@.len() ==> !((#[trigger] records@[i]).kind is Some
                && records@[i].kind.unwrap()@ == "InternalBattery"@),
        forall|i: int|
            #![trigger records@[i]]
            0 <= i < records@.len() && records@[i].kind is Some && records@[i].kind.unwrap()@
                == "InternalBattery"@ && (forall|j: int|
                0 <= j < i ==> !((#[trigger] records@[j]).kind is Some && records@[j].kind.unwrap()@
                    == "InternalBattery"@)) ==> {
                &&& state is Some
                &&& state.unwrap().is_charging <==> records@[i].is_charging == Some(true)
                &&& state.unwrap().source == source_of(records@[i].state)
                &&& state.unwrap().charge_percent == charge(
                    match records@[i].current_capacity {
                        Some(c) => c as int,
                        None => 0,
                    },
                    match records@[i].max_capacity {
                        Some(m) => m as int,
                        None => 100,
                    },
                )
            },
{
    let state = internal_battery(records);
    proof {
        law_no_battery_is_none(records@);
        assert forall|i: int|
            #![trigger records@[i]]
            0 <= i < records@.len() && records@[i].kind is Some && records@[i].kind.unwrap()@
                == "InternalBattery"@ && (forall|j: int|
                0 <= j < i ==> !((#[trigger] records@[j]).kind is Some && records@[j].kind.unwrap()@
                    == "InternalBattery"@)) implies {
            let b = first_internal(records@);
            &&& b is Some
            &&& b.unwrap().is_charging <==> records@[i].is_charging == Some(true)
            &&& b.unwrap().source == source_of(records@[i].state)
            &&& b.unwrap().charge_percent == charge(
                match records@[i].current_capacity {
                    Some(c) => c as int,
                    None => 0,
                },
                match records@[i].max_capacity {
                    Some(m) => m as int,
                    None => 100,
                },
            )
        } by {
            law_first_battery_is_reported(records@, i);
        }
    }
    state
}

/// The state of the first built-in battery among the power sources.
fn internal_battery(records: &[PowerSourceRecord]) -> (state: Option<BatteryState>)
    ensures
        state == first_internal(records@),
{
    let mut i: usize = 0;
    assert(records@.skip(0) =~= records@);
    while i < records.len()
        invariant
            i <= records@.len(),
            first_internal(records@) == first_internal(records@.skip(i as int)),
        decreases records@.len() - i,
    {
        let record = &records[i];
        assert(records@.skip(i as int)[0] == *record);
        assert(records@.skip(i as int).drop_first() =~= records@.skip(i + 1));
        let internal: bool = match &record.kind {
            Some(kind) => text::same_text(kind.as_str(), "InternalBattery"),
            None => false,
        };
        if internal {
            let current: i32 = match record.current_capacity {
                Some(c) => c,
                None => 0,
            };
            let maximum: i32 = match record.max_capacity {
                Some(m) => m,
                None => 100,
            };
            let is_charging: bool = match record.is_charging {
                Some(b) => b,
                None => false,
            };
            return Some(
                BatteryState {
                    charge_percent: charge_percent(current, maximum),
                    is_charging,
                    source: power_source(&record.state),
                },
            );
        }
        i += 1;
    }
    None
}

/// No battery is reported exactly if no power source is of the kind `InternalBattery`.
pub proof fn law_no_battery_is_none(records: Seq<PowerSourceRecord>)
    ensures
        first_internal(records) is None <==> forall|i: int|
            0 <= i < records.len() ==> !((#[trigger] records[i]).kind is Some
                && records[i].kind.unwrap()@ == "InternalBattery"@),
    decreases records.len(),
{
    if records.len() > 0 {
        let rest = records.drop_first();
        law_no_battery_is_none(rest);
        assert forall|i: int| 0 <= i < rest.len() implies #[trigger] rest[i] == records[i + 1] by {}
        if first_internal(records) is None {
            assert forall|i: int| 0 <= i < records.len() implies !((#[trigger] records[i]).kind is Some
                && records[i].kind.unwrap()@ == "InternalBattery"@) by {
                if i > 0 {
                    assert(rest[i - 1] == records[i]);
                }
            }
        } else if !(records[0].kind is Some && records[0].kind.unwrap()@ == "InternalBattery"@) {
            let i = choose|i: int|
                0 <= i < rest.len() && (#[trigger] rest[i]).kind is Some && rest[i].kind.unwrap()@
                    == "InternalBattery"@;
            assert(records[i + 1].kind is Some);
        }
    }
}

/// The first power source of the kind `InternalBattery` is what is reported. It is
/// charging exactly if its record says so; a record that says no, or nothing, means that
/// it is not. Where the record names what supplies the system, mains power goes before a
/// backup supply, and anything else is the battery. The charge is that of its capacities,
/// nothing of a hundred where they are missing.
pub proof fn law_first_battery_is_reported(records: Seq<PowerSourceRecord>, i: int)
    requires
        0 <= i < records.len(),
        records[i].kind is Some && records[i].kind.unwrap()@ == "InternalBattery"@,
        forall|j: int|
            0 <= j < i ==> !((#[trigger] records[j]).kind is Some && records[j].kind.unwrap()@
                == "InternalBattery"@),
    ensures
        ({
            let b = first_internal(records);
            let record = records[i];
            let current = match record.current_capacity {
                Some(c) => c as int,
                None => 0,
            };
            let maximum = match record.max_capacity {
                Some(m) => m as int,
                None => 100,
            };
            &&& b is Some
            &&& b.unwrap().is_charging <==> record.is_charging == Some(true)
            &&& b.unwrap().source == source_of(record.state)
            &&& record.state is None ==> b.unwrap().source is Unknown
            &&& record.state is Some && text::holds(record.state.unwrap()@, "AC Power"@)
                ==> b.unwrap().source is AcPower
            &&& record.state is Some && !text::holds(record.state.unwrap()@, "AC Power"@)
                && text::holds(record.state.unwrap()@, "UPS"@) ==> b.unwrap().source is Ups
            &&& record.state is Some && !text::holds(record.state.unwrap()@, "AC Power"@)
                && !text::holds(record.state.unwrap()@, "UPS"@) ==> b.unwrap().source is Battery
            &&& b.unwrap().charge_percent == charge(current, maximum)
            &&& b.unwrap().charge_percent <= 100
        }),
    decreases records.len(),
{
    let record = records[i];
    let current = match record.current_capacity {
        Some(c) => c as int,
        None => 0,
    };
    let maximum = match record.max_capacity {
        Some(m) => m as int,
        None => 100,
    };
    law_charge_range(current, maximum);
    if record.state is Some {
        text::law_contains_is_holds(record.state.unwrap()@, "AC Power"@);
        text::law_contains_is_holds(record.state.unwrap()@, "UPS"@);
    }
    if i > 0 {
        let rest = records.drop_first();
        assert(records[0] == records[0]);
        assert(rest[i - 1] == records[i]);
        assert forall|j: int| 0 <= j < i - 1 implies !((#[trigger] rest[j]).kind is Some
            && rest[j].kind.unwrap()@ == "InternalBattery"@) by {
            assert(rest[j] == records[j + 1]);
        }
        law_first_battery_is_reported(rest, i - 1);
    }
}

/// Four small factors, multiplied.
proof fn lemma_chain(v: nat, x: nat, y: nat, z: nat, t: nat)
    requires
        0x100_0000 * x >= 0xff_ffff * v,
        0x100_0000 * x <= 0x100_0001 * v,
        0x100_0000 * x <= 0x100_0001 * (100 * y),
        0x100_0000 * x >= 0xff_ffff * (100 * y),
        0x100_0000 * y <= 0x100_0001 * z,
        0x100_0000 * y >= 0xff_ffff * z,
        0x100_0000 * z <= 0x100_0001 * t,
        0x100_0000 * z >= 0xff_ffff * t,
    ensures
        0x20_0000 * v <= 0x20_0001 * (100 * t),
        0x20_0000 * v >= 0x1f_ffff * (100 * t),
{
}

/// The rounded steps of a charge, bounded together: with `r` units of one `s`-th in place
/// of `100 * p / w`, the two differ by one part in two to the power of 21 at most.
proof fn lemma_charge_bounds(p: nat, w: nat, s: nat, a: nat, b: nat, q: nat, r: nat)
    requires
        s > 0,
        0x100_0000 * rounding::distance(a, p * s) <= p * s,
        0x100_0000 * rounding::distance(b, w * s) <= w * s,
        0x100_0000 * rounding::distance(q * b, a * s) <= a * s,
        0x100_0000 * rounding::distance(r, q * 100) <= q * 100,
    ensures
        0x20_0000 * (r * w) <= 0x20_0001 * (100 * p * s),
        0x20_0000 * (r * w) >= 0x1f_ffff * (100 * p * s),
{
    let h: nat = 0x100_0000;
    let ps = p * s;
    let ws = w * s;
    double::lemma_within(h, r, q * 100);
    double::lemma_within(h, q * b, a * s);
    double::lemma_within(h, a, ps);
    double::lemma_within(h, b, ws);
    let rb = r * b;
    let qb = q * b;
    let ss = a * s;
    let pss = ps * s;
    assert(h * rb <= (h + 1) * (100 * qb) && h * rb >= (h - 1) * (100 * qb)) by (nonlinear_arith)
        requires
            rb == r * b,
            qb == q * b,
            h * r <= (h + 1) * (q * 100),
            h * r >= (h - 1) * (q * 100),
    ;
    assert(h * ss <= (h + 1) * pss && h * ss >= (h - 1) * pss) by (nonlinear_arith)
        requires
            ss == a * s,
            pss == ps * s,
            h * a <= (h + 1) * ps,
            h * a >= (h - 1) * ps,
    ;
    let rws = r * ws;
    assert(h * rb >= (h - 1) * rws && h * rb <= (h + 1) * rws) by (nonlinear_arith)
        requires
            rb == r * b,
            rws == r * ws,
            h * b >= (h - 1) * ws,
            h * b <= (h + 1) * ws,
    ;
    lemma_chain(rws, rb, qb, ss, pss);
    let rw = r * w;
    let e = 100 * p * s;
    assert(rws == rw * s) by (nonlinear_arith)
        requires
            rws == r * ws,
            ws == w * s,
            rw == r * w,
    ;
    assert(100 * pss == e * s) by (nonlinear_arith)
        requires
            pss == p * s * s,
            e == 100 * p * s,
    ;
    assert(0x20_0000 * rw <= 0x20_0001 * e && 0x20_0000 * rw >= 0x1f_ffff * e) by (nonlinear_arith)
        requires
            0x20_0000 * (rw * s) <= 0x20_0001 * (e * s),
            0x20_0000 * (rw * s) >= 0x1f_ffff * (e * s),
            s > 0,
    ;
}

/// For every charge that does not exceed the capacity, the percentage differs from
/// `100 * current / maximum` by a half, and by no more than one part in ten thousand of
/// one beyond that.
pub proof fn law_charge_is_near(current: int, maximum: int)
    requires
        0 < current <= maximum <= i32::MAX,
    ensures
        20_000 * (charge(current, maximum) * maximum - 100 * current) <= 10_001 * maximum,
        20_000 * (100 * current - charge(current, maximum) * maximum) <= 10_001 * maximum,
{
    let half = HALF_24 as nat;
    let c = current as nat;
    let m = maximum as nat;
    let s = pow2(1000);
    lemma_pow2_pos(1000);
    lemma_charge_steps(c, m);
    let sa = rounding::nearest(half, c, 1);
    let sb = rounding::nearest(half, m, 1);
    let share = rounding::quotient(half, sa, sb);
    let r = charge_share(c, m);
    let a = rounding::count(sa, 1000);
    let b = rounding::count(sb, 1000);
    let w = rounding::count(share, 1000);
    let y = rounding::count(r, 1000);
    rounding::law_nearest_relative_error(half, c, 1, 1000);
    rounding::law_nearest_relative_error(half, m, 1, 1000);
    rounding::law_nearest_relative_error(half, a, b, 1000);
    rounding::law_nearest_relative_error(half, w * 100, s, 1000);
    assert(0x100_0000 * rounding::distance(y, w * 100) <= w * 100) by {
        lemma_cancel(0x100_0000, y, w * 100, s);
    }
    lemma_charge_bounds(c, m, s, a, b, w, y);
    lemma_rounded_count(r, 1000);
    let t = rounded(r);
    vstd::arithmetic::div_mod::lemma_fundamental_div_mod((2 * y + s) as int, (2 * s) as int);
    vstd::arithmetic::div_mod::lemma_mod_bound((2 * y + s) as int, (2 * s) as int);
    let ts = t * s;
    assert((2 * s) * t == 2 * ts) by (nonlinear_arith)
        requires
            ts == t * s,
    ;
    assert(2 * ts <= 2 * y + s && 2 * y + s < 2 * ts + 2 * s);
    let tms = t * m * s;
    let ym = y * m;
    let ms = m * s;
    let cs = c * s;
    assert(tms == ts * m) by (nonlinear_arith)
        requires
            tms == t * m * s,
            ts == t * s,
    ;
    assert(2 * tms <= 2 * ym + ms && 2 * ym <= 2 * tms + ms) by (nonlinear_arith)
        requires
            tms == ts * m,
            ym == y * m,
            ms == m * s,
            2 * ts <= 2 * y + s,
            2 * y <= 2 * ts + s,
    ;
    assert(100 * c * s == 100 * cs) by (nonlinear_arith)
        requires
            cs == c * s,
    ;
    assert(cs <= ms) by (nonlinear_arith)
        requires
            cs == c * s,
            ms == m * s,
            c <= m,
    ;
    assert(20_000 * (tms - 100 * cs) <= 10_001 * ms);
    assert(20_000 * (100 * cs - tms) <= 10_001 * ms);
    let tm = t * m;
    assert(20_000 * (tm - 100 * c) <= 10_001 * m && 20_000 * (100 * c - tm) <= 10_001 * m)
        by (nonlinear_arith)
        requires
            20_000 * (tms - 100 * cs) <= 10_001 * ms,
            20_000 * (100 * cs - tms) <= 10_001 * ms,
            tms == tm * s,
            cs == c * s,
            ms == m * s,
            s > 0,
    ;
    if t > 100 {
        assert(tm >= 101 * m) by (nonlinear_arith)
            requires
                tm == t * m,
                t >= 101,
        ;
    }
    law_charge_range(current, maximum);
}

/// A charge or a capacity that is not positive gives no charge.
pub proof fn law_no_charge_without_capacity(current: int, maximum: int)
    ensures
        current <= 0 || maximum <= 0 ==> charge(current, maximum) == 0,
{
}

} // verus!
