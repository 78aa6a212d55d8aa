//! Per-process CPU, memory and thread figures.

use crate::double;
use crate::double::Double;
use crate::pids;
use crate::rounding;
use crate::rounding::HALF_53;
use crate::text;
use std::collections::HashMap;
use vstd::arithmetic::power2::*;
use vstd::prelude::*;

verus! {

broadcast use vstd::std_specs::hash::group_hash_axioms;

/// A point in time: for each process id the name, the CPU nanoseconds consumed so
/// far, the resident bytes, the number of threads and the owner.
pub type CpuSnapshot = HashMap<i32, (String, u64, u64, i32, u32)>;

/// The figures of one process over a sampling window.
#[derive(Debug)]
pub struct ProcessMetrics {
    pub pid: i32,
    pub name: String,
    /// CPU use in percent of one core.
    pub cpu_pct: Double,
    pub resident_bytes: u64,
    pub threadnum: i32,
    /// The owner of the process.
    pub uid: u32,
    /// Whether the process belongs to the foreground application.
    pub is_frontmost: bool,
    /// Whether the governor holds the process on the efficiency cores.
    pub is_throttled: bool,
    /// Whether the user keeps the process on the efficiency cores.
    pub is_forced_e: bool,
    /// Whether the user keeps the process off the efficiency cores.
    pub is_forced_p: bool,
}

impl Clone for ProcessMetrics {
    fn clone(&self) -> (c: ProcessMetrics)
        ensures
            c == *self,
    {
        ProcessMetrics {
            pid: self.pid,
            name: self.name.clone(),
            cpu_pct: self.cpu_pct,
            resident_bytes: self.resident_bytes,
            threadnum: self.threadnum,
            uid: self.uid,
            is_frontmost: self.is_frontmost,
            is_throttled: self.is_throttled,
            is_forced_e: self.is_forced_e,
            is_forced_p: self.is_forced_p,
        }
    }
}

/// The bit pattern of 0.1, the CPU percentage below which a process counts as noise.
pub const NOISE_FLOOR: u64 = 0x3fb9_9999_9999_999a;

/// The bytes of one megabyte.
pub const MB: u64 = 1_000_000;

/// The bytes of one gigabyte.
pub const GB: u64 = 1_000_000_000;

/// A number of bytes in gigabytes, as double precision arithmetic gives it.
pub open spec fn gigabytes(bytes: nat) -> rounding::Scaled {
    let half = HALF_53 as nat;
    rounding::quotient(
        half,
        rounding::nearest(half, bytes, 1),
        rounding::nearest(half, GB as nat, 1),
    )
}

/// A number of bytes for human readers: gigabytes with one digit after the point
/// from one gigabyte on, below that whole megabytes.
pub open spec fn ram_text(bytes: nat) -> Seq<char> {
    if bytes >= GB {
        double::tenths_text(double::tenths(gigabytes(bytes))) + " GB"@
    } else {
        text::decimal(bytes / (MB as nat)) + " MB"@
    }
}

/// Below two to the power of 53 the tenths of a gigabyte that are shown are those
/// nearest to the number of bytes, unless it lies halfway between two.
pub proof fn law_ram_tenths(bytes: nat)
    requires
        GB <= bytes < 2 * HALF_53,
        bytes % 100_000_000 != 50_000_000,
    ensures
        double::tenths(gigabytes(bytes)) == (bytes + 50_000_000) / 100_000_000,
{
    let half = HALF_53 as nat;
    let d = GB as nat;
    let a = rounding::nearest(half, bytes, 1);
    let b = rounding::nearest(half, d, 1);
    rounding::law_nearest_exact(half, bytes);
    rounding::law_nearest_exact(half, d);
    rounding::law_nearest_scales(half, bytes, d, (-a.e) as nat, (-b.e) as nat);
    let x = gigabytes(bytes);
    assert(x == rounding::nearest(half, bytes, d));
    let e = rounding::exponent_of(half, bytes, d);
    rounding::lemma_exponent_fits(half, bytes, d);
    lemma2_to64();
    if e >= 0 {
        lemma_pow2_pos(e as nat);
        let p = pow2(e as nat);
        assert(half * (d * p) >= half * d) by (nonlinear_arith)
            requires
                p >= 1,
        ;
        assert(rounding::power(-e) == 1);
        assert(half * d <= bytes);
    }
    if e == -1 {
        assert(rounding::power(-e) == 2 && rounding::power(e) == 1);
        assert(half * (d * 1) <= bytes * 2);
    }
    assert(x.e < 0);
    let k = (-e) as nat;
    rounding::law_nearest_relative_error(half, bytes, d, k);
    let q = pow2(k);
    lemma_pow2_pos(k);
    let w = x.m * pow2((x.e + k) as nat);
    // The exact value is `bytes / d`, the computed one `w / q`.
    let t = (bytes + 50_000_000) / 100_000_000;
    let nq = bytes * q;
    assert(2 * half * rounding::distance(w * d, nq) <= nq);
    assert(rounding::distance(w * d, nq) < q) by (nonlinear_arith)
        requires
            2 * half * rounding::distance(w * d, nq) <= nq,
            nq == bytes * q,
            bytes < 2 * half,
            q > 0,
    ;
    let miss = rounding::distance(t * 100_000_000, bytes);
    assert(miss < 50_000_000);
    assert(miss * q <= 49_999_999 * q) by (nonlinear_arith)
        requires
            miss <= 49_999_999,
    ;
    if t * 100_000_000 <= bytes {
        assert((bytes - t * 100_000_000) * q == bytes * q - t * q * 100_000_000) by (nonlinear_arith);
    } else {
        assert((t * 100_000_000 - bytes) * q == t * q * 100_000_000 - bytes * q) by (nonlinear_arith);
    }
    assert(w * d == 10 * w * 100_000_000);
    assert(2 * rounding::distance(t * q, 10 * w) < q);
    rounding::lemma_round_even_unique(10 * w, q, t);
    let small = pow2((-x.e) as nat);
    lemma_pow2_adds((x.e + k) as nat, (-x.e) as nat);
    lemma_pow2_pos((-x.e) as nat);
    assert((10 * w) * small == (10 * x.m) * q) by (nonlinear_arith)
        requires
            w == x.m * pow2((x.e + k) as nat),
            q == pow2((x.e + k) as nat) * small,
    ;
    rounding::lemma_round_even_ratio(10 * x.m, small, 10 * w, q);
}

/// Of more memory no less is shown: neither fewer tenths of a gigabyte nor fewer
/// megabytes.
pub proof fn law_ram_grows(bytes: nat, more: nat)
    requires
        bytes <= more <= u64::MAX,
    ensures
        bytes / (MB as nat) <= more / (MB as nat),
        GB <= bytes ==> double::tenths(gigabytes(bytes)) <= double::tenths(gigabytes(more)),
{
    if GB <= bytes {
        let half = HALF_53 as nat;
        let d = GB as nat;
        let a = rounding::nearest(half, bytes, 1);
        let c = rounding::nearest(half, more, 1);
        let b = rounding::nearest(half, d, 1);
        double::lemma_percentage_steps(bytes, d);
        double::lemma_percentage_steps(more, d);
        rounding::law_nearest_monotone(half, bytes, 1, more, 1, 1074);
        let x = rounding::count(a, 1074);
        let y = rounding::count(c, 1074);
        let z = rounding::count(b, 1074);
        assert(x * z <= y * z) by (nonlinear_arith)
            requires
                x <= y,
        ;
        rounding::law_nearest_monotone(half, x, z, y, z, 1074);
        rounding::lemma_nearest_in_range(half, x, z);
        rounding::lemma_nearest_in_range(half, y, z);
        double::law_tenths_monotone(gigabytes(bytes), gigabytes(more), 1074);
    }
}

/// Below a thousand million bytes the full millions are shown as megabytes. From there on
/// the tenths of a gigabyte nearest to the number are shown, as long as a double holds it
/// exactly and it does not lie halfway between two.
pub proof fn law_ram_is_shown_in_its_unit(bytes: nat)
    ensures
        bytes < 1_000_000_000 ==> ram_text(bytes) == text::decimal(bytes / 1_000_000) + " MB"@,
        1_000_000_000 <= bytes < 0x20_0000_0000_0000 && bytes % 100_000_000 != 50_000_000 ==> {
            let t = (bytes + 50_000_000) / 100_000_000;
            ram_text(bytes) == text::decimal(t / 10) + seq!['.'] + text::decimal(t % 10) + " GB"@
        },
{
    if 1_000_000_000 <= bytes < 0x20_0000_0000_0000 && bytes % 100_000_000 != 50_000_000 {
        law_ram_tenths(bytes);
        let t = (bytes + 50_000_000) / 100_000_000;
        let d = text::digit_char((t % 10) as int);
        assert(text::decimal(t % 10) =~= seq![d]);
        assert(double::tenths_text(t) =~= text::decimal(t / 10) + seq!['.'] + text::decimal(t % 10));
    }
}

/// Formats a number of bytes for human readers.
pub fn format_ram(bytes: u64) -> (s: String)
    ensures
        s@ == ram_text(bytes as nat),
        GB <= bytes < 2 * HALF_53 && bytes % 100_000_000 != 50_000_000 ==> s@
            == double::tenths_text((bytes as nat + 50_000_000) / 100_000_000) + " GB"@,
{
    let mut s = String::new();
    if bytes >= GB {
        let a = rounding::nearest_ratio(HALF_53, bytes, 1);
        let b = rounding::nearest_ratio(HALF_53, GB, 1);
        let q = rounding::quotient_of(HALF_53, a, b);
        double::append_tenths(&mut s, q.significand, q.exponent);
        s.append(" GB");
        assert(s@ =~= ram_text(bytes as nat));
        proof {
            if bytes < 2 * HALF_53 && bytes % 100_000_000 != 50_000_000 {
                law_ram_tenths(bytes as nat);
            }
        }
    } else {
        text::append_decimal(&mut s, bytes / MB);
        s.append(" MB");
        assert(s@ =~= ram_text(bytes as nat));
    }
    s
}

/// The CPU nanoseconds that a process had consumed at a point in time, zero if it
/// was not there.
pub open spec fn cpu_at(snap: Map<i32, (String, u64, u64, i32, u32)>, pid: i32) -> nat {
    if snap.contains_key(pid) {
        snap[pid].1 as nat
    } else {
        0
    }
}

/// The CPU share of a process between two points in time, in percent. A counter
/// that went backwards counts as no use.
pub open spec fn cpu_share(
    s1: Map<i32, (String, u64, u64, i32, u32)>,
    s2: Map<i32, (String, u64, u64, i32, u32)>,
    elapsed_ns: u64,
    pid: i32,
) -> Double {
    let used = cpu_at(s2, pid) - cpu_at(s1, pid);
    double::percentage(
        if used > 0 {
            used as nat
        } else {
            0
        },
        elapsed_ns as nat,
    )
}

/// The CPU share of a process is the CPU time that it used between the two snapshots in
/// percent of the window, up to one part in two to the power of 50. One that used none,
/// or whose counter went backwards, has none; one that the first snapshot does not hold
/// used all of its time in the window.
pub proof fn law_share_is_what_was_used(
    s1: Map<i32, (String, u64, u64, i32, u32)>,
    s2: Map<i32, (String, u64, u64, i32, u32)>,
    elapsed_ns: u64,
    pid: i32,
)
    requires
        elapsed_ns > 0,
    ensures
        s2.contains_key(pid) && s1.contains_key(pid) && s2[pid].1 > s1[pid].1
            ==> double::is_near_percentage(
            cpu_share(s1, s2, elapsed_ns, pid),
            s2[pid].1 - s1[pid].1,
            elapsed_ns as int,
        ),
        s2.contains_key(pid) && s1.contains_key(pid) && s2[pid].1 <= s1[pid].1 ==> cpu_share(
            s1,
            s2,
            elapsed_ns,
            pid,
        ) == (Double { bits: 0 }),
        s2.contains_key(pid) && !s1.contains_key(pid) ==> double::is_near_percentage(
            cpu_share(s1, s2, elapsed_ns, pid),
            s2[pid].1 as int,
            elapsed_ns as int,
        ),
        double::is_near_percentage(Double { bits: 0 }, 0, elapsed_ns as int),
{
    let difference = cpu_at(s2, pid) - cpu_at(s1, pid);
    double::law_percentage_is_near(0, elapsed_ns as nat);
    if difference > 0 {
        double::law_percentage_is_near(difference as nat, elapsed_ns as nat);
    }
}

/// Only the difference of the two counters counts: where both are larger by the same
/// amount, the share is the same.
pub proof fn law_share_goes_by_difference(
    s1: Map<i32, (String, u64, u64, i32, u32)>,
    s2: Map<i32, (String, u64, u64, i32, u32)>,
    t1: Map<i32, (String, u64, u64, i32, u32)>,
    t2: Map<i32, (String, u64, u64, i32, u32)>,
    elapsed_ns: u64,
    pid: i32,
    offset: int,
)
    requires
        s1.contains_key(pid),
        s2.contains_key(pid),
        t1.contains_key(pid),
        t2.contains_key(pid),
        t1[pid].1 == s1[pid].1 + offset,
        t2[pid].1 == s2[pid].1 + offset,
    ensures
        cpu_share(t1, t2, elapsed_ns, pid) == cpu_share(s1, s2, elapsed_ns, pid),
{
}

/// Of two processes in the same window, the one that used more has no smaller share.
pub proof fn law_share_grows_with_use(
    s1: Map<i32, (String, u64, u64, i32, u32)>,
    s2: Map<i32, (String, u64, u64, i32, u32)>,
    elapsed_ns: u64,
    less: i32,
    more: i32,
)
    requires
        elapsed_ns > 0,
        s1.contains_key(less) && s2.contains_key(less),
        s1.contains_key(more) && s2.contains_key(more),
        s2[less].1 - s1[less].1 <= s2[more].1 - s1[more].1,
    ensures
        cpu_share(s1, s2, elapsed_ns, more).ge(cpu_share(s1, s2, elapsed_ns, less)),
{
    let a = s2[less].1 - s1[less].1;
    let b = s2[more].1 - s1[more].1;
    let small: nat = if a > 0 {
        a as nat
    } else {
        0
    };
    let large: nat = if b > 0 {
        b as nat
    } else {
        0
    };
    double::law_percentage_monotone(small, large, elapsed_ns as nat);
    double::law_percentage_is_near(small, elapsed_ns as nat);
    double::law_percentage_is_near(large, elapsed_ns as nat);
}

/// The number below which a share is noise is a tenth, up to four parts in two to the
/// power of 56.
proof fn lemma_noise_units()
    ensures
        !(Double { bits: NOISE_FLOOR }).nan(),
        10 * (Double { bits: NOISE_FLOOR }).units() == 0x100_0000_0000_0004 * pow2(1018),
{
    let d = Double { bits: NOISE_FLOOR };
    assert(d.absolute().m == 0x19_9999_9999_999a && d.absolute().e == -56);
    let p = pow2(1018);
    assert(10 * (0x19_9999_9999_999a * p) == 0x100_0000_0000_0004 * p);
}

/// A process counts as noise below a tenth of a percent of the window: one part in a
/// million above it does not, one part in a million below it does.
pub proof fn law_noise_is_below_a_tenth(share: Double, used: int, elapsed: int)
    requires
        0 <= used,
        0 < elapsed,
        double::is_near_percentage(share, used, elapsed),
    ensures
        1_000_000_000 * used >= 1_000_001 * elapsed ==> share.ge(Double { bits: NOISE_FLOOR }),
        1_000_000_000 * used <= 999_999 * elapsed ==> !share.ge(Double { bits: NOISE_FLOOR }),
{
    let floor = Double { bits: NOISE_FLOOR };
    let u = share.units();
    let n = floor.units();
    let s = pow2(1074);
    let t = pow2(1018);
    lemma_noise_units();
    double::law_comparisons_are_numeric(share, floor);
    lemma_pow2_pos(1018);
    lemma_pow2_adds(1018, 56);
    lemma2_to64();
    lemma2_to64_rest();
    assert(s == t * 0x100_0000_0000_0000);
    let us = used * s;
    let te = t * elapsed;
    let ue = u * elapsed;
    let ne = n * elapsed;
    assert(100 * used * s == 100 * us) by (nonlinear_arith)
        requires
            us == used * s,
    ;
    assert(te > 0) by (nonlinear_arith)
        requires
            te == t * elapsed,
            t > 0,
            elapsed > 0,
    ;
    assert(10 * ne == 0x100_0000_0000_0004 * te) by (nonlinear_arith)
        requires
            ne == n * elapsed,
            10 * n == 0x100_0000_0000_0004 * t,
            te == t * elapsed,
    ;
    assert(elapsed * s == 0x100_0000_0000_0000 * te) by (nonlinear_arith)
        requires
            s == t * 0x100_0000_0000_0000,
            te == t * elapsed,
    ;
    if 1_000_000_000 * used >= 1_000_001 * elapsed {
        assert(1_000_000_000 * us >= 1_000_001 * (elapsed * s)) by (nonlinear_arith)
            requires
                1_000_000_000 * used >= 1_000_001 * elapsed,
                us == used * s,
                s >= 0,
        ;
        if u < n {
            assert(ue <= ne) by (nonlinear_arith)
                requires
                    ue == u * elapsed,
                    ne == n * elapsed,
                    u <= n,
                    elapsed > 0,
            ;
        }
    }
    if 1_000_000_000 * used <= 999_999 * elapsed {
        assert(1_000_000_000 * us <= 999_999 * (elapsed * s)) by (nonlinear_arith)
            requires
                1_000_000_000 * used <= 999_999 * elapsed,
                us == used * s,
                s >= 0,
        ;
        if u >= n {
            assert(ue >= ne) by (nonlinear_arith)
                requires
                    ue == u * elapsed,
                    ne == n * elapsed,
                    u >= n,
                    elapsed > 0,
            ;
        }
    }
}

/// The figures of a process between two points in time. Memory, threads and owner
/// are those of the second one.
pub open spec fn metrics_of(
    s1: Map<i32, (String, u64, u64, i32, u32)>,
    s2: Map<i32, (String, u64, u64, i32, u32)>,
    elapsed_ns: u64,
    pid: i32,
    is_frontmost: bool,
) -> ProcessMetrics {
    ProcessMetrics {
        pid,
        name: s2[pid].0,
        cpu_pct: cpu_share(s1, s2, elapsed_ns, pid),
        resident_bytes: s2[pid].2,
        threadnum: s2[pid].3,
        uid: s2[pid].4,
        is_frontmost,
        is_throttled: false,
        is_forced_e: false,
        is_forced_p: false,
    }
}

/// Whether a process is busy enough to be listed and is not the excluded one.
pub open spec fn is_busy(
    s1: Map<i32, (String, u64, u64, i32, u32)>,
    s2: Map<i32, (String, u64, u64, i32, u32)>,
    elapsed_ns: u64,
    exclude_pid: Option<i32>,
    pid: i32,
) -> bool {
    &&& s2.contains_key(pid)
    &&& exclude_pid != Some(pid)
    &&& cpu_share(s1, s2, elapsed_ns, pid).ge(Double { bits: NOISE_FLOOR })
}

/// Whether a list has an entry for a process.
pub open spec fn has_pid(list: Seq<ProcessMetrics>, pid: i32) -> bool {
    exists|i: int| 0 <= i < list.len() && (#[trigger] list[i]).pid == pid
}

/// Whether `list` holds busy processes, each once, with their figures, in
/// descending order of CPU share.
pub open spec fn is_ranking(
    list: Seq<ProcessMetrics>,
    s1: Map<i32, (String, u64, u64, i32, u32)>,
    s2: Map<i32, (String, u64, u64, i32, u32)>,
    elapsed_ns: u64,
    exclude_pid: Option<i32>,
) -> bool {
    &&& forall|i: int|
        0 <= i < list.len() ==> is_busy(
            s1,
            s2,
            elapsed_ns,
            exclude_pid,
            (#[trigger] list[i]).pid,
        )
    &&& forall|i: int|
        0 <= i < list.len() ==> #[trigger] list[i] == metrics_of(
            s1,
            s2,
            elapsed_ns,
            list[i].pid,
            false,
        )
    &&& forall|i: int, j: int|
        0 <= i < j < list.len() ==> (#[trigger] list[i]).pid != (#[trigger] list[j]).pid
    &&& forall|i: int, j: int|
        0 <= i < j < list.len() ==> (#[trigger] list[i]).cpu_pct.order() >= (
        #[trigger] list[j]).cpu_pct.order()
}

/// Whether `list` holds the busiest processes between two points in time, at most
/// `top_n` of them. Of processes with equal shares either may come first or, at the
/// end of a full list, be left out. No list is made of an empty window.
pub open spec fn is_top_cpu(
    list: Seq<ProcessMetrics>,
    s1: Map<i32, (String, u64, u64, i32, u32)>,
    s2: Map<i32, (String, u64, u64, i32, u32)>,
    elapsed_ns: u64,
    exclude_pid: Option<i32>,
    top_n: nat,
) -> bool {
    if elapsed_ns == 0 {
        list.len() == 0
    } else {
        &&& is_ranking(list, s1, s2, elapsed_ns, exclude_pid)
        &&& list.len() <= top_n
        &&& forall|pid: i32|
            #[trigger] is_busy(s1, s2, elapsed_ns, exclude_pid, pid) && !has_pid(list, pid) ==> {
                &&& list.len() == top_n
                &&& forall|i: int|
                    0 <= i < list.len() ==> (#[trigger] list[i]).cpu_pct.order() >= cpu_share(
                        s1,
                        s2,
                        elapsed_ns,
                        pid,
                    ).order()
            }
    }
}

/// The figures of a process that the second snapshot holds.
fn measure(
    s1: &CpuSnapshot,
    s2: &CpuSnapshot,
    elapsed_ns: u64,
    pid: i32,
    is_frontmost: bool,
) -> (m: Option<ProcessMetrics>)
    requires
        elapsed_ns > 0,
    ensures
        m is Some <==> s2@.contains_key(pid),
        m matches Some(x) ==> x == metrics_of(s1@, s2@, elapsed_ns, pid, is_frontmost)
            && !x.cpu_pct.nan(),
{
    match s2.get(&pid) {
        Some(now) => {
            let cpu1: u64 = match s1.get(&pid) {
                Some(before) => before.1,
                None => 0,
            };
            let used: u64 = if now.1 > cpu1 { now.1 - cpu1 } else { 0 };
            Some(
                ProcessMetrics {
                    pid,
                    name: now.0.clone(),
                    cpu_pct: double::percentage_of(used, elapsed_ns),
                    resident_bytes: now.2,
                    threadnum: now.3,
                    uid: now.4,
                    is_frontmost,
                    is_throttled: false,
                    is_forced_e: false,
                    is_forced_p: false,
                },
            )
        },
        None => None,
    }
}

/// Puts one more process into a ranking, behind those with an equal share.
fn rank(
    list: &mut Vec<ProcessMetrics>,
    m: ProcessMetrics,
    Ghost(s1): Ghost<Map<i32, (String, u64, u64, i32, u32)>>,
    Ghost(s2): Ghost<Map<i32, (String, u64, u64, i32, u32)>>,
    elapsed_ns: u64,
    exclude_pid: Option<i32>,
)
    requires
        is_ranking(old(list)@, s1, s2, elapsed_ns, exclude_pid),
        is_busy(s1, s2, elapsed_ns, exclude_pid, m.pid),
        m == metrics_of(s1, s2, elapsed_ns, m.pid, false),
        !has_pid(old(list)@, m.pid),
    ensures
        is_ranking(final(list)@, s1, s2, elapsed_ns, exclude_pid),
        forall|p: i32| has_pid(final(list)@, p) <==> has_pid(old(list)@, p) || p == m.pid,
{
    let ghost before = list@;
    let mut pos: usize = 0;
    while pos < list.len() && list[pos].cpu_pct.at_least(m.cpu_pct)
        invariant
            pos <= list@.len(),
            list@ == before,
            forall|i: int| 0 <= i < pos ==> (#[trigger] list@[i]).cpu_pct.order() >= m.cpu_pct.order(),
        decreases list@.len() - pos,
    {
        pos += 1;
    }
    let ghost x = m;
    list.insert(pos, m);
    proof {
        let after = list@;
        assert forall|i: int| 0 <= i < after.len() implies #[trigger] after[i] == (if i < pos {
            before[i]
        } else if i == pos {
            x
        } else {
            before[i - 1]
        }) by {}
        assert forall|p: i32| has_pid(after, p) <==> has_pid(before, p) || p == x.pid by {
            if has_pid(before, p) {
                let i = choose|i: int| 0 <= i < before.len() && (#[trigger] before[i]).pid == p;
                if i < pos {
                    assert(after[i].pid == p);
                } else {
                    assert(after[i + 1].pid == p);
                }
            }
            assert(after[pos as int].pid == x.pid);
            if has_pid(after, p) && p != x.pid {
                let i = choose|i: int| 0 <= i < after.len() && (#[trigger] after[i]).pid == p;
                if i < pos {
                    assert(before[i].pid == p);
                } else {
                    assert(before[i - 1].pid == p);
                }
            }
        }
        assert forall|i: int| 0 <= i < before.len() implies (#[trigger] before[i]).pid != x.pid by {
            if before[i].pid == x.pid {
                assert(has_pid(before, x.pid));
            }
        }
        if pos < before.len() {
            assert(before[pos as int].cpu_pct.ge(Double { bits: NOISE_FLOOR }));
            assert forall|i: int| pos <= i < before.len() implies (
            #[trigger] before[i]).cpu_pct.order() <= x.cpu_pct.order() by {}
        }
    }
}

/// Derives the busiest processes from two snapshots: the CPU share of each process
/// is what it consumed between them divided by the length of the window. Processes
/// below the noise floor are left out, and so is `exclude_pid`.
pub fn compute_top_cpu(
    s1: &CpuSnapshot,
    s2: &CpuSnapshot,
    elapsed_ns: u64,
    exclude_pid: Option<i32>,
    top_n: usize,
) -> (list: Vec<ProcessMetrics>)
    ensures
        is_top_cpu(list@, s1@, s2@, elapsed_ns, exclude_pid, top_n as nat),
        elapsed_ns == 0 ==> list@.len() == 0,
        list@.len() <= top_n,
        forall|i: int|
            #![trigger list@[i]]
            0 <= i < list@.len() ==> {
                let m = list@[i];
                &&& s2@.contains_key(m.pid)
                &&& exclude_pid != Some(m.pid)
                &&& m.name == s2@[m.pid].0
                &&& m.resident_bytes == s2@[m.pid].2
                &&& m.threadnum == s2@[m.pid].3
                &&& m.uid == s2@[m.pid].4
                &&& !m.is_frontmost
                &&& double::is_near_percentage(
                    m.cpu_pct,
                    if !s1@.contains_key(m.pid) {
                        s2@[m.pid].1 as int
                    } else if s2@[m.pid].1 > s1@[m.pid].1 {
                        s2@[m.pid].1 - s1@[m.pid].1
                    } else {
                        0
                    },
                    elapsed_ns as int,
                )
            },
        forall|i: int, j: int|
            0 <= i < j < list@.len() ==> (#[trigger] list@[i]).pid != (#[trigger] list@[j]).pid
                && list@[i].cpu_pct.ge(list@[j].cpu_pct),
{
    let mut list: Vec<ProcessMetrics> = Vec::new();
    if elapsed_ns == 0 {
        return list;
    }
    let keys = pids::keys_of(s2);
    let mut k: usize = 0;
    while k < keys.len()
        invariant
            elapsed_ns > 0,
            pids::lists(keys@, s2@.dom()),
            k <= keys@.len(),
            is_ranking(list@, s1@, s2@, elapsed_ns, exclude_pid),
            forall|p: i32|
                has_pid(list@, p) <==> keys@.take(k as int).contains(p) && is_busy(
                    s1@,
                    s2@,
                    elapsed_ns,
                    exclude_pid,
                    p,
                ),
        decreases keys@.len() - k,
    {
        let pid: i32 = keys[k];
        let ghost done = keys@.take(k as int);
        proof {
            assert(keys@.take(k + 1) =~= done.push(pid));
            pids::lemma_push_contains(done, pid);
            assert(keys@.contains(pid));
            assert(!done.contains(pid));
        }
        let excluded: bool = match exclude_pid {
            Some(x) => x == pid,
            None => false,
        };
        if !excluded {
            if let Some(m) = measure(s1, s2, elapsed_ns, pid, false) {
                if m.cpu_pct.at_least(Double { bits: NOISE_FLOOR }) {
                    rank(&mut list, m, Ghost(s1@), Ghost(s2@), elapsed_ns, exclude_pid);
                }
            }
        }
        k += 1;
    }
    assert(keys@.take(k as int) =~= keys@);
    let ghost full = list@;
    list.truncate(top_n);
    proof {
        assert forall|i: int| #![trigger list@[i]] 0 <= i < list@.len() implies double::is_near_percentage(
            list@[i].cpu_pct,
            if !s1@.contains_key(list@[i].pid) {
                s2@[list@[i].pid].1 as int
            } else if s2@[list@[i].pid].1 > s1@[list@[i].pid].1 {
                s2@[list@[i].pid].1 - s1@[list@[i].pid].1
            } else {
                0
            },
            elapsed_ns as int,
        ) by {
            assert(list@[i] == full[i]);
            law_share_is_what_was_used(s1@, s2@, elapsed_ns, list@[i].pid);
        }
        assert forall|pid: i32|
            #[trigger] is_busy(s1@, s2@, elapsed_ns, exclude_pid, pid) && !has_pid(
                list@,
                pid,
            ) implies {
            &&& list@.len() == top_n
            &&& forall|i: int|
                0 <= i < list@.len() ==> (#[trigger] list@[i]).cpu_pct.order() >= cpu_share(
                    s1@,
                    s2@,
                    elapsed_ns,
                    pid,
                ).order()
        } by {
            assert(keys@.contains(pid));
            assert(has_pid(full, pid));
            let j = choose|j: int| 0 <= j < full.len() && (#[trigger] full[j]).pid == pid;
            if j < list@.len() {
                assert(list@[j].pid == pid);
            }
            assert forall|i: int| 0 <= i < list@.len() implies (
            #[trigger] list@[i]).cpu_pct.order() >= cpu_share(
                s1@,
                s2@,
                elapsed_ns,
                pid,
            ).order() by {
                assert(list@[i] == full[i]);
            }
        }
    }
    list
}

/// The figures of the foreground process; `None` where the second snapshot does not
/// hold it or the window is empty.
pub fn get_frontmost_metrics(
    pid: i32,
    s1: &CpuSnapshot,
    s2: &CpuSnapshot,
    elapsed_ns: u64,
) -> (m: Option<ProcessMetrics>)
    ensures
        m is Some <==> elapsed_ns > 0 && s2@.contains_key(pid),
        m matches Some(x) ==> x == metrics_of(s1@, s2@, elapsed_ns, pid, true),
        m matches Some(x) ==> {
            &&& x.pid == pid
            &&& x.name == s2@[pid].0
            &&& x.resident_bytes == s2@[pid].2
            &&& x.threadnum == s2@[pid].3
            &&& x.uid == s2@[pid].4
            &&& x.is_frontmost
            &&& double::is_near_percentage(
                x.cpu_pct,
                if !s1@.contains_key(pid) {
                    s2@[pid].1 as int
                } else if s2@[pid].1 > s1@[pid].1 {
                    s2@[pid].1 - s1@[pid].1
                } else {
                    0
                },
                elapsed_ns as int,
            )
        },
{
    if elapsed_ns == 0 {
        return None;
    }
    proof {
        law_share_is_what_was_used(s1@, s2@, elapsed_ns, pid);
    }
    measure(s1, s2, elapsed_ns, pid, true)
}

/// The size in bytes of one process id in the kernel's list.
pub const PID_SIZE: i32 = 4;

/// How many process ids the buffer for the kernel's list holds, where the kernel
/// says that it needs `needed` bytes: room for those and for sixteen more that may
/// start meanwhile. Zero where the kernel has nothing to list.
pub fn pid_capacity(needed: i32) -> (capacity: usize)
    ensures
        capacity == (if needed <= 0 {
            0
        } else {
            needed / 4 + 16
        }),
{
    if needed <= 0 {
        return 0;
    }
    (needed / PID_SIZE) as usize + 16
}

/// The process ids in a buffer of which the kernel has filled `filled` bytes. Ids
/// that are not positive mark unused places.
pub open spec fn pids_in(buffer: Seq<i32>, filled: int) -> Seq<i32> {
    let count = if filled <= 0 {
        0
    } else {
        filled / 4
    };
    buffer.take(
        if count < buffer.len() {
            count
        } else {
            buffer.len() as int
        },
    ).filter(|pid: i32| pid > 0)
}

/// The process ids in a buffer of which the kernel has filled `filled` bytes.
pub fn listed_pids(buffer: &Vec<i32>, filled: i32) -> (listed: Vec<i32>)
    ensures
        listed@ == pids_in(buffer@, filled as int),
        forall|i: int| 0 <= i < listed@.len() ==> #[trigger] listed@[i] > 0,
        filled <= 0 ==> listed@.len() == 0,
        0 < filled && filled as int / 4 <= buffer@.len() ==> listed@ == buffer@.take(
            filled as int / 4,
        ).filter(|pid: i32| pid > 0),
        filled as int / 4 > buffer@.len() ==> listed@ == buffer@.filter(|pid: i32| pid > 0),
{
    assert(buffer@.take(buffer@.len() as int) =~= buffer@);
    let mut listed: Vec<i32> = Vec::new();
    if filled <= 0 {
        proof {
            reveal(Seq::filter);
            assert(buffer@.take(0) =~= Seq::<i32>::empty());
        }
        return listed;
    }
    let mut count: usize = (filled / PID_SIZE) as usize;
    if count > buffer.len() {
        count = buffer.len();
    }
    let ghost positive = |pid: i32| pid > 0;
    let mut i: usize = 0;
    proof {
        reveal(Seq::filter);
        assert(buffer@.take(0) =~= Seq::<i32>::empty());
    }
    while i < count
        invariant
            i <= count <= buffer@.len(),
            positive == (|pid: i32| pid > 0),
            listed@ == buffer@.take(i as int).filter(positive),
            forall|j: int| 0 <= j < listed@.len() ==> #[trigger] listed@[j] > 0,
        decreases count - i,
    {
        proof {
            reveal(Seq::filter);
            assert(buffer@.take(i + 1).drop_last() =~= buffer@.take(i as int));
        }
        if buffer[i] > 0 {
            listed.push(buffer[i]);
        }
        i += 1;
    }
    listed
}

/// The accounting figures that the kernel gives for a process.
pub struct TaskInfo {
    pub resident_size: u64,
    /// CPU nanoseconds in user space.
    pub total_user: u64,
    /// CPU nanoseconds in the kernel.
    pub total_system: u64,
    pub threadnum: i32,
}

/// The size in bytes of the kernel's accounting record.
pub const TASK_INFO_SIZE: i32 = 96;

/// The sum of two counts, capped at the largest count.
pub open spec fn capped_sum(a: u64, b: u64) -> u64 {
    if a + b > u64::MAX {
        u64::MAX
    } else {
        (a + b) as u64
    }
}

/// The CPU nanoseconds, resident bytes and threads of a process from the kernel's
/// record, of which `written` bytes were filled. An incomplete record says nothing.
/// The CPU time is capped at the largest count.
pub fn task_usage(written: i32, info: &TaskInfo) -> (usage: Option<(u64, u64, i32)>)
    ensures
        usage is Some <==> written >= TASK_INFO_SIZE,
        usage is Some <==> written >= 96,
        usage matches Some(u) ==> {
            &&& info.total_user + info.total_system <= u64::MAX ==> u.0 == info.total_user
                + info.total_system
            &&& info.total_user + info.total_system > u64::MAX ==> u.0 == u64::MAX
            &&& u.1 == info.resident_size
            &&& u.2 == info.threadnum
        },
        usage matches Some(u) ==> u == (
            capped_sum(info.total_user, info.total_system),
            info.resident_size,
            info.threadnum,
        ),
{
    if written < TASK_INFO_SIZE {
        return None;
    }
    let cpu_ns: u64 = info.total_user.saturating_add(info.total_system);
    Some((cpu_ns, info.resident_size, info.threadnum))
}

/// The bytes before the first NUL, where there is one.
pub open spec fn before_nul(bytes: Seq<u8>) -> Option<Seq<u8>>
    decreases bytes.len(),
{
    if bytes.len() == 0 {
        None
    } else if bytes[0] == 0 {
        Some(Seq::empty())
    } else {
        match before_nul(bytes.drop_first()) {
            Some(rest) => Some(seq![bytes[0]] + rest),
            None => None,
        }
    }
}

/// The text that lossy UTF-8 decoding makes of `bytes`: the text itself where they
/// are valid, else one with replacement characters for what is not.
pub uninterp spec fn lossy_text(bytes: Seq<u8>) -> Seq<char>;

/// `String::from_utf8_lossy` decodes UTF-8. Bytes that are valid give the text that
/// they encode; of others the contract only says that the result depends on the
/// bytes alone.
#[verifier::external_body]
fn decode_lossy(bytes: &[u8]) -> (s: String)
    ensures
        s@ == lossy_text(bytes@),
        vstd::utf8::valid_utf8(bytes@) ==> s@ == vstd::utf8::decode_utf8(bytes@),
{
    String::from_utf8_lossy(bytes).into_owned()
}

/// The name in a buffer, which ends at the first NUL. There is none where no NUL
/// stands in the buffer or nothing stands before it.
pub open spec fn name_in(buffer: Seq<u8>) -> Option<Seq<char>> {
    match before_nul(buffer) {
        Some(bytes) => usable(lossy_text(bytes)),
        None => None,
    }
}

/// A name that is not empty.
pub open spec fn usable(name: Seq<char>) -> Option<Seq<char>> {
    if name.len() == 0 {
        None
    } else {
        Some(name)
    }
}

/// A decoded name, if it is not empty.
pub fn usable_name(decoded: String) -> (name: Option<String>)
    ensures
        name is Some <==> usable(decoded@) is Some,
        name matches Some(n) ==> Some(n@) == usable(decoded@),
{
    if decoded.as_str().is_empty() {
        None
    } else {
        Some(decoded)
    }
}

/// The bytes before the first NUL, where there is one.
pub fn bytes_before_nul(buffer: &[u8]) -> (bytes: Option<Vec<u8>>)
    ensures
        bytes is Some <==> before_nul(buffer@) is Some,
        bytes matches Some(b) ==> Some(b@) == before_nul(buffer@),
        bytes is Some <==> exists|i: int| 0 <= i < buffer@.len() && #[trigger] buffer@[i] == 0,
        bytes matches Some(b) ==> {
            &&& b@.len() < buffer@.len()
            &&& b@ == buffer@.take(b@.len() as int)
            &&& buffer@[b@.len() as int] == 0
            &&& forall|i: int| 0 <= i < b@.len() ==> #[trigger] b@[i] != 0
        },
{
    let mut bytes: Vec<u8> = Vec::new();
    let mut i: usize = 0;
    assert(buffer@.skip(0) =~= buffer@);
    while i < buffer.len()
        invariant
            i <= buffer@.len(),
            bytes@ == buffer@.take(i as int),
            forall|j: int| 0 <= j < i ==> #[trigger] buffer@[j] != 0,
            before_nul(buffer@) == (match before_nul(buffer@.skip(i as int)) {
                Some(rest) => Some(bytes@ + rest),
                None => None,
            }),
        decreases buffer@.len() - i,
    {
        let ghost rest = buffer@.skip(i as int);
        assert(rest.drop_first() =~= buffer@.skip(i + 1));
        let b: u8 = buffer[i];
        if b == 0 {
            assert(before_nul(rest) == Some(Seq::<u8>::empty()));
            assert(bytes@ + Seq::<u8>::empty() =~= bytes@);
            return Some(bytes);
        }
        proof {
            if let Some(tail) = before_nul(rest.drop_first()) {
                assert(bytes@ + (seq![b] + tail) =~= bytes@.push(b) + tail);
            }
        }
        bytes.push(b);
        i += 1;
    }
    None
}

/// The name in a buffer whose bytes before the first NUL are valid UTF-8.
pub open spec fn valid_name(buffer: Seq<u8>) -> Option<Seq<char>> {
    match before_nul(buffer) {
        Some(bytes) => if bytes.len() > 0 && vstd::utf8::valid_utf8(bytes) {
            Some(vstd::utf8::decode_utf8(bytes))
        } else {
            None
        },
        None => None,
    }
}

/// Whether no name stands in a buffer: there is no NUL in it or nothing before it.
pub open spec fn holds_no_name(buffer: Seq<u8>) -> bool {
    before_nul(buffer) matches Some(bytes) ==> bytes.len() == 0
}

/// The name in a buffer, which ends at the first NUL. Where the bytes before it are
/// valid UTF-8 it is the text that they encode.
pub fn name_from(buffer: &[u8]) -> (name: Option<String>)
    ensures
        name is Some <==> name_in(buffer@) is Some,
        name matches Some(n) ==> Some(n@) == name_in(buffer@),
        valid_name(buffer@) matches Some(v) ==> name is Some && name.unwrap()@ == v,
        holds_no_name(buffer@) ==> name is None,
{
    match bytes_before_nul(buffer) {
        Some(bytes) => usable_name(decode_lossy(bytes.as_slice())),
        None => None,
    }
}

/// The full name of a process, where the kernel's answer `written` says that it put
/// one into the buffer.
pub fn long_name(written: i32, buffer: &[u8]) -> (name: Option<String>)
    ensures
        name is Some <==> written > 0 && name_in(buffer@) is Some,
        name matches Some(n) ==> Some(n@) == name_in(buffer@),
        written > 0 && valid_name(buffer@) is Some ==> name is Some && Some(name.unwrap()@)
            == valid_name(buffer@),
        holds_no_name(buffer@) ==> name is None,
{
    if written > 0 {
        name_from(buffer)
    } else {
        None
    }
}

/// The size in bytes of the kernel's short record of a process.
pub const SHORT_INFO_SIZE: i32 = 64;

/// A process id in angle brackets, which stands for a name that is not known.
pub open spec fn placeholder(pid: i32) -> Seq<char> {
    "<"@ + text::signed_decimal(pid as int) + ">"@
}

/// A process id in angle brackets.
pub fn placeholder_name(pid: i32) -> (name: String)
    ensures
        name@ == placeholder(pid),
{
    let mut name = String::new();
    name.append("<");
    name.append(text::signed_text(pid).as_str());
    name.append(">");
    assert(name@ =~= placeholder(pid));
    name
}

/// The name of a process whose full name is not known: the one in the kernel's short
/// record, of which `written` bytes were filled, else its id in angle brackets.
pub fn short_name(pid: i32, written: i32, buffer: &[u8]) -> (name: String)
    ensures
        name@ == (if written >= SHORT_INFO_SIZE && name_in(buffer@) is Some {
            name_in(buffer@).unwrap()
        } else {
            placeholder(pid)
        }),
        name@ == (if written >= 64 && name_in(buffer@) is Some {
            name_in(buffer@).unwrap()
        } else {
            "<"@ + text::signed_decimal(pid as int) + ">"@
        }),
        written >= SHORT_INFO_SIZE && valid_name(buffer@) is Some ==> Some(name@) == valid_name(
            buffer@,
        ),
{
    if written >= SHORT_INFO_SIZE {
        if let Some(name) = name_from(buffer) {
            return name;
        }
    }
    placeholder_name(pid)
}

/// The kernel's short record of a process.
pub struct ShortRecord {
    /// How many bytes of the record were filled.
    pub written: i32,
    /// The field for the name.
    pub name: Vec<u8>,
    /// The owner.
    pub uid: u32,
}

/// The owner that a process counts as belonging to where its own is not known: the
/// system.
pub const SYSTEM_UID: u32 = 0;

/// The name and the owner of a process from the kernel's two answers: `written` bytes
/// of the full name in `buffer`, and the short record. The full name goes before the
/// short one. An incomplete record tells neither a name nor an owner.
pub fn name_and_owner(pid: i32, written: i32, buffer: &[u8], record: &ShortRecord) -> (identity: (
    String,
    u32,
))
    ensures
        identity.0@ == (if written > 0 && name_in(buffer@) is Some {
            name_in(buffer@).unwrap()
        } else if record.written >= SHORT_INFO_SIZE && name_in(record.name@) is Some {
            name_in(record.name@).unwrap()
        } else {
            placeholder(pid)
        }),
        written > 0 && valid_name(buffer@) is Some ==> Some(identity.0@) == valid_name(buffer@),
        (written <= 0 || holds_no_name(buffer@)) && record.written >= SHORT_INFO_SIZE && valid_name(record.name@) is Some ==> Some(
            identity.0@,
        ) == valid_name(record.name@),
        identity.1 == (if record.written >= SHORT_INFO_SIZE {
            record.uid
        } else {
            SYSTEM_UID
        }),
        record.written >= 64 ==> identity.1 == record.uid,
        record.written < 64 ==> identity.1 == 0,
        record.written < 64 && (written <= 0 || holds_no_name(buffer@)) ==> identity.0@ == "<"@
            + text::signed_decimal(pid as int) + ">"@,
{
    let uid: u32 = if record.written >= SHORT_INFO_SIZE {
        record.uid
    } else {
        SYSTEM_UID
    };
    match long_name(written, buffer) {
        Some(name) => (name, uid),
        None => (short_name(pid, record.written, record.name.as_slice()), uid),
    }
}

/// What was found out about one process.
pub struct ProcessSample {
    pub pid: i32,
    /// CPU nanoseconds, resident bytes and threads, where they could be read.
    pub usage: Option<(u64, u64, i32)>,
    pub name: String,
    pub uid: u32,
}

/// The snapshot that a row of samples gives: every process whose figures could be
/// read, with the last such sample of it.
pub open spec fn snapshot_of(samples: Seq<ProcessSample>) -> Map<
    i32,
    (String, u64, u64, i32, u32),
>
    decreases samples.len(),
{
    if samples.len() == 0 {
        Map::empty()
    } else {
        let earlier = snapshot_of(samples.drop_last());
        let last = samples.last();
        match last.usage {
            Some(usage) => earlier.insert(
                last.pid,
                (last.name, usage.0, usage.1, usage.2, last.uid),
            ),
            None => earlier,
        }
    }
}

/// Collects a point-in-time snapshot of every process whose figures could be read.
pub fn take_snapshot(samples: &[ProcessSample]) -> (snap: CpuSnapshot)
    ensures
        snap@ == snapshot_of(samples@),
{
    let mut snap: CpuSnapshot = HashMap::new();
    let mut i: usize = 0;
    while i < samples.len()
        invariant
            i <= samples@.len(),
            snap@ == snapshot_of(samples@.take(i as int)),
        decreases samples@.len() - i,
    {
        let s = &samples[i];
        assert(samples@.take(i + 1).drop_last() =~= samples@.take(i as int));
        if let Some(usage) = s.usage {
            snap.insert(s.pid, (s.name.clone(), usage.0, usage.1, usage.2, s.uid));
        }
        i += 1;
    }
    assert(samples@.take(i as int) =~= samples@);
    snap
}

/// Every listed process is one of the second snapshot, not the excluded one, with the
/// name, memory, threads and owner that the snapshot gives, and used a tenth of a percent
/// of the window, up to one part in a million.
pub proof fn law_listed_process_is_busy(
    list: Seq<ProcessMetrics>,
    s1: Map<i32, (String, u64, u64, i32, u32)>,
    s2: Map<i32, (String, u64, u64, i32, u32)>,
    elapsed_ns: u64,
    exclude_pid: Option<i32>,
    top_n: nat,
    i: int,
)
    requires
        is_top_cpu(list, s1, s2, elapsed_ns, exclude_pid, top_n),
        0 <= i < list.len(),
    ensures
        elapsed_ns > 0,
        list.len() <= top_n,
        ({
            let m = list[i];
            let used = if s1.contains_key(m.pid) {
                s2[m.pid].1 - s1[m.pid].1
            } else {
                s2[m.pid].1 as int
            };
            &&& s2.contains_key(m.pid)
            &&& exclude_pid != Some(m.pid)
            &&& m.name == s2[m.pid].0
            &&& m.resident_bytes == s2[m.pid].2
            &&& m.threadnum == s2[m.pid].3
            &&& m.uid == s2[m.pid].4
            &&& !m.is_frontmost
            &&& double::is_near_percentage(m.cpu_pct, used, elapsed_ns as int)
            &&& 1_000_000_000 * used > 999_999 * elapsed_ns
        }),
{
    let pid = list[i].pid;
    assert(is_busy(s1, s2, elapsed_ns, exclude_pid, pid));
    law_share_is_what_was_used(s1, s2, elapsed_ns, pid);
    let used = if s1.contains_key(pid) {
        s2[pid].1 - s1[pid].1
    } else {
        s2[pid].1 as int
    };
    if used <= 0 {
        law_noise_is_below_a_tenth(list[i].cpu_pct, 0, elapsed_ns as int);
    } else {
        law_noise_is_below_a_tenth(list[i].cpu_pct, used, elapsed_ns as int);
    }
}

/// A process of the second snapshot that is not the excluded one and used a tenth of a
/// percent of the window is listed, up to one part in a million; unless the list is full
/// of processes that have no smaller share.
pub proof fn law_busy_process_is_listed(
    list: Seq<ProcessMetrics>,
    s1: Map<i32, (String, u64, u64, i32, u32)>,
    s2: Map<i32, (String, u64, u64, i32, u32)>,
    elapsed_ns: u64,
    exclude_pid: Option<i32>,
    top_n: nat,
    pid: i32,
)
    requires
        is_top_cpu(list, s1, s2, elapsed_ns, exclude_pid, top_n),
        elapsed_ns > 0,
        s2.contains_key(pid),
        exclude_pid != Some(pid),
        1_000_000_000 * (if s1.contains_key(pid) {
            s2[pid].1 - s1[pid].1
        } else {
            s2[pid].1 as int
        }) >= 1_000_001 * elapsed_ns,
    ensures
        (exists|i: int| 0 <= i < list.len() && (#[trigger] list[i]).pid == pid) || (list.len()
            == top_n && forall|i: int|
            0 <= i < list.len() ==> (#[trigger] list[i]).cpu_pct.ge(
                cpu_share(s1, s2, elapsed_ns, pid),
            )),
{
    let used = if s1.contains_key(pid) {
        s2[pid].1 - s1[pid].1
    } else {
        s2[pid].1 as int
    };
    let share = cpu_share(s1, s2, elapsed_ns, pid);
    law_share_is_what_was_used(s1, s2, elapsed_ns, pid);
    law_noise_is_below_a_tenth(share, used, elapsed_ns as int);
    assert(is_busy(s1, s2, elapsed_ns, exclude_pid, pid));
    if !has_pid(list, pid) {
        assert forall|i: int| 0 <= i < list.len() implies (#[trigger] list[i]).cpu_pct.ge(share) by {
            assert(is_busy(s1, s2, elapsed_ns, exclude_pid, list[i].pid));
        }
    }
}

/// A list names each process once, and none stands behind one with a smaller share.
pub proof fn law_list_is_ranked(
    list: Seq<ProcessMetrics>,
    s1: Map<i32, (String, u64, u64, i32, u32)>,
    s2: Map<i32, (String, u64, u64, i32, u32)>,
    elapsed_ns: u64,
    exclude_pid: Option<i32>,
    top_n: nat,
    i: int,
    j: int,
)
    requires
        is_top_cpu(list, s1, s2, elapsed_ns, exclude_pid, top_n),
        0 <= i < j < list.len(),
    ensures
        list[i].pid != list[j].pid,
        list[i].cpu_pct.ge(list[j].cpu_pct),
{
    assert(is_busy(s1, s2, elapsed_ns, exclude_pid, list[i].pid));
    assert(is_busy(s1, s2, elapsed_ns, exclude_pid, list[j].pid));
}

/// A snapshot holds exactly the processes of which a sample has figures, and for each
/// what the last such sample says.
pub proof fn law_snapshot_keeps_last_figures(samples: Seq<ProcessSample>, pid: i32, k: int)
    requires
        -1 <= k < samples.len(),
        k >= 0 ==> samples[k].pid == pid && samples[k].usage is Some,
        forall|j: int|
            k < j < samples.len() ==> (#[trigger] samples[j]).pid != pid || samples[j].usage is None,
    ensures
        snapshot_of(samples).contains_key(pid) <==> k >= 0,
        k >= 0 ==> {
            let kept = snapshot_of(samples)[pid];
            &&& kept.0 == samples[k].name
            &&& kept.1 == samples[k].usage.unwrap().0
            &&& kept.2 == samples[k].usage.unwrap().1
            &&& kept.3 == samples[k].usage.unwrap().2
            &&& kept.4 == samples[k].uid
        },
    decreases samples.len(),
{
    if samples.len() > 0 && k < samples.len() - 1 {
        let rest = samples.drop_last();
        assert(samples[samples.len() - 1] == samples.last());
        assert forall|j: int| k < j < rest.len() implies (#[trigger] rest[j]).pid != pid
            || rest[j].usage is None by {
            assert(rest[j] == samples[j]);
        }
        law_snapshot_keeps_last_figures(rest, pid, k);
    }
}

/// The bytes of a name are those that stand before the first NUL of the buffer, and a
/// buffer without one holds no name. A name is what the bytes decode to, unless that is
/// empty.
pub proof fn law_names_end_at_first_nul(buffer: Seq<u8>, n: int)
    requires
        0 <= n <= buffer.len(),
        forall|i: int| 0 <= i < n ==> #[trigger] buffer[i] != 0,
        n < buffer.len() ==> buffer[n] == 0,
    ensures
        n < buffer.len() ==> before_nul(buffer) == Some(buffer.take(n)),
        n == buffer.len() ==> before_nul(buffer) is None && name_in(buffer) is None,
        n < buffer.len() && lossy_text(buffer.take(n)).len() > 0 ==> name_in(buffer) == Some(
            lossy_text(buffer.take(n)),
        ),
        n < buffer.len() && lossy_text(buffer.take(n)).len() == 0 ==> name_in(buffer) is None,
    decreases buffer.len(),
{
    if n > 0 {
        let rest = buffer.drop_first();
        assert forall|i: int| 0 <= i < n - 1 implies #[trigger] rest[i] != 0 by {
            assert(buffer[i + 1] != 0);
        }
        assert(buffer[0] != 0);
        law_names_end_at_first_nul(rest, n - 1);
        assert(seq![buffer[0]] + rest.take(n - 1) =~= buffer.take(n));
    } else {
        assert(buffer.take(0) =~= Seq::<u8>::empty());
    }
}

} // verus!
