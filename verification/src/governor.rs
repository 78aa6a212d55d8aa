//! The governor: which processes are held on the efficiency cores.
//!
//! A process whose CPU share reaches the throttle threshold is throttled; it is
//! released when its share falls below the release threshold. The gap between the
//! two keeps a process from going back and forth.

use crate::double::Double;
use crate::pids;
use crate::process::{CpuSnapshot, ProcessMetrics};
use crate::text;
use std::collections::HashSet;
use vstd::prelude::*;

verus! {

broadcast use vstd::std_specs::hash::group_hash_axioms;

/// The bit pattern of 15.0, the CPU percentage from which a process is throttled
/// unless the user chooses another.
pub const DEFAULT_THROTTLE: u64 = 0x402e_0000_0000_0000;

/// The bit pattern of 5.0, the CPU percentage below which a process is released
/// unless the user chooses another.
pub const DEFAULT_RELEASE: u64 = 0x4014_0000_0000_0000;

/// The least owner id of a standard user.
pub const MIN_USER_UID: u32 = 500;

/// What the user can set.
#[derive(Debug)]
pub struct GovernorConfig {
    /// CPU percentage at or above which an eligible process is throttled.
    pub throttle_threshold: Double,
    /// CPU percentage below which a throttled process is released.
    pub release_threshold: Double,
    /// In standby nothing is evaluated and nothing stays throttled.
    pub is_paused: bool,
    /// Processes that are throttled whatever their CPU share, if they are eligible.
    pub forced_e_pids: HashSet<i32>,
    /// Processes that are never throttled.
    pub forced_p_pids: HashSet<i32>,
}

impl GovernorConfig {
    /// Both thresholds are positive, and the release threshold lies below the
    /// throttle threshold.
    pub open spec fn has_gap(self) -> bool {
        let zero = Double { bits: 0 };
        &&& zero.lt(self.throttle_threshold)
        &&& zero.lt(self.release_threshold)
        &&& self.release_threshold.lt(self.throttle_threshold)
    }
}

impl Clone for GovernorConfig {
    fn clone(&self) -> (c: GovernorConfig)
        ensures
            c.throttle_threshold == self.throttle_threshold,
            c.release_threshold == self.release_threshold,
            c.is_paused == self.is_paused,
            c.forced_e_pids@ == self.forced_e_pids@,
            c.forced_p_pids@ == self.forced_p_pids@,
    {
        GovernorConfig {
            throttle_threshold: self.throttle_threshold,
            release_threshold: self.release_threshold,
            is_paused: self.is_paused,
            forced_e_pids: pids::copy_of(&self.forced_e_pids),
            forced_p_pids: pids::copy_of(&self.forced_p_pids),
        }
    }
}

impl Default for GovernorConfig {
    fn default() -> (c: GovernorConfig)
        ensures
            c.throttle_threshold == (Double { bits: DEFAULT_THROTTLE }),
            c.release_threshold == (Double { bits: DEFAULT_RELEASE }),
            !c.is_paused,
            c.forced_e_pids@ == Set::<i32>::empty(),
            c.forced_p_pids@ == Set::<i32>::empty(),
            c.has_gap(),
    {
        GovernorConfig {
            throttle_threshold: Double { bits: DEFAULT_THROTTLE },
            release_threshold: Double { bits: DEFAULT_RELEASE },
            is_paused: false,
            forced_e_pids: HashSet::new(),
            forced_p_pids: HashSet::new(),
        }
    }
}

/// The order to throttle a process (`enable`) or to release it.
#[derive(Clone, Copy, Debug, PartialEq, Eq, Structural)]
pub struct ThrottleCommand {
    pub pid: i32,
    pub enable: bool,
}

/// Critical processes of the user interface that are never throttled.
pub open spec fn is_protected(name: Seq<char>) -> bool {
    ||| name == "WindowServer"@
    ||| name == "Dock"@
    ||| name == "Finder"@
    ||| name == "loginwindow"@
    ||| name == "coreaudiod"@
    ||| name == "SystemUIServer"@
    ||| name == "NotificationCenter"@
    ||| name == "Spotlight"@
    ||| name == "launchd"@
}

/// Whether a process belongs to a standard user and is not one of the protected
/// ones.
pub open spec fn is_eligible(name: Seq<char>, uid: u32) -> bool {
    uid >= MIN_USER_UID && !is_protected(name)
}

/// Whether a process is eligible and has reached the throttle threshold.
pub open spec fn deserves_throttle(m: ProcessMetrics, threshold: Double) -> bool {
    is_eligible(m.name@, m.uid) && m.cpu_pct.ge(threshold)
}

/// Whether a process is one of the protected ones.
fn protected(name: &str) -> (r: bool)
    ensures
        r == is_protected(name@),
{
    text::same_text(name, "WindowServer") || text::same_text(name, "Dock") || text::same_text(
        name,
        "Finder",
    ) || text::same_text(name, "loginwindow") || text::same_text(name, "coreaudiod")
        || text::same_text(name, "SystemUIServer") || text::same_text(name, "NotificationCenter")
        || text::same_text(name, "Spotlight") || text::same_text(name, "launchd")
}

/// Whether a process belongs to a standard user and is not one of the protected
/// ones.
fn eligible(name: &str, uid: u32) -> (r: bool)
    ensures
        r == is_eligible(name@, uid),
{
    uid >= MIN_USER_UID && !protected(name)
}

/// Whether a process is eligible and has reached the throttle threshold.
pub fn should_throttle(m: &ProcessMetrics, threshold: Double) -> (r: bool)
    ensures
        r == deserves_throttle(*m, threshold),
        r <==> {
            &&& m.uid >= 500
            &&& m.name@ != "WindowServer"@
            &&& m.name@ != "Dock"@
            &&& m.name@ != "Finder"@
            &&& m.name@ != "loginwindow"@
            &&& m.name@ != "coreaudiod"@
            &&& m.name@ != "SystemUIServer"@
            &&& m.name@ != "NotificationCenter"@
            &&& m.name@ != "Spotlight"@
            &&& m.name@ != "launchd"@
            &&& m.cpu_pct.ge(threshold)
        },
{
    eligible(m.name.as_str(), m.uid) && m.cpu_pct.at_least(threshold)
}

/// What is done about one busy process: an order to throttle it, an order to release
/// it, or nothing. A process that is not eligible is not throttled, forced or not; one that
/// is throttled and forced to the efficiency cores stays so.
pub open spec fn response(config: GovernorConfig, throttled: Set<i32>, m: ProcessMetrics) -> Option<
    ThrottleCommand,
> {
    if config.forced_e_pids@.contains(m.pid) {
        if throttled.contains(m.pid) || !is_eligible(m.name@, m.uid) {
            None
        } else {
            Some(ThrottleCommand { pid: m.pid, enable: true })
        }
    } else if config.forced_p_pids@.contains(m.pid) {
        if throttled.contains(m.pid) {
            Some(ThrottleCommand { pid: m.pid, enable: false })
        } else {
            None
        }
    } else if deserves_throttle(m, config.throttle_threshold) && !throttled.contains(m.pid) {
        Some(ThrottleCommand { pid: m.pid, enable: true })
    } else {
        None
    }
}

/// The throttled processes after an order.
pub open spec fn after_command(throttled: Set<i32>, c: ThrottleCommand) -> Set<i32> {
    if c.enable {
        throttled.insert(c.pid)
    } else {
        throttled.remove(c.pid)
    }
}

/// The orders that the busy processes give rise to, one after the other.
pub open spec fn pass_commands(
    config: GovernorConfig,
    throttled: Set<i32>,
    hogs: Seq<ProcessMetrics>,
) -> Seq<ThrottleCommand>
    decreases hogs.len(),
{
    if hogs.len() == 0 {
        Seq::empty()
    } else {
        let earlier = pass_commands(config, throttled, hogs.drop_last());
        let now = after_commands(throttled, earlier);
        match response(config, now, hogs.last()) {
            Some(c) => earlier.push(c),
            None => earlier,
        }
    }
}

/// The throttled processes after a row of orders.
pub open spec fn after_commands(throttled: Set<i32>, commands: Seq<ThrottleCommand>) -> Set<i32>
    decreases commands.len(),
{
    if commands.len() == 0 {
        throttled
    } else {
        after_command(after_commands(throttled, commands.drop_last()), commands.last())
    }
}

/// The CPU share of a process in a list, zero where it is not in it.
pub open spec fn cpu_in(hogs: Seq<ProcessMetrics>, pid: i32) -> Double
    decreases hogs.len(),
{
    if hogs.len() == 0 {
        Double { bits: 0 }
    } else if hogs[0].pid == pid {
        hogs[0].cpu_pct
    } else {
        cpu_in(hogs.drop_first(), pid)
    }
}

/// Whether a throttled process is to be released.
pub open spec fn is_due(config: GovernorConfig, hogs: Seq<ProcessMetrics>, pid: i32) -> bool {
    &&& !config.forced_e_pids@.contains(pid)
    &&& config.forced_p_pids@.contains(pid) || cpu_in(hogs, pid).lt(config.release_threshold)
}

/// Whether a process in a list is eligible and has reached the throttle threshold.
pub open spec fn has_offender(hogs: Seq<ProcessMetrics>, pid: i32, threshold: Double) -> bool {
    exists|i: int|
        0 <= i < hogs.len() && (#[trigger] hogs[i]).pid == pid && deserves_throttle(
            hogs[i],
            threshold,
        )
}

/// Whether a process in a list is eligible.
pub open spec fn has_eligible(hogs: Seq<ProcessMetrics>, pid: i32) -> bool {
    exists|i: int|
        0 <= i < hogs.len() && (#[trigger] hogs[i]).pid == pid && is_eligible(
            hogs[i].name@,
            hogs[i].uid,
        )
}

/// Whether a process is throttled once the busy processes have been looked at, where
/// `throttled` were before.
pub open spec fn is_held(
    config: GovernorConfig,
    throttled: Set<i32>,
    hogs: Seq<ProcessMetrics>,
    pid: i32,
) -> bool {
    if config.forced_e_pids@.contains(pid) {
        throttled.contains(pid) || has_eligible(hogs, pid)
    } else if config.forced_p_pids@.contains(pid) {
        throttled.contains(pid) && !crate::process::has_pid(hogs, pid)
    } else {
        throttled.contains(pid) || has_offender(hogs, pid, config.throttle_threshold)
    }
}

/// Whether a process is throttled after an evaluation, where `throttled` were before.
pub open spec fn is_settled(
    config: GovernorConfig,
    throttled: Set<i32>,
    hogs: Seq<ProcessMetrics>,
    pid: i32,
) -> bool {
    is_held(config, throttled, hogs, pid) && !is_due(config, hogs, pid)
}

/// Whether `commands` orders the release of each of some processes once, in any
/// order, and nothing else.
pub open spec fn are_releases(commands: Seq<ThrottleCommand>, members: spec_fn(i32) -> bool) -> bool {
    &&& commands.no_duplicates()
    &&& forall|c: ThrottleCommand| #[trigger]
        commands.contains(c) <==> !c.enable && members(c.pid)
}

/// Whether `commands` are the orders of one evaluation: those that the busy processes
/// give rise to, one after the other, then the release of what is due in any order;
/// and whether `after` is what is throttled once they are carried out.
pub open spec fn is_evaluation(
    config: GovernorConfig,
    throttled: Set<i32>,
    hogs: Seq<ProcessMetrics>,
    commands: Seq<ThrottleCommand>,
    after: Set<i32>,
) -> bool {
    let pass = pass_commands(config, throttled, hogs);
    &&& pass.is_prefix_of(commands)
    &&& are_releases(
        commands.skip(pass.len() as int),
        |pid: i32| is_held(config, throttled, hogs, pid) && is_due(config, hogs, pid),
    )
    &&& after == after_commands(throttled, commands)
    &&& forall|pid: i32| #[trigger]
        after.contains(pid) <==> is_settled(config, throttled, hogs, pid)
}

/// Whether `commands` release everything that is throttled, each process once.
pub open spec fn is_clearance(throttled: Set<i32>, commands: Seq<ThrottleCommand>) -> bool {
    are_releases(commands, |pid: i32| throttled.contains(pid))
}

/// Whether `commands` are the orders of one round, after which `after` are throttled:
/// in standby everything is released, otherwise there is an evaluation.
pub open spec fn is_round(
    config: GovernorConfig,
    throttled: Set<i32>,
    hogs: Seq<ProcessMetrics>,
    commands: Seq<ThrottleCommand>,
    after: Set<i32>,
) -> bool {
    &&& after == after_commands(throttled, commands)
    &&& if config.is_paused {
        is_clearance(throttled, commands) && after == Set::<i32>::empty()
    } else {
        is_evaluation(config, throttled, hogs, commands, after)
    }
}

/// The busy processes throttle and release exactly what `is_held` says.
pub proof fn law_pass_holds(
    config: GovernorConfig,
    throttled: Set<i32>,
    hogs: Seq<ProcessMetrics>,
    pid: i32,
)
    ensures
        after_commands(throttled, pass_commands(config, throttled, hogs)).contains(pid) <==> is_held(
            config,
            throttled,
            hogs,
            pid,
        ),
    decreases hogs.len(),
{
    if hogs.len() > 0 {
        let rest = hogs.drop_last();
        let m = hogs.last();
        let t = config.throttle_threshold;
        law_pass_holds(config, throttled, rest, pid);
        let earlier = pass_commands(config, throttled, rest);
        let now = after_commands(throttled, earlier);
        if let Some(c) = response(config, now, m) {
            assert(earlier.push(c).drop_last() =~= earlier);
        }
        assert(crate::process::has_pid(hogs, pid) <==> crate::process::has_pid(rest, pid) || m.pid
            == pid) by {
            if crate::process::has_pid(rest, pid) {
                let i = choose|i: int| 0 <= i < rest.len() && (#[trigger] rest[i]).pid == pid;
                assert(hogs[i].pid == pid);
            }
            if crate::process::has_pid(hogs, pid) && m.pid != pid {
                let i = choose|i: int| 0 <= i < hogs.len() && (#[trigger] hogs[i]).pid == pid;
                assert(rest[i].pid == pid);
            }
            assert(hogs[hogs.len() - 1] == m);
        }
        assert(has_eligible(hogs, pid) <==> has_eligible(rest, pid) || (m.pid == pid && is_eligible(
            m.name@,
            m.uid,
        ))) by {
            if has_eligible(rest, pid) {
                let i = choose|i: int|
                    0 <= i < rest.len() && (#[trigger] rest[i]).pid == pid && is_eligible(
                        rest[i].name@,
                        rest[i].uid,
                    );
                assert(hogs[i].pid == pid);
            }
            if has_eligible(hogs, pid) && !(m.pid == pid && is_eligible(m.name@, m.uid)) {
                let i = choose|i: int|
                    0 <= i < hogs.len() && (#[trigger] hogs[i]).pid == pid && is_eligible(
                        hogs[i].name@,
                        hogs[i].uid,
                    );
                assert(rest[i].pid == pid);
            }
            assert(hogs[hogs.len() - 1] == m);
        }
        assert(has_offender(hogs, pid, t) <==> has_offender(rest, pid, t) || (m.pid == pid
            && deserves_throttle(m, t))) by {
            if has_offender(rest, pid, t) {
                let i = choose|i: int|
                    0 <= i < rest.len() && (#[trigger] rest[i]).pid == pid && deserves_throttle(
                        rest[i],
                        t,
                    );
                assert(hogs[i].pid == pid);
            }
            if has_offender(hogs, pid, t) && !(m.pid == pid && deserves_throttle(m, t)) {
                let i = choose|i: int|
                    0 <= i < hogs.len() && (#[trigger] hogs[i]).pid == pid && deserves_throttle(
                        hogs[i],
                        t,
                    );
                assert(rest[i].pid == pid);
            }
            assert(hogs[hogs.len() - 1] == m);
        }
    } else {
        assert(!crate::process::has_pid(hogs, pid));
    }
}

/// The governor and the processes that it holds on the efficiency cores.
pub struct Governor {
    suspended: HashSet<i32>,
    config: GovernorConfig,
}

impl View for Governor {
    type V = Set<i32>;

    /// The throttled processes.
    closed spec fn view(&self) -> Set<i32> {
        self.suspended@
    }
}

impl Governor {
    /// What the user has set.
    pub closed spec fn settings(&self) -> GovernorConfig {
        self.config
    }

    /// A governor that has throttled nothing.
    pub fn new(config: GovernorConfig) -> (g: Governor)
        ensures
            g@ == Set::<i32>::empty(),
            g.settings() == config,
    {
        Governor { suspended: HashSet::new(), config }
    }

    /// Takes over what the user has set. Nothing is throttled or released on that
    /// account until the next evaluation.
    pub fn configure(&mut self, config: GovernorConfig)
        ensures
            final(self)@ == old(self)@,
            final(self).settings() == config,
    {
        self.config = config;
    }

    /// The CPU share of a process in a list, zero where it is not in it.
    fn share_in(hogs: &[ProcessMetrics], pid: i32) -> (share: Double)
        ensures
            share == cpu_in(hogs@, pid),
    {
        let mut i: usize = 0;
        assert(hogs@.skip(0) =~= hogs@);
        while i < hogs.len()
            invariant
                i <= hogs@.len(),
                cpu_in(hogs@, pid) == cpu_in(hogs@.skip(i as int), pid),
            decreases hogs@.len() - i,
        {
            assert(hogs@.skip(i as int).drop_first() =~= hogs@.skip(i + 1));
            if hogs[i].pid == pid {
                return hogs[i].cpu_pct;
            }
            i += 1;
        }
        Double { bits: 0 }
    }

    /// One evaluation. The user's choices come first: an eligible process that is
    /// forced to the efficiency cores is throttled whatever its share, and one forced
    /// off them is never throttled. For the others the two thresholds decide; a process that is
    /// not among the busy ones counts as using no CPU. The orders are returned, those
    /// that the busy processes give rise to first.
    pub fn evaluate(&mut self, hogs: &[ProcessMetrics]) -> (commands: Vec<ThrottleCommand>)
        ensures
            final(self).settings() == old(self).settings(),
            is_evaluation(old(self).settings(), old(self)@, hogs@, commands@, final(self)@),
    {
        let ghost config = self.config;
        let ghost start = self@;
        let mut commands: Vec<ThrottleCommand> = Vec::new();
        let mut i: usize = 0;
        while i < hogs.len()
            invariant
                i <= hogs@.len(),
                self.config == config,
                commands@ == pass_commands(config, start, hogs@.take(i as int)),
                self@ == after_commands(start, commands@),
            decreases hogs@.len() - i,
        {
            let m = &hogs[i];
            let ghost earlier = commands@;
            assert(hogs@.take(i + 1).drop_last() =~= hogs@.take(i as int));
            let held: bool = self.suspended.contains(&m.pid);
            if self.config.forced_e_pids.contains(&m.pid) {
                if !held && eligible(m.name.as_str(), m.uid) {
                    commands.push(ThrottleCommand { pid: m.pid, enable: true });
                    self.suspended.insert(m.pid);
                    assert(commands@.drop_last() =~= earlier);
                }
            } else if self.config.forced_p_pids.contains(&m.pid) {
                if held {
                    commands.push(ThrottleCommand { pid: m.pid, enable: false });
                    self.suspended.remove(&m.pid);
                    assert(commands@.drop_last() =~= earlier);
                }
            } else if !held && should_throttle(m, self.config.throttle_threshold) {
                commands.push(ThrottleCommand { pid: m.pid, enable: true });
                self.suspended.insert(m.pid);
                assert(commands@.drop_last() =~= earlier);
            }
            i += 1;
        }
        assert(hogs@.take(i as int) =~= hogs@);
        let ghost pass = commands@;
        let ghost held = self@;
        proof {
            assert forall|pid: i32| held.contains(pid) <==> is_held(config, start, hogs@, pid) by {
                law_pass_holds(config, start, hogs@, pid);
            }
        }
        let listed = pids::members_of(&self.suspended);
        let mut j: usize = 0;
        while j < listed.len()
            invariant
                j <= listed@.len(),
                pids::lists(listed@, held),
                self.config == config,
                self@ == after_commands(start, commands@),
                pass.is_prefix_of(commands@),
                commands@.skip(pass.len() as int).no_duplicates(),
                forall|c: ThrottleCommand| #[trigger]
                    commands@.skip(pass.len() as int).contains(c) <==> !c.enable && listed@.take(
                        j as int,
                    ).contains(c.pid) && is_due(config, hogs@, c.pid),
                forall|pid: i32|
                    self@.contains(pid) <==> held.contains(pid) && !(listed@.take(j as int).contains(
                        pid,
                    ) && is_due(config, hogs@, pid)),
            decreases listed@.len() - j,
        {
            let pid: i32 = listed[j];
            let ghost done = listed@.take(j as int);
            let ghost releases = commands@.skip(pass.len() as int);
            proof {
                assert(listed@.take(j + 1) =~= done.push(pid));
                pids::lemma_push_contains(done, pid);
                assert(!done.contains(pid));
            }
            if !self.config.forced_e_pids.contains(&pid) {
                let due: bool = self.config.forced_p_pids.contains(&pid) || Self::share_in(
                    hogs,
                    pid,
                ).less_than(self.config.release_threshold);
                if due {
                    let c = ThrottleCommand { pid, enable: false };
                    let ghost earlier = commands@;
                    commands.push(c);
                    self.suspended.remove(&pid);
                    proof {
                        assert(commands@.drop_last() =~= earlier);
                        assert(!releases.contains(c));
                        assert(commands@.skip(pass.len() as int) =~= releases.push(c));
                        pids::lemma_push_contains(releases, c);
                    }
                }
            }
            j += 1;
        }
        proof {
            assert(listed@.take(j as int) =~= listed@);
            assert forall|pid: i32| self@.contains(pid) <==> is_settled(config, start, hogs@, pid) by {
                assert(listed@.contains(pid) <==> held.contains(pid));
            }
        }
        commands
    }

    /// Whether a process is throttled.
    pub fn is_throttled(&self, pid: i32) -> (r: bool)
        ensures
            r == self@.contains(pid),
    {
        self.suspended.contains(&pid)
    }

    /// Whether the governor is in standby.
    pub fn is_paused(&self) -> (r: bool)
        ensures
            r == self.settings().is_paused,
    {
        self.config.is_paused
    }

    /// Whether any process is throttled.
    pub fn has_throttled(&self) -> (r: bool)
        ensures
            r == exists|pid: i32| self@.contains(pid),
    {
        let empty: bool = self.suspended.is_empty();
        proof {
            if empty {
                assert(self@ =~= Set::<i32>::empty());
            } else if forall|pid: i32| !self@.contains(pid) {
                assert(self@ =~= Set::<i32>::empty());
            }
        }
        !empty
    }

    /// Copies of the two sets of processes that the user has forced.
    pub fn forced_pid_sets(&self) -> (sets: (HashSet<i32>, HashSet<i32>))
        ensures
            sets.0@ == self.settings().forced_e_pids@,
            sets.1@ == self.settings().forced_p_pids@,
    {
        (pids::copy_of(&self.config.forced_e_pids), pids::copy_of(&self.config.forced_p_pids))
    }

    /// Releases every throttled process.
    pub fn release_all(&mut self) -> (commands: Vec<ThrottleCommand>)
        ensures
            final(self)@ == Set::<i32>::empty(),
            final(self).settings() == old(self).settings(),
            is_clearance(old(self)@, commands@),
            final(self)@ == after_commands(old(self)@, commands@),
    {
        let listed = pids::members_of(&self.suspended);
        let commands = releases_of(&listed);
        proof {
            lemma_after_releases(self@, commands@);
            assert(after_commands(self@, commands@) =~= Set::<i32>::empty()) by {
                assert forall|pid: i32| !after_commands(self@, commands@).contains(pid) by {
                    assert(commands@.contains(ThrottleCommand { pid, enable: false })
                        <==> self@.contains(pid));
                }
            }
        }
        self.suspended.clear();
        commands
    }

    /// One round: in standby whatever is throttled is released, otherwise the busy
    /// processes are evaluated.
    pub fn govern(&mut self, hogs: &[ProcessMetrics]) -> (commands: Vec<ThrottleCommand>)
        ensures
            final(self).settings() == old(self).settings(),
            is_round(old(self).settings(), old(self)@, hogs@, commands@, final(self)@),
    {
        if self.is_paused() {
            if self.has_throttled() {
                self.release_all()
            } else {
                assert(self@ =~= Set::<i32>::empty());
                Vec::new()
            }
        } else {
            self.evaluate(hogs)
        }
    }
}

/// Orders to release leave those processes throttled that they do not name.
proof fn lemma_after_releases(throttled: Set<i32>, commands: Seq<ThrottleCommand>)
    requires
        forall|i: int| 0 <= i < commands.len() ==> !(#[trigger] commands[i]).enable,
    ensures
        forall|pid: i32|
            #![trigger after_commands(throttled, commands).contains(pid)]
            after_commands(throttled, commands).contains(pid) <==> throttled.contains(pid)
                && !commands.contains(ThrottleCommand { pid, enable: false }),
    decreases commands.len(),
{
    if commands.len() > 0 {
        let rest = commands.drop_last();
        lemma_after_releases(throttled, rest);
        pids::lemma_push_contains(rest, commands.last());
        assert(rest.push(commands.last()) =~= commands);
        assert forall|pid: i32|
            #![trigger after_commands(throttled, commands).contains(pid)]
            after_commands(throttled, commands).contains(pid) <==> throttled.contains(pid)
                && !commands.contains(ThrottleCommand { pid, enable: false }) by {
            let c = ThrottleCommand { pid, enable: false };
            assert(commands.last() == commands[commands.len() - 1]);
            assert(rest.push(commands.last()).contains(c) <==> rest.contains(c) || c
                == commands.last());
            assert(after_commands(throttled, rest).contains(pid) <==> throttled.contains(pid)
                && !rest.contains(c));
        }
    }
}

/// Orders the release of each listed process.
fn releases_of(listed: &Vec<i32>) -> (commands: Vec<ThrottleCommand>)
    requires
        listed@.no_duplicates(),
    ensures
        are_releases(commands@, |pid: i32| listed@.contains(pid)),
        forall|i: int| 0 <= i < commands@.len() ==> !(#[trigger] commands@[i]).enable,
{
    let mut commands: Vec<ThrottleCommand> = Vec::new();
    let mut i: usize = 0;
    while i < listed.len()
        invariant
            i <= listed@.len(),
            listed@.no_duplicates(),
            commands@.no_duplicates(),
            forall|j: int| 0 <= j < commands@.len() ==> !(#[trigger] commands@[j]).enable,
            forall|c: ThrottleCommand| #[trigger]
                commands@.contains(c) <==> !c.enable && listed@.take(i as int).contains(c.pid),
        decreases listed@.len() - i,
    {
        let c = ThrottleCommand { pid: listed[i], enable: false };
        proof {
            let done = listed@.take(i as int);
            assert(listed@.take(i + 1) =~= done.push(c.pid));
            pids::lemma_push_contains(done, c.pid);
            assert(!done.contains(c.pid));
            assert(!commands@.contains(c));
            pids::lemma_push_contains(commands@, c);
        }
        commands.push(c);
        i += 1;
    }
    assert(listed@.take(i as int) =~= listed@);
    commands
}

/// Whether a process may have been left throttled by a governor that did not come to
/// release it.
pub open spec fn is_recoverable(snap: Map<i32, (String, u64, u64, i32, u32)>, pid: i32) -> bool {
    snap.contains_key(pid) && is_eligible(snap[pid].0@, snap[pid].4)
}

/// Orders the release of every eligible process that is running, whether or not it
/// is throttled.
pub fn run_recovery(snap: &CpuSnapshot) -> (commands: Vec<ThrottleCommand>)
    ensures
        are_releases(commands@, |pid: i32| is_recoverable(snap@, pid)),
{
    let keys = pids::keys_of(snap);
    let mut chosen: Vec<i32> = Vec::new();
    let mut i: usize = 0;
    while i < keys.len()
        invariant
            i <= keys@.len(),
            pids::lists(keys@, snap@.dom()),
            chosen@.no_duplicates(),
            forall|p: i32| #[trigger]
                chosen@.contains(p) <==> keys@.take(i as int).contains(p) && is_recoverable(snap@, p),
        decreases keys@.len() - i,
    {
        let pid: i32 = keys[i];
        proof {
            let done = keys@.take(i as int);
            assert(keys@.take(i + 1) =~= done.push(pid));
            pids::lemma_push_contains(done, pid);
            assert(!done.contains(pid));
            assert(!chosen@.contains(pid));
            pids::lemma_push_contains(chosen@, pid);
        }
        if let Some(entry) = snap.get(&pid) {
            if eligible(entry.0.as_str(), entry.4) {
                chosen.push(pid);
            }
        }
        i += 1;
    }
    proof {
        assert(keys@.take(i as int) =~= keys@);
        assert forall|p: i32| chosen@.contains(p) <==> is_recoverable(snap@, p) by {
            assert(keys@.contains(p) <==> snap@.dom().contains(p));
        }
    }
    let commands = releases_of(&chosen);
    commands
}

/// Whatever was throttled, after a recovery no eligible process that is running is,
/// and nothing else has changed.
pub proof fn law_recovery_frees_eligible(
    snap: Map<i32, (String, u64, u64, i32, u32)>,
    throttled: Set<i32>,
    commands: Seq<ThrottleCommand>,
    pid: i32,
)
    requires
        are_releases(commands, |p: i32| is_recoverable(snap, p)),
    ensures
        after_commands(throttled, commands).contains(pid) <==> throttled.contains(pid)
            && !is_recoverable(snap, pid),
{
    assert forall|i: int| 0 <= i < commands.len() implies !(#[trigger] commands[i]).enable by {
        assert(commands.contains(commands[i]));
    }
    lemma_after_releases(throttled, commands);
    assert(commands.contains(ThrottleCommand { pid, enable: false }) <==> is_recoverable(snap, pid));
}

/// What is reported of one release during a recovery.
pub fn recovery_notice(name: &str, pid: i32) -> (s: String)
    ensures
        s@ == "[RECOVERY] Spawned taskpolicy restore for "@ + name@ + " (PID "@
            + text::signed_decimal(pid as int) + ")"@,
{
    let mut s = String::new();
    s.append("[RECOVERY] Spawned taskpolicy restore for ");
    s.append(name);
    s.append(" (PID ");
    s.append(text::signed_text(pid).as_str());
    s.append(")");
    assert(s@ =~= "[RECOVERY] Spawned taskpolicy restore for "@ + name@ + " (PID "@
        + text::signed_decimal(pid as int) + ")"@);
    s
}

/// What is reported at the end of a recovery that released `count` processes.
pub fn recovery_summary(count: u64) -> (s: String)
    ensures
        s@ == "[RECOVERY] Done — lifted throttle on "@ + text::decimal(count as nat)
            + " process(es)."@,
{
    let mut s = String::new();
    s.append("[RECOVERY] Done — lifted throttle on ");
    text::append_decimal(&mut s, count);
    s.append(" process(es).");
    assert(s@ =~= "[RECOVERY] Done — lifted throttle on "@ + text::decimal(count as nat)
        + " process(es)."@);
    s
}

/// The arguments with which the system's policy tool carries out an order: `-b` moves
/// a process to background service, `-B` takes it back.
pub fn policy_arguments(command: ThrottleCommand) -> (arguments: Vec<String>)
    ensures
        arguments@.len() == 3,
        arguments@[0]@ == (if command.enable {
            "-b"@
        } else {
            "-B"@
        }),
        arguments@[1]@ == "-p"@,
        arguments@[2]@ == text::signed_decimal(command.pid as int),
{
    let mut arguments: Vec<String> = Vec::new();
    if command.enable {
        arguments.push("-b".to_owned());
    } else {
        arguments.push("-B".to_owned());
    }
    arguments.push("-p".to_owned());
    arguments.push(text::signed_text(command.pid));
    arguments
}

/// A process of a standard user that is not protected and has reached the throttle
/// threshold is throttled after the evaluation, unless the user forces it off the
/// efficiency cores.
pub proof fn law_offender_is_throttled(
    config: GovernorConfig,
    throttled: Set<i32>,
    hogs: Seq<ProcessMetrics>,
    i: int,
)
    requires
        config.has_gap(),
        forall|a: int, b: int|
            0 <= a < b < hogs.len() ==> (#[trigger] hogs[a]).pid != (#[trigger] hogs[b]).pid,
        0 <= i < hogs.len(),
        deserves_throttle(hogs[i], config.throttle_threshold),
        !config.forced_p_pids@.contains(hogs[i].pid),
    ensures
        is_settled(config, throttled, hogs, hogs[i].pid),
{
    lemma_share_in(hogs, i);
    assert(crate::process::has_pid(hogs, hogs[i].pid));
    assert(has_offender(hogs, hogs[i].pid, config.throttle_threshold));
}

/// The share of a process that occurs once in a list is the one that is noted there.
proof fn lemma_share_in(hogs: Seq<ProcessMetrics>, i: int)
    requires
        forall|a: int, b: int|
            0 <= a < b < hogs.len() ==> (#[trigger] hogs[a]).pid != (#[trigger] hogs[b]).pid,
        0 <= i < hogs.len(),
    ensures
        cpu_in(hogs, hogs[i].pid) == hogs[i].cpu_pct,
    decreases hogs.len(),
{
    if i > 0 {
        let rest = hogs.drop_first();
        assert(hogs[0].pid != hogs[i].pid);
        assert forall|a: int, b: int| 0 <= a < b < rest.len() implies (#[trigger] rest[a]).pid != (
        #[trigger] rest[b]).pid by {
            assert(hogs[a + 1].pid != hogs[b + 1].pid);
        }
        lemma_share_in(rest, i - 1);
    }
}

/// A process whose share lies below the release threshold is not throttled after the
/// evaluation, unless the user forces it to the efficiency cores.
pub proof fn law_calm_is_released(
    config: GovernorConfig,
    throttled: Set<i32>,
    hogs: Seq<ProcessMetrics>,
    pid: i32,
)
    requires
        !config.forced_e_pids@.contains(pid),
        cpu_in(hogs, pid).lt(config.release_threshold),
    ensures
        !is_settled(config, throttled, hogs, pid),
{
}

/// Two rows of orders have the effect of one after the other.
pub proof fn law_orders_compose(
    throttled: Set<i32>,
    first: Seq<ThrottleCommand>,
    second: Seq<ThrottleCommand>,
)
    ensures
        after_commands(throttled, first + second) == after_commands(
            after_commands(throttled, first),
            second,
        ),
    decreases second.len(),
{
    if second.len() == 0 {
        assert(first + second =~= first);
    } else {
        law_orders_compose(throttled, first, second.drop_last());
        assert((first + second).drop_last() =~= first + second.drop_last());
    }
}

/// Whatever orders have been given since the governor started, the releases with
/// which it ends leave no process throttled.
pub proof fn law_shutdown_leaves_none(history: Seq<ThrottleCommand>, last: Seq<ThrottleCommand>)
    requires
        is_clearance(after_commands(Set::empty(), history), last),
    ensures
        after_commands(Set::empty(), history + last) == Set::<i32>::empty(),
{
    let throttled = after_commands(Set::empty(), history);
    law_orders_compose(Set::empty(), history, last);
    assert forall|i: int| 0 <= i < last.len() implies !(#[trigger] last[i]).enable by {
        assert(last.contains(last[i]));
    }
    lemma_after_releases(throttled, last);
    assert(after_commands(throttled, last) =~= Set::<i32>::empty()) by {
        assert forall|pid: i32| !after_commands(throttled, last).contains(pid) by {
            assert(last.contains(ThrottleCommand { pid, enable: false }) <==> throttled.contains(pid));
        }
    }
}

/// A throttled process keeps its state while its share lies between the two
/// thresholds: nothing that is not below the release threshold is released, and
/// nothing that has not reached the throttle threshold is throttled.
pub proof fn law_gap_keeps_state(
    config: GovernorConfig,
    throttled: Set<i32>,
    hogs: Seq<ProcessMetrics>,
    pid: i32,
)
    requires
        !config.forced_e_pids@.contains(pid),
        !config.forced_p_pids@.contains(pid),
        !cpu_in(hogs, pid).lt(config.release_threshold),
        !has_offender(hogs, pid, config.throttle_threshold),
    ensures
        is_settled(config, throttled, hogs, pid) <==> throttled.contains(pid),
{
}

/// An eligible process that is among the busy ones and forced to the efficiency cores
/// is throttled after the evaluation, whatever its share and even if it is forced off
/// them too. One that is not eligible is throttled exactly if it was before.
pub proof fn law_forced_to_efficiency(
    config: GovernorConfig,
    throttled: Set<i32>,
    hogs: Seq<ProcessMetrics>,
    i: int,
)
    requires
        forall|a: int, b: int|
            0 <= a < b < hogs.len() ==> (#[trigger] hogs[a]).pid != (#[trigger] hogs[b]).pid,
        0 <= i < hogs.len(),
        config.forced_e_pids@.contains(hogs[i].pid),
    ensures
        is_eligible(hogs[i].name@, hogs[i].uid) ==> is_settled(config, throttled, hogs, hogs[i].pid),
        !is_eligible(hogs[i].name@, hogs[i].uid) ==> (is_settled(
            config,
            throttled,
            hogs,
            hogs[i].pid,
        ) <==> throttled.contains(hogs[i].pid)),
{
    let pid = hogs[i].pid;
    if has_eligible(hogs, pid) {
        let j = choose|j: int|
            0 <= j < hogs.len() && (#[trigger] hogs[j]).pid == pid && is_eligible(
                hogs[j].name@,
                hogs[j].uid,
            );
        assert(j == i);
    }
    if is_eligible(hogs[i].name@, hogs[i].uid) {
        assert(has_eligible(hogs, pid));
    }
}

/// A process that is forced to the efficiency cores and not among the busy ones stays
/// as it is.
pub proof fn law_forced_and_idle_stays(
    config: GovernorConfig,
    throttled: Set<i32>,
    hogs: Seq<ProcessMetrics>,
    pid: i32,
)
    requires
        config.forced_e_pids@.contains(pid),
        !crate::process::has_pid(hogs, pid),
    ensures
        is_settled(config, throttled, hogs, pid) <==> throttled.contains(pid),
{
}

/// A process that is forced off the efficiency cores, and not also onto them, is not
/// throttled after any evaluation.
pub proof fn law_forced_to_performance(
    config: GovernorConfig,
    throttled: Set<i32>,
    hogs: Seq<ProcessMetrics>,
    pid: i32,
)
    requires
        config.forced_p_pids@.contains(pid),
        !config.forced_e_pids@.contains(pid),
    ensures
        !is_settled(config, throttled, hogs, pid),
{
}

/// A process that is not among the busy ones is released, unless the user forces it
/// to the efficiency cores or the release threshold is not positive.
pub proof fn law_idle_is_released(
    config: GovernorConfig,
    throttled: Set<i32>,
    hogs: Seq<ProcessMetrics>,
    pid: i32,
)
    requires
        !config.forced_e_pids@.contains(pid),
        !crate::process::has_pid(hogs, pid),
        (Double { bits: 0 }).lt(config.release_threshold),
    ensures
        !is_settled(config, throttled, hogs, pid),
{
    lemma_absent_share(hogs, pid);
}

/// A process that is not in a list has no share in it.
proof fn lemma_absent_share(hogs: Seq<ProcessMetrics>, pid: i32)
    requires
        !crate::process::has_pid(hogs, pid),
    ensures
        cpu_in(hogs, pid) == (Double { bits: 0 }),
    decreases hogs.len(),
{
    if hogs.len() > 0 {
        assert(hogs[0].pid != pid);
        assert forall|i: int| 0 <= i < hogs.drop_first().len() implies (
        #[trigger] hogs.drop_first()[i]).pid != pid by {
            assert(hogs.drop_first()[i] == hogs[i + 1]);
        }
        lemma_absent_share(hogs.drop_first(), pid);
    }
}

/// Whether a process in a list is eligible and either forced to the efficiency cores
/// or at the throttle threshold.
pub open spec fn has_candidate(
    config: GovernorConfig,
    hogs: Seq<ProcessMetrics>,
    pid: i32,
) -> bool {
    exists|i: int|
        0 <= i < hogs.len() && (#[trigger] hogs[i]).pid == pid && is_eligible(
            hogs[i].name@,
            hogs[i].uid,
        ) && (config.forced_e_pids@.contains(pid) || hogs[i].cpu_pct.ge(config.throttle_threshold))
}

/// What holds of the candidates of a shorter list holds of the longer one.
proof fn lemma_more_candidates(config: GovernorConfig, hogs: Seq<ProcessMetrics>, pid: i32)
    requires
        hogs.len() > 0,
        has_candidate(config, hogs.drop_last(), pid),
    ensures
        has_candidate(config, hogs, pid),
{
    let rest = hogs.drop_last();
    let i = choose|i: int|
        0 <= i < rest.len() && (#[trigger] rest[i]).pid == pid && is_eligible(
            rest[i].name@,
            rest[i].uid,
        ) && (config.forced_e_pids@.contains(pid) || rest[i].cpu_pct.ge(config.throttle_threshold));
    assert(hogs[i].pid == pid);
}

/// Every order to throttle that the busy processes give rise to names a candidate.
proof fn lemma_pass_is_justified(
    config: GovernorConfig,
    throttled: Set<i32>,
    hogs: Seq<ProcessMetrics>,
    i: int,
)
    requires
        0 <= i < pass_commands(config, throttled, hogs).len(),
        pass_commands(config, throttled, hogs)[i].enable,
    ensures
        has_candidate(config, hogs, pass_commands(config, throttled, hogs)[i].pid),
    decreases hogs.len(),
{
    let rest = hogs.drop_last();
    let earlier = pass_commands(config, throttled, rest);
    let c = pass_commands(config, throttled, hogs)[i];
    if i < earlier.len() {
        lemma_pass_is_justified(config, throttled, rest, i);
        lemma_more_candidates(config, hogs, c.pid);
    } else {
        assert(hogs[hogs.len() - 1].pid == c.pid);
    }
}

/// Every order to throttle names a busy process of a standard user that is not
/// protected, and that the user forces to the efficiency cores or that has reached
/// the throttle threshold.
pub proof fn law_orders_are_justified(
    config: GovernorConfig,
    throttled: Set<i32>,
    hogs: Seq<ProcessMetrics>,
    commands: Seq<ThrottleCommand>,
    after: Set<i32>,
    i: int,
)
    requires
        is_evaluation(config, throttled, hogs, commands, after),
        0 <= i < commands.len(),
        commands[i].enable,
    ensures
        has_candidate(config, hogs, commands[i].pid),
{
    let pass = pass_commands(config, throttled, hogs);
    if i < pass.len() {
        assert(commands[i] == pass[i]);
        lemma_pass_is_justified(config, throttled, hogs, i);
    } else {
        let releases = commands.skip(pass.len() as int);
        assert(releases[i - pass.len()] == commands[i]);
        assert(releases.contains(commands[i]));
    }
}

/// No process is throttled after an evaluation that was not before, unless it is a
/// busy process of a standard user, is not protected, and either the user forces it
/// to the efficiency cores or it has reached the throttle threshold.
pub proof fn law_only_offenders_are_added(
    config: GovernorConfig,
    throttled: Set<i32>,
    hogs: Seq<ProcessMetrics>,
    pid: i32,
)
    requires
        is_settled(config, throttled, hogs, pid),
        !throttled.contains(pid),
    ensures
        has_candidate(config, hogs, pid),
{
}

/// A protected process, or one of the system, is not throttled by any evaluation,
/// whatever its share and whatever the user forces.
pub proof fn law_ineligible_is_not_throttled(
    config: GovernorConfig,
    throttled: Set<i32>,
    hogs: Seq<ProcessMetrics>,
    commands: Seq<ThrottleCommand>,
    after: Set<i32>,
    i: int,
)
    requires
        is_evaluation(config, throttled, hogs, commands, after),
        forall|a: int, b: int|
            0 <= a < b < hogs.len() ==> (#[trigger] hogs[a]).pid != (#[trigger] hogs[b]).pid,
        0 <= i < hogs.len(),
        !is_eligible(hogs[i].name@, hogs[i].uid),
    ensures
        !commands.contains(ThrottleCommand { pid: hogs[i].pid, enable: true }),
        after.contains(hogs[i].pid) ==> throttled.contains(hogs[i].pid),
{
    let pid = hogs[i].pid;
    let c = ThrottleCommand { pid, enable: true };
    assert(!has_candidate(config, hogs, pid)) by {
        if has_candidate(config, hogs, pid) {
            let j = choose|j: int|
                0 <= j < hogs.len() && (#[trigger] hogs[j]).pid == pid && is_eligible(
                    hogs[j].name@,
                    hogs[j].uid,
                ) && (config.forced_e_pids@.contains(pid) || hogs[j].cpu_pct.ge(
                    config.throttle_threshold,
                ));
            assert(j == i);
        }
    }
    if commands.contains(c) {
        let k = choose|k: int| 0 <= k < commands.len() && commands[k] == c;
        law_orders_are_justified(config, throttled, hogs, commands, after, k);
    }
    if after.contains(pid) && !throttled.contains(pid) {
        law_only_offenders_are_added(config, throttled, hogs, pid);
    }
}

/// A process that has reached the throttle threshold is not due for release.
proof fn lemma_not_both(config: GovernorConfig, hogs: Seq<ProcessMetrics>, i: int)
    requires
        config.has_gap(),
        forall|a: int, b: int|
            0 <= a < b < hogs.len() ==> (#[trigger] hogs[a]).pid != (#[trigger] hogs[b]).pid,
        0 <= i < hogs.len(),
        hogs[i].cpu_pct.ge(config.throttle_threshold),
        !config.forced_p_pids@.contains(hogs[i].pid),
    ensures
        !is_due(config, hogs, hogs[i].pid),
{
    lemma_share_in(hogs, i);
}

/// Every order that the busy processes give rise to is what is done about one of them.
proof fn lemma_pass_order(
    config: GovernorConfig,
    throttled: Set<i32>,
    hogs: Seq<ProcessMetrics>,
    i: int,
) -> (j: int)
    requires
        0 <= i < pass_commands(config, throttled, hogs).len(),
    ensures
        0 <= j < hogs.len(),
        hogs[j].pid == pass_commands(config, throttled, hogs)[i].pid,
        pass_commands(config, throttled, hogs)[i].enable ==> config.forced_e_pids@.contains(
            hogs[j].pid,
        ) || (!config.forced_p_pids@.contains(hogs[j].pid) && hogs[j].cpu_pct.ge(
            config.throttle_threshold,
        )),
        !pass_commands(config, throttled, hogs)[i].enable ==> !config.forced_e_pids@.contains(
            hogs[j].pid,
        ) && config.forced_p_pids@.contains(hogs[j].pid),
    decreases hogs.len(),
{
    let rest = hogs.drop_last();
    let earlier = pass_commands(config, throttled, rest);
    if i < earlier.len() {
        let j = lemma_pass_order(config, throttled, rest, i);
        assert(rest[j] == hogs[j]);
        j
    } else {
        hogs.len() - 1
    }
}

/// The orders that the busy processes give rise to name different processes.
proof fn lemma_pass_is_distinct(
    config: GovernorConfig,
    throttled: Set<i32>,
    hogs: Seq<ProcessMetrics>,
)
    requires
        forall|a: int, b: int|
            0 <= a < b < hogs.len() ==> (#[trigger] hogs[a]).pid != (#[trigger] hogs[b]).pid,
    ensures
        forall|a: int, b: int|
            0 <= a < b < pass_commands(config, throttled, hogs).len() ==> (
            #[trigger] pass_commands(config, throttled, hogs)[a]).pid != (
            #[trigger] pass_commands(config, throttled, hogs)[b]).pid,
    decreases hogs.len(),
{
    if hogs.len() > 0 {
        let rest = hogs.drop_last();
        let earlier = pass_commands(config, throttled, rest);
        let all = pass_commands(config, throttled, hogs);
        assert forall|a: int, b: int| 0 <= a < b < rest.len() implies (#[trigger] rest[a]).pid != (
        #[trigger] rest[b]).pid by {
            assert(hogs[a].pid != hogs[b].pid);
        }
        lemma_pass_is_distinct(config, throttled, rest);
        assert forall|a: int, b: int| 0 <= a < b < all.len() implies (#[trigger] all[a]).pid != (
        #[trigger] all[b]).pid by {
            assert(all[a] == earlier[a]);
            if b < earlier.len() {
                assert(all[b] == earlier[b]);
            } else {
                let j = lemma_pass_order(config, throttled, rest, a);
                assert(rest[j] == hogs[j]);
                assert(hogs[j].pid != hogs[hogs.len() - 1].pid);
            }
        }
    }
}

/// One evaluation gives at most one order about each process.
pub proof fn law_one_order_per_process(
    config: GovernorConfig,
    throttled: Set<i32>,
    hogs: Seq<ProcessMetrics>,
    commands: Seq<ThrottleCommand>,
    after: Set<i32>,
    a: int,
    b: int,
)
    requires
        config.has_gap(),
        is_evaluation(config, throttled, hogs, commands, after),
        forall|i: int, j: int|
            0 <= i < j < hogs.len() ==> (#[trigger] hogs[i]).pid != (#[trigger] hogs[j]).pid,
        0 <= a < b < commands.len(),
    ensures
        commands[a].pid != commands[b].pid,
{
    let pass = pass_commands(config, throttled, hogs);
    let releases = commands.skip(pass.len() as int);
    lemma_pass_is_distinct(config, throttled, hogs);
    if b < pass.len() {
        assert(commands[a] == pass[a] && commands[b] == pass[b]);
    } else {
        assert(releases[b - pass.len()] == commands[b]);
        assert(releases.contains(commands[b]));
        if a < pass.len() {
            assert(commands[a] == pass[a]);
            let j = lemma_pass_order(config, throttled, hogs, a);
            if pass[a].enable {
                if !config.forced_e_pids@.contains(hogs[j].pid) {
                    lemma_not_both(config, hogs, j);
                }
            } else {
                assert(crate::process::has_pid(hogs, hogs[j].pid));
            }
        } else {
            assert(releases[a - pass.len()] == commands[a]);
            assert(releases.contains(commands[a]));
        }
    }
}

/// Where nothing is done about any busy process, they give rise to no order.
proof fn lemma_quiet_pass(config: GovernorConfig, throttled: Set<i32>, hogs: Seq<ProcessMetrics>)
    requires
        forall|i: int|
            0 <= i < hogs.len() ==> response(config, throttled, #[trigger] hogs[i]) is None,
    ensures
        pass_commands(config, throttled, hogs).len() == 0,
    decreases hogs.len(),
{
    if hogs.len() > 0 {
        let rest = hogs.drop_last();
        assert forall|i: int| 0 <= i < rest.len() implies response(
            config,
            throttled,
            #[trigger] rest[i],
        ) is None by {
            assert(hogs[i] == rest[i]);
        }
        lemma_quiet_pass(config, throttled, rest);
        assert(response(config, throttled, hogs[hogs.len() - 1]) is None);
    }
}

/// A second evaluation of the same figures gives no order and changes nothing.
pub proof fn law_evaluation_is_idempotent(
    config: GovernorConfig,
    throttled: Set<i32>,
    hogs: Seq<ProcessMetrics>,
    first: Seq<ThrottleCommand>,
    between: Set<i32>,
    second: Seq<ThrottleCommand>,
    after: Set<i32>,
)
    requires
        config.has_gap(),
        forall|i: int, j: int|
            0 <= i < j < hogs.len() ==> (#[trigger] hogs[i]).pid != (#[trigger] hogs[j]).pid,
        is_evaluation(config, throttled, hogs, first, between),
        is_evaluation(config, between, hogs, second, after),
    ensures
        second.len() == 0,
        after == between,
{
    assert forall|i: int| 0 <= i < hogs.len() implies response(
        config,
        between,
        #[trigger] hogs[i],
    ) is None by {
        let pid = hogs[i].pid;
        let e = config.forced_e_pids@.contains(pid);
        let p = config.forced_p_pids@.contains(pid);
        assert(between.contains(pid) <==> is_settled(config, throttled, hogs, pid));
        if e {
            if is_eligible(hogs[i].name@, hogs[i].uid) {
                assert(has_eligible(hogs, pid));
            }
        } else if !p && deserves_throttle(hogs[i], config.throttle_threshold) {
            law_offender_is_throttled(config, throttled, hogs, i);
        }
    }
    lemma_quiet_pass(config, between, hogs);
    let pass = pass_commands(config, between, hogs);
    assert(second.skip(pass.len() as int) =~= second);
    if second.len() > 0 {
        let c = second[0];
        assert(second.contains(c));
        law_pass_holds(config, between, hogs, c.pid);
        assert(between.contains(c.pid));
        assert(!is_due(config, hogs, c.pid));
    }
}

/// The only entry for a process in a list decides what the list says of it.
proof fn lemma_only_entry(config: GovernorConfig, hogs: Seq<ProcessMetrics>, i: int)
    requires
        forall|a: int, b: int|
            0 <= a < b < hogs.len() ==> (#[trigger] hogs[a]).pid != (#[trigger] hogs[b]).pid,
        0 <= i < hogs.len(),
    ensures
        crate::process::has_pid(hogs, hogs[i].pid),
        has_eligible(hogs, hogs[i].pid) <==> is_eligible(hogs[i].name@, hogs[i].uid),
        has_offender(hogs, hogs[i].pid, config.throttle_threshold) <==> deserves_throttle(
            hogs[i],
            config.throttle_threshold,
        ),
        cpu_in(hogs, hogs[i].pid) == hogs[i].cpu_pct,
{
    let pid = hogs[i].pid;
    lemma_share_in(hogs, i);
    assert forall|j: int| 0 <= j < hogs.len() && (#[trigger] hogs[j]).pid == pid implies j == i by {}
}

/// Whether a busy process is throttled after an evaluation is decided by its owner, its
/// name, its share, the two thresholds, the user's two sets and whether it was throttled
/// before, and by nothing else. A process of a standard user (from 500 on) that is none
/// of the nine protected ones may be throttled; the two sets go before the thresholds.
pub proof fn law_busy_process_is_decided(
    config: GovernorConfig,
    throttled: Set<i32>,
    hogs: Seq<ProcessMetrics>,
    commands: Seq<ThrottleCommand>,
    after: Set<i32>,
    i: int,
)
    requires
        is_evaluation(config, throttled, hogs, commands, after),
        forall|a: int, b: int|
            0 <= a < b < hogs.len() ==> (#[trigger] hogs[a]).pid != (#[trigger] hogs[b]).pid,
        0 <= i < hogs.len(),
    ensures
        ({
            let m = hogs[i];
            let may_be_throttled = {
                &&& m.uid >= 500
                &&& m.name@ != "WindowServer"@
                &&& m.name@ != "Dock"@
                &&& m.name@ != "Finder"@
                &&& m.name@ != "loginwindow"@
                &&& m.name@ != "coreaudiod"@
                &&& m.name@ != "SystemUIServer"@
                &&& m.name@ != "NotificationCenter"@
                &&& m.name@ != "Spotlight"@
                &&& m.name@ != "launchd"@
            };
            after.contains(m.pid) <==> if config.forced_e_pids@.contains(m.pid) {
                throttled.contains(m.pid) || may_be_throttled
            } else if config.forced_p_pids@.contains(m.pid) {
                false
            } else if m.cpu_pct.lt(config.release_threshold) {
                false
            } else {
                throttled.contains(m.pid) || (may_be_throttled && m.cpu_pct.ge(
                    config.throttle_threshold,
                ))
            }
        }),
{
    lemma_only_entry(config, hogs, i);
    assert(after.contains(hogs[i].pid) <==> is_settled(config, throttled, hogs, hogs[i].pid));
}

/// A process that is not among the busy ones keeps being throttled only if the user
/// forces it to the efficiency cores, or if no share counts as low enough and the user
/// does not force it off them. It never starts to be.
pub proof fn law_idle_process_is_decided(
    config: GovernorConfig,
    throttled: Set<i32>,
    hogs: Seq<ProcessMetrics>,
    commands: Seq<ThrottleCommand>,
    after: Set<i32>,
    pid: i32,
)
    requires
        is_evaluation(config, throttled, hogs, commands, after),
        forall|i: int| 0 <= i < hogs.len() ==> (#[trigger] hogs[i]).pid != pid,
    ensures
        after.contains(pid) <==> throttled.contains(pid) && (config.forced_e_pids@.contains(pid) || (
        !config.forced_p_pids@.contains(pid) && !(Double { bits: 0 }).lt(config.release_threshold))),
{
    lemma_absent_share(hogs, pid);
    assert(after.contains(pid) <==> is_settled(config, throttled, hogs, pid));
}

/// A busy process of a standard user that is none of the nine protected ones and has
/// reached the throttle threshold is throttled after the evaluation, unless the user
/// forces it off the efficiency cores. Its memory, its threads and what was noted of it
/// before do not matter.
pub proof fn law_busy_user_process_is_throttled(
    config: GovernorConfig,
    throttled: Set<i32>,
    hogs: Seq<ProcessMetrics>,
    commands: Seq<ThrottleCommand>,
    after: Set<i32>,
    i: int,
)
    requires
        is_evaluation(config, throttled, hogs, commands, after),
        config.release_threshold.lt(config.throttle_threshold),
        forall|a: int, b: int|
            0 <= a < b < hogs.len() ==> (#[trigger] hogs[a]).pid != (#[trigger] hogs[b]).pid,
        0 <= i < hogs.len(),
        hogs[i].uid >= 500,
        hogs[i].name@ != "WindowServer"@,
        hogs[i].name@ != "Dock"@,
        hogs[i].name@ != "Finder"@,
        hogs[i].name@ != "loginwindow"@,
        hogs[i].name@ != "coreaudiod"@,
        hogs[i].name@ != "SystemUIServer"@,
        hogs[i].name@ != "NotificationCenter"@,
        hogs[i].name@ != "Spotlight"@,
        hogs[i].name@ != "launchd"@,
        hogs[i].cpu_pct.ge(config.throttle_threshold),
        !config.forced_p_pids@.contains(hogs[i].pid),
    ensures
        after.contains(hogs[i].pid),
{
    law_busy_process_is_decided(config, throttled, hogs, commands, after, i);
}

/// What is throttled after a row of orders: a process that no order names is as it was,
/// and one that orders name is as the last of them says.
pub proof fn law_last_order_decides(
    throttled: Set<i32>,
    commands: Seq<ThrottleCommand>,
    pid: i32,
    k: int,
)
    requires
        -1 <= k < commands.len(),
        k >= 0 ==> commands[k].pid == pid,
        forall|j: int| k < j < commands.len() ==> (#[trigger] commands[j]).pid != pid,
    ensures
        after_commands(throttled, commands).contains(pid) <==> if k < 0 {
            throttled.contains(pid)
        } else {
            commands[k].enable
        },
    decreases commands.len(),
{
    if commands.len() > 0 && k < commands.len() - 1 {
        let rest = commands.drop_last();
        assert(commands[commands.len() - 1].pid != pid);
        assert forall|j: int| k < j < rest.len() implies (#[trigger] rest[j]).pid != pid by {
            assert(commands[j].pid != pid);
        }
        law_last_order_decides(throttled, rest, pid, k);
    }
}

/// The orders that the busy processes give rise to change something: a process is
/// throttled that was not, or released that was throttled.
proof fn lemma_pass_changes(
    config: GovernorConfig,
    throttled: Set<i32>,
    hogs: Seq<ProcessMetrics>,
    i: int,
)
    requires
        forall|a: int, b: int|
            0 <= a < b < hogs.len() ==> (#[trigger] hogs[a]).pid != (#[trigger] hogs[b]).pid,
        0 <= i < pass_commands(config, throttled, hogs).len(),
    ensures
        pass_commands(config, throttled, hogs)[i].enable <==> !throttled.contains(
            pass_commands(config, throttled, hogs)[i].pid,
        ),
    decreases hogs.len(),
{
    let rest = hogs.drop_last();
    let earlier = pass_commands(config, throttled, rest);
    let m = hogs.last();
    assert forall|a: int, b: int| 0 <= a < b < rest.len() implies (#[trigger] rest[a]).pid != (
    #[trigger] rest[b]).pid by {
        assert(hogs[a].pid != hogs[b].pid);
    }
    if i < earlier.len() {
        lemma_pass_changes(config, throttled, rest, i);
    } else {
        assert forall|j: int| 0 <= j < earlier.len() implies (#[trigger] earlier[j]).pid != m.pid by {
            let h = lemma_pass_order(config, throttled, rest, j);
            assert(rest[h] == hogs[h]);
            assert(hogs[h].pid != hogs[hogs.len() - 1].pid);
        }
        law_last_order_decides(throttled, earlier, m.pid, -1);
    }
}

/// The orders of an evaluation are exactly the differences that it makes: a process is
/// ordered to be throttled exactly if it was not throttled before and is afterwards, and
/// ordered to be released exactly if it was throttled before and is not afterwards.
pub proof fn law_orders_are_the_differences(
    config: GovernorConfig,
    throttled: Set<i32>,
    hogs: Seq<ProcessMetrics>,
    commands: Seq<ThrottleCommand>,
    after: Set<i32>,
    c: ThrottleCommand,
)
    requires
        is_evaluation(config, throttled, hogs, commands, after),
        config.release_threshold.lt(config.throttle_threshold),
        (Double { bits: 0 }).lt(config.release_threshold),
        forall|a: int, b: int|
            0 <= a < b < hogs.len() ==> (#[trigger] hogs[a]).pid != (#[trigger] hogs[b]).pid,
    ensures
        commands.contains(c) <==> if c.enable {
            after.contains(c.pid) && !throttled.contains(c.pid)
        } else {
            throttled.contains(c.pid) && !after.contains(c.pid)
        },
{
    let pass = pass_commands(config, throttled, hogs);
    let releases = commands.skip(pass.len() as int);
    assert((Double { bits: 0 }).lt(config.throttle_threshold));
    assert(config.has_gap());
    if commands.contains(c) {
        let k = choose|k: int| 0 <= k < commands.len() && commands[k] == c;
        assert forall|j: int| k < j < commands.len() implies (#[trigger] commands[j]).pid != c.pid by {
            law_one_order_per_process(config, throttled, hogs, commands, after, k, j);
        }
        law_last_order_decides(throttled, commands, c.pid, k);
        if k < pass.len() {
            assert(commands[k] == pass[k]);
            lemma_pass_changes(config, throttled, hogs, k);
        } else {
            assert(releases[k - pass.len()] == c);
            assert(releases.contains(c));
            if has_offender(hogs, c.pid, config.throttle_threshold) {
                let i = choose|i: int|
                    0 <= i < hogs.len() && (#[trigger] hogs[i]).pid == c.pid && deserves_throttle(
                        hogs[i],
                        config.throttle_threshold,
                    );
                if !config.forced_p_pids@.contains(c.pid) {
                    lemma_not_both(config, hogs, i);
                }
            }
        }
    } else if after.contains(c.pid) != throttled.contains(c.pid) && after.contains(c.pid) == c.enable {
        if forall|j: int| 0 <= j < commands.len() ==> (#[trigger] commands[j]).pid != c.pid {
            law_last_order_decides(throttled, commands, c.pid, -1);
        } else {
            let k = choose|k: int| 0 <= k < commands.len() && (#[trigger] commands[k]).pid == c.pid;
            assert forall|j: int| k < j < commands.len() implies (#[trigger] commands[j]).pid
                != c.pid by {
                law_one_order_per_process(config, throttled, hogs, commands, after, k, j);
            }
            law_last_order_decides(throttled, commands, c.pid, k);
            assert(commands[k] == c);
        }
    }
}

/// Two evaluations of processes that agree in id, name, owner and share end with the
/// same processes throttled, and give the same orders, whatever else the figures are.
pub proof fn law_only_identity_and_share_matter(
    config: GovernorConfig,
    throttled: Set<i32>,
    hogs: Seq<ProcessMetrics>,
    commands: Seq<ThrottleCommand>,
    after: Set<i32>,
    others: Seq<ProcessMetrics>,
    other_commands: Seq<ThrottleCommand>,
    other_after: Set<i32>,
)
    requires
        is_evaluation(config, throttled, hogs, commands, after),
        is_evaluation(config, throttled, others, other_commands, other_after),
        config.release_threshold.lt(config.throttle_threshold),
        (Double { bits: 0 }).lt(config.release_threshold),
        forall|a: int, b: int|
            0 <= a < b < hogs.len() ==> (#[trigger] hogs[a]).pid != (#[trigger] hogs[b]).pid,
        others.len() == hogs.len(),
        forall|i: int|
            0 <= i < hogs.len() ==> {
                &&& (#[trigger] others[i]).pid == hogs[i].pid
                &&& others[i].name@ == hogs[i].name@
                &&& others[i].uid == hogs[i].uid
                &&& others[i].cpu_pct == hogs[i].cpu_pct
            },
    ensures
        other_after == after,
        forall|c: ThrottleCommand| #[trigger] commands.contains(c) <==> other_commands.contains(c),
{
    assert forall|a: int, b: int| 0 <= a < b < others.len() implies (#[trigger] others[a]).pid != (
    #[trigger] others[b]).pid by {
        assert(hogs[a].pid != hogs[b].pid);
    }
    assert forall|pid: i32| after.contains(pid) <==> other_after.contains(pid) by {
        if crate::process::has_pid(hogs, pid) {
            let i = choose|i: int| 0 <= i < hogs.len() && (#[trigger] hogs[i]).pid == pid;
            assert(others[i].pid == pid);
            law_busy_process_is_decided(config, throttled, hogs, commands, after, i);
            law_busy_process_is_decided(config, throttled, others, other_commands, other_after, i);
        } else {
            assert forall|i: int| 0 <= i < others.len() implies (#[trigger] others[i]).pid != pid by {
                assert(hogs[i].pid != pid);
            }
            law_idle_process_is_decided(config, throttled, hogs, commands, after, pid);
            law_idle_process_is_decided(
                config,
                throttled,
                others,
                other_commands,
                other_after,
                pid,
            );
        }
    }
    assert(other_after =~= after);
    assert forall|c: ThrottleCommand| #[trigger] commands.contains(c) <==> other_commands.contains(
        c,
    ) by {
        law_orders_are_the_differences(config, throttled, hogs, commands, after, c);
        law_orders_are_the_differences(config, throttled, others, other_commands, other_after, c);
    }
}

/// A round of the governor ends with what an evaluation ends with or, in standby, with
/// nothing throttled; and its orders are exactly the differences that it makes.
pub proof fn law_round_makes_its_differences(
    config: GovernorConfig,
    throttled: Set<i32>,
    hogs: Seq<ProcessMetrics>,
    commands: Seq<ThrottleCommand>,
    after: Set<i32>,
    c: ThrottleCommand,
)
    requires
        is_round(config, throttled, hogs, commands, after),
        config.release_threshold.lt(config.throttle_threshold),
        (Double { bits: 0 }).lt(config.release_threshold),
        forall|a: int, b: int|
            0 <= a < b < hogs.len() ==> (#[trigger] hogs[a]).pid != (#[trigger] hogs[b]).pid,
    ensures
        config.is_paused ==> !after.contains(c.pid),
        !config.is_paused ==> is_evaluation(config, throttled, hogs, commands, after),
        commands.contains(c) <==> if c.enable {
            after.contains(c.pid) && !throttled.contains(c.pid)
        } else {
            throttled.contains(c.pid) && !after.contains(c.pid)
        },
{
    if !config.is_paused {
        law_orders_are_the_differences(config, throttled, hogs, commands, after, c);
    }
}

/// Releasing everything orders the release of each throttled process once, and nothing
/// else.
pub proof fn law_clearance_is_everything_once(
    throttled: Set<i32>,
    commands: Seq<ThrottleCommand>,
    pid: i32,
)
    requires
        is_clearance(throttled, commands),
    ensures
        throttled.contains(pid) <==> exists|i: int|
            0 <= i < commands.len() && (#[trigger] commands[i]).pid == pid && !commands[i].enable,
        forall|i: int| 0 <= i < commands.len() ==> !(#[trigger] commands[i]).enable,
        forall|i: int, j: int|
            0 <= i < j < commands.len() ==> (#[trigger] commands[i]).pid != (
            #[trigger] commands[j]).pid,
{
    let c = ThrottleCommand { pid, enable: false };
    assert forall|i: int| 0 <= i < commands.len() implies !(#[trigger] commands[i]).enable by {
        assert(commands.contains(commands[i]));
    }
    assert forall|i: int, j: int| 0 <= i < j < commands.len() implies (#[trigger] commands[i]).pid
        != (#[trigger] commands[j]).pid by {
        assert(commands[i] != commands[j]);
    }
    if commands.contains(c) {
        let i = choose|i: int| 0 <= i < commands.len() && commands[i] == c;
        assert(commands[i].pid == pid);
    }
    if exists|i: int|
        0 <= i < commands.len() && (#[trigger] commands[i]).pid == pid && !commands[i].enable {
        let i = choose|i: int|
            0 <= i < commands.len() && (#[trigger] commands[i]).pid == pid && !commands[i].enable;
        assert(commands[i] == c);
    }
}

/// A recovery orders the release of every running process of a standard user that is
/// none of the nine protected ones, once, and gives no other order.
pub proof fn law_recovery_is_for_user_processes(
    snap: Map<i32, (String, u64, u64, i32, u32)>,
    commands: Seq<ThrottleCommand>,
    c: ThrottleCommand,
)
    requires
        are_releases(commands, |p: i32| is_recoverable(snap, p)),
    ensures
        commands.no_duplicates(),
        commands.contains(c) <==> {
            &&& !c.enable
            &&& snap.contains_key(c.pid)
            &&& snap[c.pid].4 >= 500
            &&& snap[c.pid].0@ != "WindowServer"@
            &&& snap[c.pid].0@ != "Dock"@
            &&& snap[c.pid].0@ != "Finder"@
            &&& snap[c.pid].0@ != "loginwindow"@
            &&& snap[c.pid].0@ != "coreaudiod"@
            &&& snap[c.pid].0@ != "SystemUIServer"@
            &&& snap[c.pid].0@ != "NotificationCenter"@
            &&& snap[c.pid].0@ != "Spotlight"@
            &&& snap[c.pid].0@ != "launchd"@
        },
{
}

} // verus!
