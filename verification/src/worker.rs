//! The worker: it waits for the foreground application, and then samples, decides and
//! reports once a second.

use crate::battery::BatteryState;
use crate::frontmost;
use crate::frontmost::{AppSwitchSignal, ForegroundApp};
use crate::governor;
use crate::governor::{Governor, GovernorConfig, ThrottleCommand};
use crate::pids;
use crate::process;
use crate::process::{CpuSnapshot, ProcessMetrics};
use crate::report;
use crate::text;
use std::collections::HashSet;
use vstd::prelude::*;

verus! {

broadcast use vstd::std_specs::hash::group_hash_axioms;

/// The longest single wait in nanoseconds. After each wait the worker looks whether the
/// program is to end.
pub const MAX_WAIT_NS: u64 = 100_000_000;

/// The width of the sampling window in nanoseconds.
pub const CPU_SAMPLE_WINDOW_NS: u64 = 500_000_000;

/// The length of one tick in nanoseconds.
pub const TICK_NS: u64 = 1_000_000_000;

/// Where the worker stands.
#[derive(Clone, Copy, Debug, PartialEq, Eq, Structural)]
pub enum Phase {
    /// It waits for the first application in the foreground.
    First,
    /// A tick begins: the signals that have come in meanwhile are collected.
    Collect,
    /// The first snapshot is taken, and the sampling window begins.
    Snapshot,
    /// It waits for the end of the sampling window.
    Sample,
    /// The second snapshot is taken, and what it shows is acted on and reported.
    Measure,
    /// It waits for the end of the tick.
    Rest,
    /// It has stopped because nobody can send signals any more.
    Left,
    /// It has stopped because the program is to end.
    Ending,
}

/// What can happen to the worker.
#[derive(Debug)]
pub enum Event {
    /// A wait has ended with the news that an application has come to the foreground.
    Signal(AppSwitchSignal),
    /// A wait has ended because its time was up.
    Timeout,
    /// A wait has ended because nobody can send signals any more.
    Disconnected,
    /// The signals that had come in were collected, the oldest first.
    Collected(Vec<AppSwitchSignal>),
    /// What else was to be done has been done.
    Done,
}

/// What is to be done next.
#[derive(Clone, Copy, Debug, PartialEq, Eq, Structural)]
pub enum Action {
    /// Wait for a signal, for so many nanoseconds at most.
    Wait(u64),
    /// Start the clock of the tick and collect the signals that have come in.
    Collect,
    /// Take the first snapshot and start the clock of the window.
    TakeFirst,
    /// Take the second snapshot, run the tick, and carry out and report what it gives.
    Measure,
    /// Carry out the last orders and stop working.
    Leave,
    /// Carry out the last orders and end the program.
    ShutDown,
}

/// How much time has passed.
#[derive(Clone, Copy, Debug)]
pub struct Clock {
    /// Nanoseconds since the tick began.
    pub tick_ns: u64,
    /// Nanoseconds since the sampling window began.
    pub window_ns: u64,
}

/// The application that a signal brings to the foreground.
pub open spec fn shown_by(signal: AppSwitchSignal) -> ForegroundApp {
    ForegroundApp { name: signal.name, pid: signal.pid }
}

/// The foreground application after an event: the one of the latest signal.
pub open spec fn foreground_after(fg: Option<ForegroundApp>, event: Event) -> Option<ForegroundApp> {
    match event {
        Event::Signal(signal) => Some(shown_by(signal)),
        Event::Collected(pending) => if pending@.len() > 0 {
            Some(shown_by(pending@.last()))
        } else {
            fg
        },
        _ => fg,
    }
}

/// Whether the worker has stopped.
pub open spec fn has_stopped(phase: Phase) -> bool {
    phase is Left || phase is Ending
}

/// Whether the worker waits for signals.
pub open spec fn is_waiting(phase: Phase) -> bool {
    phase is First || phase is Sample || phase is Rest
}

/// The time that is left of a span.
pub open spec fn time_left(span: u64, elapsed: u64) -> int {
    if elapsed < span {
        span - elapsed
    } else {
        0
    }
}

/// The phase in which the time until the end of the window is spent.
pub open spec fn in_window(clock: Clock) -> Phase {
    if clock.window_ns < CPU_SAMPLE_WINDOW_NS {
        Phase::Sample
    } else {
        Phase::Measure
    }
}

/// The phase in which the time until the end of the tick is spent.
pub open spec fn in_tick(clock: Clock) -> Phase {
    if clock.tick_ns < TICK_NS {
        Phase::Rest
    } else {
        Phase::Collect
    }
}

/// The phase after an event. A signal ends the sampling window and the rest early; an
/// order to end the program goes before everything. Of what a phase does not wait for
/// only the time counts.
pub open spec fn next_phase(phase: Phase, event: Event, clock: Clock, shutdown: bool) -> Phase {
    if has_stopped(phase) {
        phase
    } else if shutdown {
        Phase::Ending
    } else if is_waiting(phase) && event is Disconnected {
        Phase::Left
    } else {
        match phase {
            Phase::First => if event is Signal {
                Phase::Collect
            } else {
                Phase::First
            },
            Phase::Collect => if event is Collected {
                Phase::Snapshot
            } else {
                Phase::Collect
            },
            Phase::Snapshot => if event is Done {
                in_window(clock)
            } else {
                Phase::Snapshot
            },
            Phase::Sample => if event is Signal {
                Phase::Measure
            } else {
                in_window(clock)
            },
            Phase::Measure => if event is Done {
                in_tick(clock)
            } else {
                Phase::Measure
            },
            Phase::Rest => if event is Signal {
                Phase::Collect
            } else {
                in_tick(clock)
            },
            Phase::Left => Phase::Left,
            Phase::Ending => Phase::Ending,
        }
    }
}

/// The length of the next wait where `left` nanoseconds are left.
pub open spec fn slice(left: int) -> u64 {
    if left < MAX_WAIT_NS {
        left as u64
    } else {
        MAX_WAIT_NS
    }
}

/// What is to be done in a phase.
pub open spec fn action_in(phase: Phase, clock: Clock) -> Action {
    match phase {
        Phase::First => Action::Wait(MAX_WAIT_NS),
        Phase::Collect => Action::Collect,
        Phase::Snapshot => Action::TakeFirst,
        Phase::Sample => Action::Wait(slice(time_left(CPU_SAMPLE_WINDOW_NS, clock.window_ns))),
        Phase::Measure => Action::Measure,
        Phase::Rest => Action::Wait(slice(time_left(TICK_NS, clock.tick_ns))),
        Phase::Left => Action::Leave,
        Phase::Ending => Action::ShutDown,
    }
}

/// The length of the next wait for the end of a span; zero where it is over.
fn next_wait(span: u64, elapsed: u64) -> (ns: u64)
    ensures
        ns == slice(time_left(span, elapsed)),
{
    let left: u64 = if elapsed < span {
        span - elapsed
    } else {
        0
    };
    if left < MAX_WAIT_NS {
        left
    } else {
        MAX_WAIT_NS
    }
}

/// The worker: where it stands and which application it knows to be in the foreground.
#[derive(Debug)]
pub struct Worker {
    pub phase: Phase,
    pub foreground: Option<ForegroundApp>,
}

impl Worker {
    /// Once ticks run, an application is known to be in the foreground.
    pub open spec fn wf(self) -> bool {
        self.phase is First || has_stopped(self.phase) || self.foreground is Some
    }

    /// A worker that waits for the first application.
    pub fn new() -> (w: Worker)
        ensures
            w.phase is First,
            w.foreground is None,
            w.wf(),
    {
        Worker { phase: Phase::First, foreground: None }
    }

    /// What is to be done where the worker stands.
    pub fn action(&self, clock: Clock) -> (action: Action)
        ensures
            action == action_in(self.phase, clock),
    {
        match self.phase {
            Phase::First => Action::Wait(MAX_WAIT_NS),
            Phase::Collect => Action::Collect,
            Phase::Snapshot => Action::TakeFirst,
            Phase::Sample => Action::Wait(next_wait(CPU_SAMPLE_WINDOW_NS, clock.window_ns)),
            Phase::Measure => Action::Measure,
            Phase::Rest => Action::Wait(next_wait(TICK_NS, clock.tick_ns)),
            Phase::Left => Action::Leave,
            Phase::Ending => Action::ShutDown,
        }
    }

    /// Takes in what has happened and says what is to be done next. No wait is longer
    /// than a tenth of a second.
    pub fn step(&mut self, event: Event, clock: Clock, shutdown: bool) -> (action: Action)
        ensures
            final(self).phase == next_phase(old(self).phase, event, clock, shutdown),
            final(self).foreground == foreground_after(old(self).foreground, event),
            event matches Event::Signal(signal) ==> {
                &&& final(self).foreground is Some
                &&& final(self).foreground.unwrap().name == signal.name
                &&& final(self).foreground.unwrap().pid == signal.pid
            },
            event matches Event::Collected(pending) ==> if pending@.len() == 0 {
                final(self).foreground == old(self).foreground
            } else {
                &&& final(self).foreground is Some
                &&& final(self).foreground.unwrap().name == pending@[pending@.len() - 1].name
                &&& final(self).foreground.unwrap().pid == pending@[pending@.len() - 1].pid
            },
            event is Timeout || event is Disconnected || event is Done ==> final(self).foreground
                == old(self).foreground,
            action == action_in(final(self).phase, clock),
            action matches Action::Wait(ns) ==> 0 < ns <= MAX_WAIT_NS,
            old(self).wf() ==> final(self).wf(),
    {
        let signalled: bool = matches!(event, Event::Signal(_));
        let disconnected: bool = matches!(event, Event::Disconnected);
        let collected: bool = matches!(event, Event::Collected(_));
        let done: bool = matches!(event, Event::Done);
        match event {
            Event::Signal(signal) => {
                self.foreground = Some(frontmost::foreground_of(signal));
            },
            Event::Collected(pending) => {
                let mut pending = pending;
                if let Some(signal) = pending.pop() {
                    self.foreground = Some(frontmost::foreground_of(signal));
                }
            },
            _ => {},
        }
        let sampling: Phase = if clock.window_ns < CPU_SAMPLE_WINDOW_NS {
            Phase::Sample
        } else {
            Phase::Measure
        };
        let resting: Phase = if clock.tick_ns < TICK_NS {
            Phase::Rest
        } else {
            Phase::Collect
        };
        let next: Phase = match self.phase {
            Phase::Left => Phase::Left,
            Phase::Ending => Phase::Ending,
            _ if shutdown => Phase::Ending,
            Phase::First if disconnected => Phase::Left,
            Phase::Sample if disconnected => Phase::Left,
            Phase::Rest if disconnected => Phase::Left,
            Phase::First if signalled => Phase::Collect,
            Phase::Collect if collected => Phase::Snapshot,
            Phase::Snapshot if done => sampling,
            Phase::Sample if signalled => Phase::Measure,
            Phase::Sample => sampling,
            Phase::Measure if done => resting,
            Phase::Rest if signalled => Phase::Collect,
            Phase::Rest => resting,
            phase => phase,
        };
        self.phase = next;
        self.action(clock)
    }
}

/// Whether `commands` are the orders that go with an action, after which `after` are
/// throttled: when the work ends everything is released, otherwise nothing is ordered.
pub open spec fn are_last_orders(
    action: Action,
    throttled: Set<i32>,
    commands: Seq<ThrottleCommand>,
    after: Set<i32>,
) -> bool {
    if action is Leave || action is ShutDown {
        governor::is_clearance(throttled, commands) && after == Set::<i32>::empty()
    } else {
        commands.len() == 0 && after == throttled
    }
}

/// The orders to carry out before the worker stops, whatever the reason: everything
/// that is throttled is released. While it goes on there are none.
pub fn last_orders(action: Action, governor: &mut Governor) -> (commands: Vec<ThrottleCommand>)
    ensures
        are_last_orders(action, old(governor)@, commands@, final(governor)@),
        final(governor).settings() == old(governor).settings(),
{
    match action {
        Action::Leave | Action::ShutDown => governor.release_all(),
        _ => Vec::new(),
    }
}

/// A busy process together with how it is treated.
pub open spec fn annotated(
    m: ProcessMetrics,
    throttled: Set<i32>,
    config: GovernorConfig,
) -> ProcessMetrics {
    ProcessMetrics {
        is_throttled: throttled.contains(m.pid),
        is_forced_e: config.forced_e_pids@.contains(m.pid),
        is_forced_p: config.forced_p_pids@.contains(m.pid),
        ..m
    }
}

/// The row of the foreground application, where there are figures for it.
pub open spec fn frontmost_rows(
    s1: Map<i32, (String, u64, u64, i32, u32)>,
    s2: Map<i32, (String, u64, u64, i32, u32)>,
    elapsed_ns: u64,
    pid: i32,
) -> Seq<ProcessMetrics> {
    if elapsed_ns > 0 && s2.contains_key(pid) {
        seq![process::metrics_of(s1, s2, elapsed_ns, pid, true)]
    } else {
        Seq::empty()
    }
}

/// The rows of the table: that of the foreground application, then the busy
/// processes.
pub open spec fn display_rows(
    front: Seq<ProcessMetrics>,
    hogs: Seq<ProcessMetrics>,
    throttled: Set<i32>,
    config: GovernorConfig,
) -> Seq<ProcessMetrics> {
    front + hogs.map_values(|m: ProcessMetrics| annotated(m, throttled, config))
}

/// What comes of one tick.
pub struct TickReport {
    /// The orders to carry out.
    pub commands: Vec<ThrottleCommand>,
    /// The table to print and send.
    pub table: String,
    /// The names of the processes that are forced to the efficiency cores.
    pub e_names: String,
    /// The names of the processes that are forced off the efficiency cores.
    pub p_names: String,
}

/// Whether `report` and `after` are what one tick leads to, where `hogs` are the
/// busiest background processes.
pub open spec fn is_tick(
    config: GovernorConfig,
    throttled: Set<i32>,
    fg: ForegroundApp,
    s1: Map<i32, (String, u64, u64, i32, u32)>,
    s2: Map<i32, (String, u64, u64, i32, u32)>,
    elapsed_ns: u64,
    battery: Option<BatteryState>,
    hogs: Seq<ProcessMetrics>,
    report: TickReport,
    after: Set<i32>,
) -> bool {
    &&& process::is_top_cpu(hogs, s1, s2, elapsed_ns, Some(fg.pid), report::TOP_N as nat)
    &&& governor::is_round(config, throttled, hogs, report.commands@, after)
    &&& report.table@ == report::table_text(
        fg,
        display_rows(frontmost_rows(s1, s2, elapsed_ns, fg.pid), hogs, after, config),
        battery,
    )
    &&& names_all(report.e_names@, config.forced_e_pids@, s2)
    &&& names_all(report.p_names@, config.forced_p_pids@, s2)
}

/// Whether a text lists the names of a set of processes in some order.
pub open spec fn names_all(
    names: Seq<char>,
    members: Set<i32>,
    snap: Map<i32, (String, u64, u64, i32, u32)>,
) -> bool {
    exists|listed: Seq<i32>|
        pids::lists(listed, members) && names == #[trigger] report::name_list(listed, snap)
}

/// Notes on each busy process how it is treated.
fn annotate(
    hogs: Vec<ProcessMetrics>,
    governor: &Governor,
    forced_e: &HashSet<i32>,
    forced_p: &HashSet<i32>,
    rows: &mut Vec<ProcessMetrics>,
)
    requires
        forced_e@ == governor.settings().forced_e_pids@,
        forced_p@ == governor.settings().forced_p_pids@,
    ensures
        final(rows)@ == display_rows(old(rows)@, hogs@, governor@, governor.settings()),
{
    let ghost front = rows@;
    let ghost config = governor.settings();
    let mut i: usize = 0;
    assert(hogs@.take(0) =~= Seq::<ProcessMetrics>::empty());
    while i < hogs.len()
        invariant
            i <= hogs@.len(),
            config == governor.settings(),
            forced_e@ == config.forced_e_pids@,
            forced_p@ == config.forced_p_pids@,
            rows@ == display_rows(front, hogs@.take(i as int), governor@, config),
        decreases hogs@.len() - i,
    {
        let mut m = hogs[i].clone();
        m.is_throttled = governor.is_throttled(m.pid);
        m.is_forced_e = forced_e.contains(&m.pid);
        m.is_forced_p = forced_p.contains(&m.pid);
        assert(m == annotated(hogs@[i as int], governor@, config));
        rows.push(m);
        assert(rows@ =~= display_rows(front, hogs@.take(i + 1), governor@, config));
        i += 1;
    }
    assert(hogs@.take(i as int) =~= hogs@);
}

/// The work of one tick: finds the busiest background processes between two
/// snapshots, lets the governor decide about them, and builds what is reported.
pub fn run_tick(
    governor: &mut Governor,
    fg: &ForegroundApp,
    s1: &CpuSnapshot,
    s2: &CpuSnapshot,
    elapsed_ns: u64,
    battery: &Option<BatteryState>,
) -> (report: TickReport)
    ensures
        final(governor).settings() == old(governor).settings(),
        exists|hogs: Seq<ProcessMetrics>|
            is_tick(
                old(governor).settings(),
                old(governor)@,
                *fg,
                s1@,
                s2@,
                elapsed_ns,
                *battery,
                hogs,
                report,
                final(governor)@,
            ),
{
    let hogs = process::compute_top_cpu(s1, s2, elapsed_ns, Some(fg.pid), report::TOP_N);
    let ghost busy = hogs@;
    let commands = governor.govern(hogs.as_slice());
    let (forced_e, forced_p) = governor.forced_pid_sets();
    let e_names = report::build_override_list(&forced_e, s2);
    let p_names = report::build_override_list(&forced_p, s2);
    let mut rows: Vec<ProcessMetrics> = Vec::new();
    if let Some(m) = process::get_frontmost_metrics(fg.pid, s1, s2, elapsed_ns) {
        rows.push(m);
    }
    assert(rows@ =~= frontmost_rows(s1@, s2@, elapsed_ns, fg.pid));
    annotate(hogs, governor, &forced_e, &forced_p, &mut rows);
    let table = report::build_table(fg, rows.as_slice(), battery);
    let report = TickReport { commands, table, e_names, p_names };
    assert(is_tick(
        old(governor).settings(),
        old(governor)@,
        *fg,
        s1@,
        s2@,
        elapsed_ns,
        *battery,
        busy,
        report,
        governor@,
    ));
    report
}

/// Whether the arguments of the program ask for a recovery in place of the daemon.
pub fn wants_recovery(arguments: &[String]) -> (r: bool)
    ensures
        r == exists|i: int| 0 <= i < arguments@.len() && (#[trigger] arguments@[i])@ == "--recover"@,
{
    let mut i: usize = 0;
    while i < arguments.len()
        invariant
            i <= arguments@.len(),
            forall|j: int| 0 <= j < i ==> (#[trigger] arguments@[j])@ != "--recover"@,
        decreases arguments@.len() - i,
    {
        if text::same_text(arguments[i].as_str(), "--recover") {
            return true;
        }
        i += 1;
    }
    false
}

/// The foreground application is not throttled after a tick, unless the user forces
/// it to the efficiency cores or the release threshold is not positive. So an
/// application that was throttled in the background is released when it comes to the
/// foreground.
pub proof fn law_foreground_is_released(
    config: GovernorConfig,
    throttled: Set<i32>,
    fg: ForegroundApp,
    s1: Map<i32, (String, u64, u64, i32, u32)>,
    s2: Map<i32, (String, u64, u64, i32, u32)>,
    elapsed_ns: u64,
    battery: Option<BatteryState>,
    hogs: Seq<ProcessMetrics>,
    report: TickReport,
    after: Set<i32>,
)
    requires
        is_tick(
            config,
            throttled,
            fg,
            s1,
            s2,
            elapsed_ns,
            battery,
            hogs,
            report,
            after,
        ),
        !config.forced_e_pids@.contains(fg.pid),
        (crate::double::Double { bits: 0 }).lt(config.release_threshold),
    ensures
        !after.contains(fg.pid),
{
    if !config.is_paused {
        assert forall|i: int| 0 <= i < hogs.len() implies (#[trigger] hogs[i]).pid != fg.pid by {
            assert(process::is_busy(s1, s2, elapsed_ns, Some(fg.pid), hogs[i].pid));
        }
        governor::law_idle_is_released(config, throttled, hogs, fg.pid);
    }
}

/// No order of a tick throttles the foreground application.
pub proof fn law_foreground_is_not_throttled(
    config: GovernorConfig,
    throttled: Set<i32>,
    fg: ForegroundApp,
    s1: Map<i32, (String, u64, u64, i32, u32)>,
    s2: Map<i32, (String, u64, u64, i32, u32)>,
    elapsed_ns: u64,
    battery: Option<BatteryState>,
    hogs: Seq<ProcessMetrics>,
    report: TickReport,
    after: Set<i32>,
    i: int,
)
    requires
        is_tick(
            config,
            throttled,
            fg,
            s1,
            s2,
            elapsed_ns,
            battery,
            hogs,
            report,
            after,
        ),
        0 <= i < report.commands@.len(),
        report.commands@[i].enable,
    ensures
        report.commands@[i].pid != fg.pid,
{
    let commands = report.commands@;
    if config.is_paused {
        assert(commands.contains(commands[i]));
    } else {
        let pass = governor::pass_commands(config, throttled, hogs);
        if i < pass.len() {
            assert(commands[i] == pass[i]);
            lemma_orders_name_hogs(config, throttled, hogs, i);
            let j = choose|j: int| 0 <= j < hogs.len() && (#[trigger] hogs[j]).pid == pass[i].pid;
            assert(process::is_busy(s1, s2, elapsed_ns, Some(fg.pid), hogs[j].pid));
        } else {
            let releases = commands.skip(pass.len() as int);
            assert(releases[i - pass.len()] == commands[i]);
            assert(releases.contains(commands[i]));
        }
    }
}

/// Every order that the busy processes give rise to names one of them.
proof fn lemma_orders_name_hogs(
    config: GovernorConfig,
    throttled: Set<i32>,
    hogs: Seq<ProcessMetrics>,
    i: int,
)
    requires
        0 <= i < governor::pass_commands(config, throttled, hogs).len(),
    ensures
        process::has_pid(hogs, governor::pass_commands(config, throttled, hogs)[i].pid),
    decreases hogs.len(),
{
    let rest = hogs.drop_last();
    let earlier = governor::pass_commands(config, throttled, rest);
    let c = governor::pass_commands(config, throttled, hogs)[i];
    if i < earlier.len() {
        lemma_orders_name_hogs(config, throttled, rest, i);
        let j = choose|j: int| 0 <= j < rest.len() && (#[trigger] rest[j]).pid == c.pid;
        assert(hogs[j].pid == c.pid);
    } else {
        assert(hogs[hogs.len() - 1].pid == c.pid);
    }
}

/// In standby nothing is throttled after a tick, and nothing gets throttled.
pub proof fn law_standby_releases_all(
    config: GovernorConfig,
    throttled: Set<i32>,
    fg: ForegroundApp,
    s1: Map<i32, (String, u64, u64, i32, u32)>,
    s2: Map<i32, (String, u64, u64, i32, u32)>,
    elapsed_ns: u64,
    battery: Option<BatteryState>,
    hogs: Seq<ProcessMetrics>,
    report: TickReport,
    after: Set<i32>,
)
    requires
        is_tick(
            config,
            throttled,
            fg,
            s1,
            s2,
            elapsed_ns,
            battery,
            hogs,
            report,
            after,
        ),
        config.is_paused,
    ensures
        after == Set::<i32>::empty(),
        forall|i: int| 0 <= i < report.commands@.len() ==> !(#[trigger] report.commands@[i]).enable,
        forall|pid: i32|
            throttled.contains(pid) <==> #[trigger] report.commands@.contains(
                ThrottleCommand { pid, enable: false },
            ),
{
    let commands = report.commands@;
    assert forall|i: int| 0 <= i < commands.len() implies !(#[trigger] commands[i]).enable by {
        assert(commands.contains(commands[i]));
    }
}

/// Once the program is to end, the next step stops the worker, wherever it stands and
/// whatever has happened; and it stays stopped.
pub proof fn law_shutdown_is_noticed(phase: Phase, event: Event, clock: Clock)
    ensures
        has_stopped(next_phase(phase, event, clock, true)),
        phase !is Left ==> action_in(next_phase(phase, event, clock, true), clock) is ShutDown,
        has_stopped(phase) ==> forall|shutdown: bool|
            #[trigger] next_phase(phase, event, clock, shutdown) == phase,
{
}

/// After every step the worker waits for a tenth of a second at most, so an order to
/// end the program that comes during a wait is noticed within that time.
pub proof fn law_waits_are_short(phase: Phase, event: Event, clock: Clock, shutdown: bool)
    ensures
        action_in(next_phase(phase, event, clock, shutdown), clock) matches Action::Wait(ns) ==> 0
            < ns <= MAX_WAIT_NS,
        action_in(Phase::First, clock) == Action::Wait(MAX_WAIT_NS),
{
}

/// Every way in which the work ends leaves nothing throttled, whatever orders have been
/// given before: the worker stops exactly when its action is to leave or to shut down,
/// and the last orders release the rest.
pub proof fn law_every_end_leaves_none(
    phase: Phase,
    clock: Clock,
    history: Seq<ThrottleCommand>,
    last: Seq<ThrottleCommand>,
    after: Set<i32>,
)
    requires
        has_stopped(phase),
        are_last_orders(
            action_in(phase, clock),
            governor::after_commands(Set::empty(), history),
            last,
            after,
        ),
    ensures
        governor::after_commands(Set::empty(), history + last) == Set::<i32>::empty(),
        after == Set::<i32>::empty(),
{
    governor::law_shutdown_leaves_none(history, last);
}

/// Whether a phase can come after another one.
pub open spec fn may_follow(before: Phase, next: Phase) -> bool {
    ||| next == before
    ||| !has_stopped(before) && has_stopped(next)
    ||| before is First && next is Collect
    ||| before is Collect && next is Snapshot
    ||| before is Snapshot && (next is Sample || next is Measure)
    ||| before is Sample && next is Measure
    ||| before is Measure && (next is Rest || next is Collect)
    ||| before is Rest && next is Collect
}

/// The phases follow each other in a fixed order. The window ends when its time is up
/// or a signal comes in, and the rest likewise.
pub proof fn law_phases_are_ordered(phase: Phase, event: Event, clock: Clock, shutdown: bool)
    ensures
        may_follow(phase, next_phase(phase, event, clock, shutdown)),
        phase !is Measure && next_phase(phase, event, clock, shutdown) is Measure ==> {
            ||| clock.window_ns >= CPU_SAMPLE_WINDOW_NS
            ||| phase is Sample && event is Signal
        },
        phase is Rest && next_phase(phase, event, clock, shutdown) is Collect ==> {
            ||| clock.tick_ns >= TICK_NS
            ||| event is Signal
        },
        next_phase(phase, event, clock, shutdown) is Left ==> phase is Left || event is Disconnected,
        next_phase(phase, event, clock, shutdown) is Ending ==> phase is Ending || shutdown,
{
}

/// Whether the phase at `k` can come after the one before it.
pub open spec fn is_step(run: Seq<Phase>, k: int) -> bool {
    may_follow(run[k - 1], run[k])
}

/// Whether a row of phases is one that a worker can go through.
pub open spec fn is_run(run: Seq<Phase>) -> bool {
    &&& run.len() > 0
    &&& run[0] is First
    &&& forall|k: int| 0 < k < run.len() ==> #[trigger] is_step(run, k)
}

/// In every run of the worker each measurement comes after a first snapshot, and
/// between the two there is nothing but the sampling window.
pub proof fn law_window_lies_between_snapshots(run: Seq<Phase>, i: int)
    requires
        is_run(run),
        0 <= i < run.len(),
        run[i] is Sample || (run[i] is Measure && run[i - 1] !is Measure),
    ensures
        exists|j: int|
            0 < j < i && (#[trigger] run[j]) is Snapshot && (forall|k: int|
                j < k < i ==> (#[trigger] run[k]) is Sample),
    decreases i,
{
    assert(is_step(run, i));
    if run[i - 1] is Snapshot {
        assert(0 < i - 1);
    } else {
        law_window_lies_between_snapshots(run, i - 1);
        let j = choose|j: int|
            0 < j < i - 1 && (#[trigger] run[j]) is Snapshot && (forall|k: int|
                j < k < i - 1 ==> (#[trigger] run[k]) is Sample);
        assert(run[j] is Snapshot);
    }
}

/// The foreground application once signals have come in one by one, oldest first.
pub open spec fn after_signals(
    fg: Option<ForegroundApp>,
    signals: Seq<AppSwitchSignal>,
) -> Option<ForegroundApp>
    decreases signals.len(),
{
    if signals.len() == 0 {
        fg
    } else {
        foreground_after(
            after_signals(fg, signals.drop_last()),
            Event::Signal(signals.last()),
        )
    }
}

/// To collect signals is to receive them one by one, and a signal brings its own
/// application to the foreground: no signal is lost, and the latest one counts.
pub proof fn law_collecting_is_receiving(
    fg: Option<ForegroundApp>,
    pending: Vec<AppSwitchSignal>,
    signal: AppSwitchSignal,
)
    ensures
        foreground_after(fg, Event::Collected(pending)) == after_signals(fg, pending@),
        foreground_after(fg, Event::Signal(signal)) matches Some(app) && app.name == signal.name
            && app.pid == signal.pid,
        pending@.len() == 0 ==> foreground_after(fg, Event::Collected(pending)) == fg,
        pending@.len() > 0 ==> (foreground_after(fg, Event::Collected(pending)) matches Some(app)
            && app.name == pending@[pending@.len() - 1].name && app.pid == pending@[pending@.len()
            - 1].pid),
        foreground_after(fg, Event::Timeout) == fg,
        foreground_after(fg, Event::Disconnected) == fg,
        foreground_after(fg, Event::Done) == fg,
{
}

/// How a tick goes on while the program is not to end. A signal starts the ticks. A tick
/// collects, takes the first snapshot, waits until half a second is over or a signal
/// comes, measures, and waits until a second is over or a signal comes.
pub proof fn law_tick_goes_on(event: Event, clock: Clock)
    ensures
        next_phase(Phase::First, event, clock, false) == (match event {
            Event::Signal(_) => Phase::Collect,
            Event::Disconnected => Phase::Left,
            _ => Phase::First,
        }),
        event is Collected ==> next_phase(Phase::Collect, event, clock, false) is Snapshot,
        event is Done && clock.window_ns < 500_000_000 ==> next_phase(
            Phase::Snapshot,
            event,
            clock,
            false,
        ) is Sample,
        event is Done && clock.window_ns >= 500_000_000 ==> next_phase(
            Phase::Snapshot,
            event,
            clock,
            false,
        ) is Measure,
        next_phase(Phase::Sample, event, clock, false) == (match event {
            Event::Signal(_) => Phase::Measure,
            Event::Disconnected => Phase::Left,
            _ => if clock.window_ns < 500_000_000 {
                Phase::Sample
            } else {
                Phase::Measure
            },
        }),
        event is Done && clock.tick_ns < 1_000_000_000 ==> next_phase(
            Phase::Measure,
            event,
            clock,
            false,
        ) is Rest,
        event is Done && clock.tick_ns >= 1_000_000_000 ==> next_phase(
            Phase::Measure,
            event,
            clock,
            false,
        ) is Collect,
        next_phase(Phase::Rest, event, clock, false) == (match event {
            Event::Signal(_) => Phase::Collect,
            Event::Disconnected => Phase::Left,
            _ => if clock.tick_ns < 1_000_000_000 {
                Phase::Rest
            } else {
                Phase::Collect
            },
        }),
        event !is Collected ==> next_phase(Phase::Collect, event, clock, false) is Collect,
        event !is Done ==> next_phase(Phase::Snapshot, event, clock, false) is Snapshot,
        event !is Done ==> next_phase(Phase::Measure, event, clock, false) is Measure,
{
}

/// Once the program is to end, a worker that has not stopped stops to end it; one that
/// has stopped stays as it is.
pub proof fn law_shutdown_goes_first(phase: Phase, event: Event, clock: Clock, shutdown: bool)
    ensures
        phase !is Left && phase !is Ending ==> next_phase(phase, event, clock, true)
            == Phase::Ending,
        phase is Left ==> next_phase(phase, event, clock, shutdown) == Phase::Left,
        phase is Ending ==> next_phase(phase, event, clock, shutdown) == Phase::Ending,
{
}

/// What each phase asks for. A wait for the end of the window or of the tick does not
/// go beyond it, and reaches it unless a tenth of a second is not enough.
pub proof fn law_phases_ask_for_their_actions(clock: Clock)
    ensures
        action_in(Phase::First, clock) == Action::Wait(100_000_000),
        action_in(Phase::Collect, clock) is Collect,
        action_in(Phase::Snapshot, clock) is TakeFirst,
        action_in(Phase::Measure, clock) is Measure,
        action_in(Phase::Left, clock) is Leave,
        action_in(Phase::Ending, clock) is ShutDown,
        clock.window_ns < 500_000_000 ==> (action_in(Phase::Sample, clock) matches Action::Wait(ns)
            && clock.window_ns + ns <= 500_000_000 && (clock.window_ns + ns == 500_000_000 || ns
            == 100_000_000)),
        clock.tick_ns < 1_000_000_000 ==> (action_in(Phase::Rest, clock) matches Action::Wait(ns)
            && clock.tick_ns + ns <= 1_000_000_000 && (clock.tick_ns + ns == 1_000_000_000 || ns
            == 100_000_000)),
{
}

/// When the work ends each throttled process is released once, by whatever action it
/// ends, and while it goes on no order is given.
pub proof fn law_last_orders_release_each_once(
    action: Action,
    throttled: Set<i32>,
    commands: Seq<ThrottleCommand>,
    after: Set<i32>,
    pid: i32,
)
    requires
        are_last_orders(action, throttled, commands, after),
    ensures
        action is Leave || action is ShutDown ==> {
            &&& !after.contains(pid)
            &&& throttled.contains(pid) <==> exists|i: int|
                0 <= i < commands.len() && (#[trigger] commands[i]).pid == pid
                    && !commands[i].enable
            &&& forall|i: int| 0 <= i < commands.len() ==> !(#[trigger] commands[i]).enable
            &&& forall|i: int, j: int|
                0 <= i < j < commands.len() ==> (#[trigger] commands[i]).pid != (
                #[trigger] commands[j]).pid
        },
        action !is Leave && action !is ShutDown ==> commands.len() == 0 && after == throttled,
{
    if action is Leave || action is ShutDown {
        governor::law_clearance_is_everything_once(throttled, commands, pid);
    }
}

/// The rows of some processes hold the row of each.
proof fn lemma_row_in_rows(rows: Seq<ProcessMetrics>, i: int)
    requires
        0 <= i < rows.len(),
    ensures
        text::holds(
            report::hog_rows(rows),
            report::row_text((i + 1) as nat, rows[i], report::tag_of(rows[i])),
        ),
    decreases rows.len(),
{
    let rest = rows.drop_last();
    let earlier = report::hog_rows(rest);
    let last = report::row_text(rows.len(), rows.last(), report::tag_of(rows.last()));
    let none = Seq::<char>::empty();
    assert(report::hog_rows(rows) =~= text::between(earlier, last, none));
    if i < rows.len() - 1 {
        assert(rest[i] == rows[i]);
        lemma_row_in_rows(rest, i);
        assert(report::hog_rows(rows) =~= text::between(none, earlier, last));
        text::lemma_holds(
            report::hog_rows(rows),
            earlier,
            report::row_text((i + 1) as nat, rows[i], report::tag_of(rows[i])),
        );
    }
}

/// In the table of a tick every listed background process has a row. It shows its rank,
/// the name, memory and threads of the second snapshot, and its share. Its tag is
/// `FORCE_E` exactly if the user forces the process to the efficiency cores; otherwise
/// `FORCE_P` exactly if the user forces it off them; otherwise `THROTTLED` exactly if it
/// is throttled after the tick; otherwise `OK`.
pub proof fn law_rows_are_tagged(
    config: GovernorConfig,
    throttled: Set<i32>,
    fg: ForegroundApp,
    s1: Map<i32, (String, u64, u64, i32, u32)>,
    s2: Map<i32, (String, u64, u64, i32, u32)>,
    elapsed_ns: u64,
    battery: Option<BatteryState>,
    hogs: Seq<ProcessMetrics>,
    report: TickReport,
    after: Set<i32>,
    i: int,
)
    requires
        is_tick(
            config,
            throttled,
            fg,
            s1,
            s2,
            elapsed_ns,
            battery,
            hogs,
            report,
            after,
        ),
        0 <= i < hogs.len(),
    ensures
        s2.contains_key(hogs[i].pid),
        text::holds(
            report.table@,
            "│ "@ + text::joined(
                    seq![
                        text::pad_left(text::decimal((i + 1) as nat), 2) + ". "@ + text::pad_right(
                            report::shortened(s2[hogs[i].pid].0@),
                            23,
                        ),
                        "CPU: "@ + text::pad_left(hogs[i].cpu_pct.one_decimal(), 5) + "%"@,
                        "RAM: "@ + text::pad_left(process::ram_text(s2[hogs[i].pid].2 as nat), 6),
                        "Threads: "@ + text::pad_left(
                            text::signed_decimal(s2[hogs[i].pid].3 as int),
                            2,
                        ),
                        if config.forced_e_pids@.contains(hogs[i].pid) {
                            "FORCE_E"@
                        } else if config.forced_p_pids@.contains(hogs[i].pid) {
                            "FORCE_P"@
                        } else if after.contains(hogs[i].pid) {
                            "THROTTLED"@
                        } else {
                            "OK"@
                        },
                    ],
                    " | "@,
                ) + "\n"@,
        ),
{
    let front = frontmost_rows(s1, s2, elapsed_ns, fg.pid);
    let marked = hogs.map_values(|m: ProcessMetrics| annotated(m, after, config));
    let rows = display_rows(front, hogs, after, config);
    assert(process::is_busy(s1, s2, elapsed_ns, Some(fg.pid), hogs[i].pid));
    assert(hogs[i] == process::metrics_of(s1, s2, elapsed_ns, hogs[i].pid, false));
    assert(marked[i] == annotated(hogs[i], after, config));
    assert(report::background(rows) =~= marked) by {
        if front.len() == 0 {
            assert(rows =~= marked);
            assert(rows[0] == marked[0]);
            assert(hogs[0] == process::metrics_of(s1, s2, elapsed_ns, hogs[0].pid, false));
            assert(!marked[0].is_frontmost);
        } else {
            assert(rows[0] == front[0]);
            assert(rows.drop_first() =~= marked);
        }
    }
    let line = report::row_text((i + 1) as nat, marked[i], report::tag_of(marked[i]));
    lemma_row_in_rows(marked, i);
    report::lemma_table_holds_rows(fg, rows, battery);
    text::lemma_holds(report.table@, report::hog_rows(marked), line);
}

/// The table of a tick has a row of rank zero for the foreground application where the
/// second snapshot holds it and the window is not empty; it shows what the snapshot says
/// of it.
pub proof fn law_frontmost_row_is_shown(
    config: GovernorConfig,
    throttled: Set<i32>,
    fg: ForegroundApp,
    s1: Map<i32, (String, u64, u64, i32, u32)>,
    s2: Map<i32, (String, u64, u64, i32, u32)>,
    elapsed_ns: u64,
    battery: Option<BatteryState>,
    hogs: Seq<ProcessMetrics>,
    report: TickReport,
    after: Set<i32>,
)
    requires
        is_tick(
            config,
            throttled,
            fg,
            s1,
            s2,
            elapsed_ns,
            battery,
            hogs,
            report,
            after,
        ),
        elapsed_ns > 0,
        s2.contains_key(fg.pid),
    ensures
        text::holds(
            report.table@,
            "│ "@ + text::joined(
                    seq![
                        text::pad_left(text::decimal(0), 2) + ". "@ + text::pad_right(
                            report::shortened(s2[fg.pid].0@),
                            23,
                        ),
                        "CPU: "@ + text::pad_left(
                            process::cpu_share(s1, s2, elapsed_ns, fg.pid).one_decimal(),
                            5,
                        ) + "%"@,
                        "RAM: "@ + text::pad_left(process::ram_text(s2[fg.pid].2 as nat), 6),
                        "Threads: "@ + text::pad_left(text::signed_decimal(s2[fg.pid].3 as int), 2),
                        "FRONTMOST"@,
                    ],
                    " | "@,
                ) + "\n"@,
        ),
{
    let front = frontmost_rows(s1, s2, elapsed_ns, fg.pid);
    let rows = display_rows(front, hogs, after, config);
    assert(rows[0] == front[0]);
    report::lemma_table_holds_frontmost(fg, rows, battery);
}

/// A tick looks at the twenty busiest processes other than the foreground application. A
/// process that used a tenth of a percent of the window, up to one part in a million, is
/// among them unless twenty others have no smaller share.
pub proof fn law_tick_looks_at_busiest(
    config: GovernorConfig,
    throttled: Set<i32>,
    fg: ForegroundApp,
    s1: Map<i32, (String, u64, u64, i32, u32)>,
    s2: Map<i32, (String, u64, u64, i32, u32)>,
    elapsed_ns: u64,
    battery: Option<BatteryState>,
    hogs: Seq<ProcessMetrics>,
    report: TickReport,
    after: Set<i32>,
    pid: i32,
)
    requires
        is_tick(
            config,
            throttled,
            fg,
            s1,
            s2,
            elapsed_ns,
            battery,
            hogs,
            report,
            after,
        ),
    ensures
        hogs.len() <= 20,
        forall|i: int| 0 <= i < hogs.len() ==> (#[trigger] hogs[i]).pid != fg.pid,
        forall|i: int, j: int|
            0 <= i < j < hogs.len() ==> (#[trigger] hogs[i]).pid != (#[trigger] hogs[j]).pid
                && hogs[i].cpu_pct.ge(hogs[j].cpu_pct),
        elapsed_ns > 0 && s2.contains_key(pid) && pid != fg.pid && 1_000_000_000 * (if s1.contains_key(
            pid,
        ) {
            s2[pid].1 - s1[pid].1
        } else {
            s2[pid].1 as int
        }) >= 1_000_001 * elapsed_ns ==> (exists|i: int|
            0 <= i < hogs.len() && (#[trigger] hogs[i]).pid == pid) || (hogs.len() == 20 && forall|
            i: int,
        |
            0 <= i < hogs.len() ==> (#[trigger] hogs[i]).cpu_pct.ge(
                process::cpu_share(s1, s2, elapsed_ns, pid),
            )),
{
    let exclude = Some(fg.pid);
    assert forall|i: int| 0 <= i < hogs.len() implies (#[trigger] hogs[i]).pid != fg.pid by {
        process::law_listed_process_is_busy(hogs, s1, s2, elapsed_ns, exclude, 20, i);
    }
    assert forall|i: int, j: int| 0 <= i < j < hogs.len() implies (#[trigger] hogs[i]).pid != (
    #[trigger] hogs[j]).pid && hogs[i].cpu_pct.ge(hogs[j].cpu_pct) by {
        process::law_list_is_ranked(hogs, s1, s2, elapsed_ns, exclude, 20, i, j);
    }
    if elapsed_ns > 0 && s2.contains_key(pid) && pid != fg.pid && 1_000_000_000 * (
    if s1.contains_key(pid) {
        s2[pid].1 - s1[pid].1
    } else {
        s2[pid].1 as int
    }) >= 1_000_001 * elapsed_ns {
        process::law_busy_process_is_listed(hogs, s1, s2, elapsed_ns, exclude, 20, pid);
    }
}

/// Unless the governor is in standby, a tick throttles every process it looks at that
/// belongs to a standard user, is none of the nine protected ones and has reached the
/// throttle threshold, if the user does not force it off the efficiency cores.
pub proof fn law_tick_throttles_offenders(
    config: GovernorConfig,
    throttled: Set<i32>,
    fg: ForegroundApp,
    s1: Map<i32, (String, u64, u64, i32, u32)>,
    s2: Map<i32, (String, u64, u64, i32, u32)>,
    elapsed_ns: u64,
    battery: Option<BatteryState>,
    hogs: Seq<ProcessMetrics>,
    report: TickReport,
    after: Set<i32>,
    i: int,
)
    requires
        is_tick(
            config,
            throttled,
            fg,
            s1,
            s2,
            elapsed_ns,
            battery,
            hogs,
            report,
            after,
        ),
        !config.is_paused,
        config.release_threshold.lt(config.throttle_threshold),
        0 <= i < hogs.len(),
        s2[hogs[i].pid].4 >= 500,
        s2[hogs[i].pid].0@ != "WindowServer"@,
        s2[hogs[i].pid].0@ != "Dock"@,
        s2[hogs[i].pid].0@ != "Finder"@,
        s2[hogs[i].pid].0@ != "loginwindow"@,
        s2[hogs[i].pid].0@ != "coreaudiod"@,
        s2[hogs[i].pid].0@ != "SystemUIServer"@,
        s2[hogs[i].pid].0@ != "NotificationCenter"@,
        s2[hogs[i].pid].0@ != "Spotlight"@,
        s2[hogs[i].pid].0@ != "launchd"@,
        hogs[i].cpu_pct.ge(config.throttle_threshold),
        !config.forced_p_pids@.contains(hogs[i].pid),
    ensures
        after.contains(hogs[i].pid),
{
    process::law_listed_process_is_busy(hogs, s1, s2, elapsed_ns, Some(fg.pid), 20, i);
    assert forall|a: int, b: int| 0 <= a < b < hogs.len() implies (#[trigger] hogs[a]).pid != (
    #[trigger] hogs[b]).pid by {
        process::law_list_is_ranked(hogs, s1, s2, elapsed_ns, Some(fg.pid), 20, a, b);
    }
    governor::law_busy_user_process_is_throttled(
        config,
        throttled,
        hogs,
        report.commands@,
        after,
        i,
    );
}

/// The orders of a tick are exactly the differences that it makes.
pub proof fn law_tick_orders_its_differences(
    config: GovernorConfig,
    throttled: Set<i32>,
    fg: ForegroundApp,
    s1: Map<i32, (String, u64, u64, i32, u32)>,
    s2: Map<i32, (String, u64, u64, i32, u32)>,
    elapsed_ns: u64,
    battery: Option<BatteryState>,
    hogs: Seq<ProcessMetrics>,
    report: TickReport,
    after: Set<i32>,
    c: ThrottleCommand,
)
    requires
        is_tick(
            config,
            throttled,
            fg,
            s1,
            s2,
            elapsed_ns,
            battery,
            hogs,
            report,
            after,
        ),
        config.release_threshold.lt(config.throttle_threshold),
        (crate::double::Double { bits: 0 }).lt(config.release_threshold),
    ensures
        report.commands@.contains(c) <==> if c.enable {
            after.contains(c.pid) && !throttled.contains(c.pid)
        } else {
            throttled.contains(c.pid) && !after.contains(c.pid)
        },
{
    assert forall|a: int, b: int| 0 <= a < b < hogs.len() implies (#[trigger] hogs[a]).pid != (
    #[trigger] hogs[b]).pid by {
        process::law_list_is_ranked(hogs, s1, s2, elapsed_ns, Some(fg.pid), 20, a, b);
    }
    governor::law_round_makes_its_differences(config, throttled, hogs, report.commands@, after, c);
}

/// The table of a tick is that of the foreground application and the battery, with a row
/// for the application where there are figures for it, and then one row for each process
/// that the tick looks at, in their order. Each row holds the figures of its process, and
/// those of the background processes what the user forces and what is throttled after the
/// tick.
pub proof fn law_table_shows_the_tick(
    config: GovernorConfig,
    throttled: Set<i32>,
    fg: ForegroundApp,
    s1: Map<i32, (String, u64, u64, i32, u32)>,
    s2: Map<i32, (String, u64, u64, i32, u32)>,
    elapsed_ns: u64,
    battery: Option<BatteryState>,
    hogs: Seq<ProcessMetrics>,
    report: TickReport,
    after: Set<i32>,
)
    requires
        is_tick(
            config,
            throttled,
            fg,
            s1,
            s2,
            elapsed_ns,
            battery,
            hogs,
            report,
            after,
        ),
    ensures
        exists|rows: Seq<ProcessMetrics>|
            {
                let n: int = if elapsed_ns > 0 && s2.contains_key(fg.pid) {
                    1
                } else {
                    0
                };
                &&& report.table@ == #[trigger] report::table_text(fg, rows, battery)
                &&& rows.len() == n + hogs.len()
                &&& n == 1 ==> {
                    &&& rows[0].is_frontmost
                    &&& rows[0].name == s2[fg.pid].0
                    &&& rows[0].resident_bytes == s2[fg.pid].2
                    &&& rows[0].threadnum == s2[fg.pid].3
                    &&& rows[0].cpu_pct == process::cpu_share(s1, s2, elapsed_ns, fg.pid)
                }
                &&& forall|j: int|
                    #![trigger rows[j]]
                    n <= j < rows.len() ==> {
                        let m = hogs[j - n];
                        &&& !rows[j].is_frontmost
                        &&& rows[j].pid == m.pid
                        &&& rows[j].name == m.name
                        &&& rows[j].cpu_pct == m.cpu_pct
                        &&& rows[j].resident_bytes == m.resident_bytes
                        &&& rows[j].threadnum == m.threadnum
                        &&& rows[j].is_forced_e <==> config.forced_e_pids@.contains(m.pid)
                        &&& rows[j].is_forced_p <==> config.forced_p_pids@.contains(m.pid)
                        &&& rows[j].is_throttled <==> after.contains(m.pid)
                    }
            },
{
    let front = frontmost_rows(s1, s2, elapsed_ns, fg.pid);
    let marked = hogs.map_values(|m: ProcessMetrics| annotated(m, after, config));
    let rows = display_rows(front, hogs, after, config);
    assert(report.table@ == report::table_text(fg, rows, battery));
    assert forall|j: int| front.len() <= j < rows.len() implies #[trigger] rows[j] == annotated(
        hogs[j - front.len()],
        after,
        config,
    ) && !hogs[j - front.len()].is_frontmost by {
        assert(rows[j] == marked[j - front.len()]);
        process::law_listed_process_is_busy(
            hogs,
            s1,
            s2,
            elapsed_ns,
            Some(fg.pid),
            20,
            j - front.len(),
        );
    }
    if front.len() > 0 {
        assert(rows[0] == front[0]);
    }
}

/// The two lists of names are those of the processes that the user forces to the
/// efficiency cores and off them, each process once.
pub proof fn law_forced_processes_are_named(
    config: GovernorConfig,
    throttled: Set<i32>,
    fg: ForegroundApp,
    s1: Map<i32, (String, u64, u64, i32, u32)>,
    s2: Map<i32, (String, u64, u64, i32, u32)>,
    elapsed_ns: u64,
    battery: Option<BatteryState>,
    hogs: Seq<ProcessMetrics>,
    report: TickReport,
    after: Set<i32>,
)
    requires
        is_tick(
            config,
            throttled,
            fg,
            s1,
            s2,
            elapsed_ns,
            battery,
            hogs,
            report,
            after,
        ),
    ensures
        exists|listed: Seq<i32>|
            report.e_names@ == #[trigger] report::name_list(listed, s2) && listed.no_duplicates()
                && forall|pid: i32| listed.contains(pid) <==> config.forced_e_pids@.contains(pid),
        exists|listed: Seq<i32>|
            report.p_names@ == #[trigger] report::name_list(listed, s2) && listed.no_duplicates()
                && forall|pid: i32| listed.contains(pid) <==> config.forced_p_pids@.contains(pid),
{
    let e = choose|listed: Seq<i32>|
        pids::lists(listed, config.forced_e_pids@) && report.e_names@ == #[trigger] report::name_list(
            listed,
            s2,
        );
    let p = choose|listed: Seq<i32>|
        pids::lists(listed, config.forced_p_pids@) && report.p_names@ == #[trigger] report::name_list(
            listed,
            s2,
        );
    assert(report.e_names@ == report::name_list(e, s2));
    assert(report.p_names@ == report::name_list(p, s2));
}

} // verus!
