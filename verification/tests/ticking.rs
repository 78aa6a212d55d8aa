use allocate_core::frontmost::{AppSwitchSignal, ForegroundApp};
use allocate_core::governor::{Governor, GovernorConfig, ThrottleCommand};
use allocate_core::hog::{is_prime, running_line};
use allocate_core::process::CpuSnapshot;
use allocate_core::worker::{
    last_orders, run_tick, wants_recovery, Action, Clock, Event, Phase, Worker,
};

fn signal(name: &str, pid: i32) -> AppSwitchSignal {
    AppSwitchSignal { name: name.to_string(), pid }
}

fn app(name: &str, pid: i32) -> ForegroundApp {
    ForegroundApp { name: name.to_string(), pid }
}

fn clock(tick_ns: u64, window_ns: u64) -> Clock {
    Clock { tick_ns, window_ns }
}

fn at(phase: Phase) -> Worker {
    Worker { phase, foreground: Some(app("Mail", 8)) }
}

#[test]
fn first_application_is_waited_for() {
    let mut w = Worker::new();
    assert_eq!(w.action(clock(0, 0)), Action::Wait(100_000_000));
    assert_eq!(w.step(Event::Timeout, clock(0, 0), false), Action::Wait(100_000_000));
    assert_eq!(w.phase, Phase::First);
    assert_eq!(w.foreground, None);
    assert_eq!(w.step(Event::Signal(signal("Mail", 8)), clock(0, 0), false), Action::Collect);
    assert_eq!(w.foreground, Some(app("Mail", 8)));
}

#[test]
fn tick_goes_through_its_phases_in_order() {
    let mut w = at(Phase::Collect);
    let c = clock(1_000, 0);
    assert_eq!(w.step(Event::Collected(vec![]), c, false), Action::TakeFirst);
    assert_eq!(w.step(Event::Done, c, false), Action::Wait(100_000_000));
    assert_eq!(w.phase, Phase::Sample);
    let c = clock(460_000_000, 450_000_000);
    assert_eq!(w.step(Event::Timeout, c, false), Action::Wait(50_000_000));
    let c = clock(510_000_000, 500_000_000);
    assert_eq!(w.step(Event::Timeout, c, false), Action::Measure);
    let c = clock(600_000_000, 590_000_000);
    assert_eq!(w.step(Event::Done, c, false), Action::Wait(100_000_000));
    assert_eq!(w.phase, Phase::Rest);
    let c = clock(999_999_999, 0);
    assert_eq!(w.step(Event::Timeout, c, false), Action::Wait(1));
    let c = clock(1_000_000_000, 0);
    assert_eq!(w.step(Event::Timeout, c, false), Action::Collect);
    assert_eq!(w.foreground, Some(app("Mail", 8)));
}

#[test]
fn slow_work_leaves_no_rest() {
    let mut w = at(Phase::Measure);
    assert_eq!(w.step(Event::Done, clock(1_000_000_000, 0), false), Action::Collect);
    let mut w = at(Phase::Snapshot);
    assert_eq!(w.step(Event::Done, clock(0, u64::MAX), false), Action::Measure);
}

#[test]
fn signals_end_window_and_rest_early() {
    let mut w = at(Phase::Sample);
    let event = Event::Signal(signal("Notes", 9));
    assert_eq!(w.step(event, clock(10, 10), false), Action::Measure);
    assert_eq!(w.foreground, Some(app("Notes", 9)));
    let mut w = at(Phase::Rest);
    let event = Event::Signal(signal("Notes", 9));
    assert_eq!(w.step(event, clock(10, 10), false), Action::Collect);
    assert_eq!(w.foreground, Some(app("Notes", 9)));
}

#[test]
fn last_pending_signal_counts() {
    let mut w = at(Phase::Collect);
    let pending = vec![signal("Notes", 9), signal("Music", 10)];
    w.step(Event::Collected(pending), clock(0, 0), false);
    assert_eq!(w.foreground, Some(app("Music", 10)));
}

#[test]
fn no_wait_is_longer_than_a_tenth_of_a_second() {
    for phase in [Phase::Sample, Phase::Rest] {
        for elapsed in [0u64, 1, 399_999_999, 400_000_001, 499_999_999, 899_999_999] {
            let action = at(phase).step(Event::Timeout, clock(elapsed, elapsed), false);
            if let Action::Wait(ns) = action {
                assert!(ns > 0 && ns <= 100_000_000);
            }
        }
    }
}

#[test]
fn shutdown_is_noticed_in_every_phase() {
    for phase in [
        Phase::First,
        Phase::Collect,
        Phase::Snapshot,
        Phase::Sample,
        Phase::Measure,
        Phase::Rest,
    ] {
        for event in [
            Event::Timeout,
            Event::Disconnected,
            Event::Done,
            Event::Collected(vec![]),
            Event::Signal(signal("Notes", 9)),
        ] {
            let mut w = at(phase);
            assert_eq!(w.step(event, clock(0, 0), true), Action::ShutDown);
            assert_eq!(w.step(Event::Timeout, clock(0, 0), false), Action::ShutDown);
        }
    }
}

#[test]
fn worker_leaves_when_nobody_can_send() {
    for phase in [Phase::First, Phase::Sample, Phase::Rest] {
        let mut w = at(phase);
        assert_eq!(w.step(Event::Disconnected, clock(0, 0), false), Action::Leave);
        assert_eq!(w.step(Event::Timeout, clock(0, 0), false), Action::Leave);
    }
}

#[test]
fn every_end_releases_everything() {
    let s1 = snapshot(&[(2, "java", 0), (3, "rustc", 0)]);
    let s2 = snapshot(&[(2, "java", 400_000_000), (3, "rustc", 300_000_000)]);
    for action in [Action::Leave, Action::ShutDown] {
        let mut g = Governor::new(GovernorConfig::default());
        assert_eq!(last_orders(action, &mut g), vec![]);
        run_tick(&mut g, &app("Terminal", 1), &s1, &s2, 500_000_000, &None);
        for other in [Action::Wait(5), Action::Collect, Action::TakeFirst, Action::Measure] {
            assert_eq!(last_orders(other, &mut g), vec![]);
            assert!(g.is_throttled(2) && g.is_throttled(3));
        }
        let mut commands = last_orders(action, &mut g);
        commands.sort_by_key(|c| c.pid);
        assert_eq!(
            commands,
            vec![
                ThrottleCommand { pid: 2, enable: false },
                ThrottleCommand { pid: 3, enable: false }
            ]
        );
        assert!(!g.has_throttled());
    }
}

fn snapshot(cpu: &[(i32, &str, u64)]) -> CpuSnapshot {
    let mut snap = CpuSnapshot::new();
    for (pid, name, ns) in cpu {
        snap.insert(*pid, (name.to_string(), *ns, 12_000_000, 9, 501));
    }
    snap
}

#[test]
fn tick_throttles_and_reports_a_busy_process() {
    let mut g = Governor::new(GovernorConfig::default());
    let s1 = snapshot(&[(1, "Terminal", 0), (2, "dummy-hog", 0)]);
    let s2 = snapshot(&[(1, "Terminal", 400_000_000), (2, "dummy-hog", 511_500_000)]);
    let report = run_tick(&mut g, &app("Terminal", 1), &s1, &s2, 500_000_000, &None);
    assert_eq!(report.commands, vec![ThrottleCommand { pid: 2, enable: true }]);
    assert!(g.is_throttled(2) && !g.is_throttled(1));
    let lines: Vec<&str> = report.table.lines().collect();
    assert_eq!(
        lines[3],
        "│  0. Terminal                | CPU:  80.0% | RAM:  12 MB | Threads:  9 | FRONTMOST"
    );
    assert_eq!(
        lines[6],
        "│  1. dummy-hog               | CPU: 102.3% | RAM:  12 MB | Threads:  9 | THROTTLED"
    );
    assert_eq!(report.e_names, "");
    assert_eq!(report.p_names, "");
}

#[test]
fn application_in_the_foreground_is_released() {
    let mut g = Governor::new(GovernorConfig::default());
    let s1 = snapshot(&[(2, "java", 0)]);
    let s2 = snapshot(&[(2, "java", 400_000_000)]);
    run_tick(&mut g, &app("Terminal", 1), &s1, &s2, 500_000_000, &None);
    assert!(g.is_throttled(2));
    let report = run_tick(&mut g, &app("java", 2), &s1, &s2, 500_000_000, &None);
    assert_eq!(report.commands, vec![ThrottleCommand { pid: 2, enable: false }]);
    assert!(!g.has_throttled());
}

#[test]
fn tick_in_standby_only_reports() {
    let mut config = GovernorConfig::default();
    config.is_paused = true;
    config.forced_p_pids.insert(2);
    config.forced_e_pids.insert(77);
    let mut g = Governor::new(config);
    let s1 = snapshot(&[(2, "java", 0)]);
    let s2 = snapshot(&[(2, "java", 400_000_000)]);
    let report = run_tick(&mut g, &app("Terminal", 1), &s1, &s2, 500_000_000, &None);
    assert!(report.commands.is_empty());
    assert!(report.table.lines().nth(4).unwrap().ends_with("| FORCE_P"));
    assert_eq!(report.p_names, "java");
    assert_eq!(report.e_names, "77");
}

#[test]
fn empty_window_reports_nothing_and_releases() {
    let mut g = Governor::new(GovernorConfig::default());
    let s1 = snapshot(&[(2, "java", 0)]);
    let s2 = snapshot(&[(2, "java", 400_000_000)]);
    run_tick(&mut g, &app("Terminal", 1), &s1, &s2, 500_000_000, &None);
    let report = run_tick(&mut g, &app("Terminal", 1), &s1, &s2, 0, &None);
    assert!(report.table.contains("(none above threshold)"));
    assert!(!g.has_throttled());
}

#[test]
fn recovery_is_asked_for_by_argument() {
    let arguments = |list: &[&str]| list.iter().map(|s| s.to_string()).collect::<Vec<String>>();
    assert!(wants_recovery(&arguments(&["allocate-core", "--recover"])));
    assert!(!wants_recovery(&arguments(&["allocate-core", "--recovery"])));
    assert!(!wants_recovery(&[]));
}

#[test]
fn primes_are_recognised() {
    let primes: Vec<u64> = (0..50).filter(|n| is_prime(*n)).collect();
    assert_eq!(primes, vec![2, 3, 5, 7, 11, 13, 17, 19, 23, 29, 31, 37, 41, 43, 47]);
    assert!(is_prime(4_294_967_291));
    assert!(!is_prime(4_294_967_297));
    assert!(!is_prime(u64::MAX));
    assert!(!is_prime(65_521 * 65_521));
}

#[test]
fn running_time_is_shown_in_seconds() {
    assert_eq!(running_line(0), "\r[dummy-hog] Running for 0 seconds...      ");
    assert_eq!(running_line(1), "\r[dummy-hog] Running for 1 second...      ");
    assert_eq!(running_line(2), "\r[dummy-hog] Running for 2 seconds...      ");
}
