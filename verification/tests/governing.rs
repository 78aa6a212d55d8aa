use allocate_core::double::Double;
use allocate_core::governor::{
    policy_arguments, recovery_notice, recovery_summary, run_recovery, should_throttle, Governor,
    GovernorConfig, ThrottleCommand,
};
use allocate_core::process::{CpuSnapshot, ProcessMetrics};

fn double(x: f64) -> Double {
    Double { bits: x.to_bits() }
}

fn hog(pid: i32, name: &str, cpu: f64) -> ProcessMetrics {
    ProcessMetrics {
        pid,
        name: name.to_string(),
        cpu_pct: double(cpu),
        resident_bytes: 0,
        threadnum: 1,
        uid: 501,
        is_frontmost: false,
        is_throttled: false,
        is_forced_e: false,
        is_forced_p: false,
    }
}

fn order(pid: i32, enable: bool) -> ThrottleCommand {
    ThrottleCommand { pid, enable }
}

fn pids_of(commands: &[ThrottleCommand]) -> Vec<i32> {
    let mut pids: Vec<i32> = commands.iter().map(|c| c.pid).collect();
    pids.sort();
    pids
}

#[test]
fn default_thresholds_are_fifteen_and_five() {
    let config = GovernorConfig::default();
    assert_eq!(f64::from_bits(config.throttle_threshold.bits), 15.0);
    assert_eq!(f64::from_bits(config.release_threshold.bits), 5.0);
    assert!(!config.is_paused);
    assert!(config.forced_e_pids.is_empty());
    assert!(config.forced_p_pids.is_empty());
}

#[test]
fn config_copies_hold_the_same() {
    let mut config = GovernorConfig::default();
    config.forced_e_pids.insert(3);
    config.forced_p_pids.insert(4);
    config.is_paused = true;
    let copy = config.clone();
    assert_eq!(copy.forced_e_pids, config.forced_e_pids);
    assert_eq!(copy.forced_p_pids, config.forced_p_pids);
    assert_eq!(copy.throttle_threshold, config.throttle_threshold);
    assert!(copy.is_paused);
}

#[test]
fn throttling_needs_an_eligible_process_at_the_threshold() {
    let at = double(15.0);
    assert!(should_throttle(&hog(1, "java", 15.0), at));
    assert!(!should_throttle(&hog(1, "java", 14.999), at));
    assert!(!should_throttle(&hog(1, "java", f64::NAN), at));
    let mut system = hog(1, "java", 90.0);
    system.uid = 499;
    assert!(!should_throttle(&system, at));
    system.uid = 500;
    assert!(should_throttle(&system, at));
    for name in [
        "WindowServer",
        "Dock",
        "Finder",
        "loginwindow",
        "coreaudiod",
        "SystemUIServer",
        "NotificationCenter",
        "Spotlight",
        "launchd",
    ] {
        assert!(!should_throttle(&hog(1, name, 90.0), at), "{}", name);
    }
}

#[test]
fn process_stays_throttled_between_the_thresholds() {
    let mut g = Governor::new(GovernorConfig::default());
    assert_eq!(g.evaluate(&[hog(1, "java", 14.9)]), vec![]);
    assert_eq!(g.evaluate(&[hog(1, "java", 20.0)]), vec![order(1, true)]);
    assert!(g.is_throttled(1));
    assert_eq!(g.evaluate(&[hog(1, "java", 20.0)]), vec![]);
    assert_eq!(g.evaluate(&[hog(1, "java", 14.9)]), vec![]);
    assert_eq!(g.evaluate(&[hog(1, "java", 5.0)]), vec![]);
    assert!(g.is_throttled(1));
    assert_eq!(g.evaluate(&[hog(1, "java", 4.9)]), vec![order(1, false)]);
    assert!(!g.is_throttled(1));
    assert!(!g.has_throttled());
}

#[test]
fn absent_process_is_released() {
    let mut g = Governor::new(GovernorConfig::default());
    g.evaluate(&[hog(1, "java", 20.0), hog(2, "rustc", 90.0)]);
    let released = g.evaluate(&[hog(2, "rustc", 90.0)]);
    assert_eq!(released, vec![order(1, false)]);
    assert!(g.is_throttled(2) && !g.is_throttled(1));
}

#[test]
fn forced_to_efficiency_is_throttled_whatever_its_share() {
    let mut config = GovernorConfig::default();
    config.forced_e_pids.insert(1);
    let mut g = Governor::new(config);
    assert_eq!(g.evaluate(&[hog(1, "java", 0.2)]), vec![order(1, true)]);
    assert_eq!(g.evaluate(&[]), vec![]);
    assert!(g.is_throttled(1));
    let (e, p) = g.forced_pid_sets();
    assert!(e.contains(&1) && e.len() == 1 && p.is_empty());
}

#[test]
fn forced_to_performance_is_never_throttled() {
    let mut g = Governor::new(GovernorConfig::default());
    g.evaluate(&[hog(1, "java", 50.0), hog(2, "rustc", 50.0)]);
    let mut config = GovernorConfig::default();
    config.forced_p_pids.insert(1);
    config.forced_p_pids.insert(2);
    g.configure(config);
    assert!(g.is_throttled(1));
    // One is among the busy processes, the other is not.
    assert_eq!(g.evaluate(&[hog(1, "java", 50.0)]), vec![order(1, false), order(2, false)]);
    assert_eq!(g.evaluate(&[hog(1, "java", 50.0)]), vec![]);
    assert!(!g.has_throttled());
}

#[test]
fn efficiency_wins_over_performance() {
    let mut config = GovernorConfig::default();
    config.forced_e_pids.insert(1);
    config.forced_p_pids.insert(1);
    let mut g = Governor::new(config);
    assert_eq!(g.evaluate(&[hog(1, "java", 1.0)]), vec![order(1, true)]);
    assert_eq!(g.evaluate(&[hog(1, "java", 1.0)]), vec![]);
}

#[test]
fn release_all_empties_the_governor() {
    let mut g = Governor::new(GovernorConfig::default());
    g.evaluate(&[hog(1, "java", 50.0), hog(2, "rustc", 50.0), hog(3, "tail", 6.0)]);
    let commands = g.release_all();
    assert!(commands.iter().all(|c| !c.enable));
    assert_eq!(pids_of(&commands), vec![1, 2]);
    assert!(!g.has_throttled());
    assert_eq!(g.release_all(), vec![]);
}

#[test]
fn standby_releases_once_and_throttles_nothing() {
    let mut g = Governor::new(GovernorConfig::default());
    assert_eq!(g.govern(&[hog(1, "java", 50.0)]), vec![order(1, true)]);
    let mut config = GovernorConfig::default();
    config.is_paused = true;
    g.configure(config);
    assert!(g.is_paused());
    assert_eq!(g.govern(&[hog(1, "java", 50.0)]), vec![order(1, false)]);
    assert_eq!(g.govern(&[hog(1, "java", 50.0)]), vec![]);
    assert!(!g.has_throttled());
}

#[test]
fn orders_replayed_give_what_is_throttled() {
    let mut g = Governor::new(GovernorConfig::default());
    let mut replayed: Vec<i32> = Vec::new();
    let rounds = [
        vec![hog(1, "a", 20.0), hog(2, "b", 16.0), hog(3, "c", 3.0)],
        vec![hog(2, "b", 4.0), hog(3, "c", 40.0)],
        vec![hog(1, "a", 15.0), hog(3, "c", 6.0)],
    ];
    for hogs in rounds {
        for c in g.evaluate(&hogs) {
            if c.enable {
                replayed.push(c.pid);
            } else {
                replayed.retain(|p| *p != c.pid);
            }
        }
        for pid in 0..5 {
            assert_eq!(g.is_throttled(pid), replayed.contains(&pid));
        }
    }
    for c in g.release_all() {
        replayed.retain(|p| *p != c.pid);
    }
    assert!(replayed.is_empty());
}

#[test]
fn recovery_releases_every_eligible_process() {
    let mut snap = CpuSnapshot::new();
    snap.insert(1, ("launchd".to_string(), 0, 0, 1, 501));
    snap.insert(2, ("kernel".to_string(), 0, 0, 1, 0));
    snap.insert(3, ("java".to_string(), 0, 0, 1, 501));
    snap.insert(4, ("rustc".to_string(), 0, 0, 1, 500));
    snap.insert(5, ("agent".to_string(), 0, 0, 1, 499));
    let commands = run_recovery(&snap);
    assert!(commands.iter().all(|c| !c.enable));
    assert_eq!(pids_of(&commands), vec![3, 4]);
    assert_eq!(run_recovery(&CpuSnapshot::new()), vec![]);
}

#[test]
fn recovery_is_reported() {
    assert_eq!(
        recovery_notice("java", 77),
        "[RECOVERY] Spawned taskpolicy restore for java (PID 77)"
    );
    assert_eq!(
        recovery_summary(3),
        "[RECOVERY] Done \u{2014} lifted throttle on 3 process(es)."
    );
}

#[test]
fn policy_tool_gets_flag_and_pid() {
    assert_eq!(policy_arguments(order(12, true)), vec!["-b", "-p", "12"]);
    assert_eq!(policy_arguments(order(12, false)), vec!["-B", "-p", "12"]);
}

#[test]
fn recovery_leaves_only_ineligible_processes_throttled() {
    let mut snap = CpuSnapshot::new();
    snap.insert(3, ("java".to_string(), 0, 0, 1, 501));
    snap.insert(4, ("Dock".to_string(), 0, 0, 1, 501));
    let mut throttled = vec![3, 4, 5];
    for c in run_recovery(&snap) {
        throttled.retain(|pid| *pid != c.pid);
    }
    assert_eq!(throttled, vec![4, 5]);
}

#[test]
fn ineligible_process_is_not_throttled_though_forced() {
    let mut config = GovernorConfig::default();
    config.forced_e_pids.insert(88);
    config.forced_e_pids.insert(89);
    config.forced_e_pids.insert(90);
    let mut g = Governor::new(config);
    let mut system = hog(89, "kernel_task", 90.0);
    system.uid = 499;
    let hogs = [hog(88, "WindowServer", 90.0), system, hog(90, "java", 0.2)];
    assert_eq!(g.evaluate(&hogs), vec![order(90, true)]);
    assert!(!g.is_throttled(88));
    assert!(!g.is_throttled(89));
    assert!(g.is_throttled(90));
}

#[test]
fn forced_process_stays_throttled() {
    let mut config = GovernorConfig::default();
    config.forced_e_pids.insert(1);
    let mut g = Governor::new(config);
    g.evaluate(&[hog(1, "java", 1.0)]);
    assert_eq!(g.evaluate(&[hog(1, "Dock", 1.0)]), vec![]);
    assert!(g.is_throttled(1));
    let mut config = GovernorConfig::default();
    config.forced_e_pids.insert(1);
    config.forced_p_pids.insert(1);
    g.configure(config);
    assert_eq!(g.evaluate(&[hog(1, "Dock", 1.0)]), vec![]);
    assert!(g.is_throttled(1));
}

#[test]
fn second_evaluation_of_the_same_figures_orders_nothing() {
    let mut config = GovernorConfig::default();
    config.forced_e_pids.insert(4);
    config.forced_p_pids.insert(1);
    let mut g = Governor::new(GovernorConfig::default());
    g.evaluate(&[hog(1, "java", 20.0), hog(2, "rustc", 30.0)]);
    g.configure(config);
    let hogs = [hog(1, "java", 20.0), hog(3, "tail", 16.0), hog(4, "yes", 1.0)];
    let commands = g.evaluate(&hogs);
    assert_eq!(pids_of(&commands), vec![1, 2, 3, 4]);
    assert_eq!(g.evaluate(&hogs), vec![]);
}
