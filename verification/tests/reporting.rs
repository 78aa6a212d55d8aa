use allocate_core::battery::{BatteryState, PowerSource};
use allocate_core::double::Double;
use allocate_core::frontmost::ForegroundApp;
use allocate_core::process::{CpuSnapshot, ProcessMetrics};
use allocate_core::report::{banner, build_override_list, build_table, shorten, SEP};
use std::collections::HashSet;

fn row(name: &str, cpu: f64, bytes: u64, threads: i32) -> ProcessMetrics {
    ProcessMetrics {
        pid: 100,
        name: name.to_string(),
        cpu_pct: Double { bits: cpu.to_bits() },
        resident_bytes: bytes,
        threadnum: threads,
        uid: 501,
        is_frontmost: false,
        is_throttled: false,
        is_forced_e: false,
        is_forced_p: false,
    }
}

fn terminal() -> ForegroundApp {
    ForegroundApp { name: "Terminal".to_string(), pid: 321 }
}

#[test]
fn throttled_row_is_laid_out_in_columns() {
    let mut first = row("dummy-hog", 102.3, 12_000_000, 9);
    first.is_throttled = true;
    let table = build_table(&terminal(), &[first], &None);
    assert_eq!(
        table.lines().nth(4).unwrap(),
        "│  1. dummy-hog               | CPU: 102.3% | RAM:  12 MB | Threads:  9 | THROTTLED"
    );
    let mut second = row("java", 87.4, 1_800_000_000, 42);
    second.is_throttled = true;
    let table = build_table(&terminal(), &[second], &None);
    assert_eq!(
        table.lines().nth(4).unwrap(),
        "│  1. java                    | CPU:  87.4% | RAM: 1.8 GB | Threads: 42 | THROTTLED"
    );
}

#[test]
fn table_without_rows_says_so() {
    let table = build_table(&terminal(), &[], &None);
    let expected = format!(
        "┌{SEP}\n│ 🟢 ACTIVE: Terminal (PID: 321)\n├{SEP}\n│ ⚠️  BACKGROUND HOGS\n│   (none above threshold)\n└{SEP}\n\n"
    );
    assert_eq!(table, expected);
}

#[test]
fn frontmost_row_has_rank_zero() {
    let mut front = row("Terminal", 3.0, 250_000_000, 7);
    front.is_frontmost = true;
    let mut forced_e = row("a", 1.0, 0, 1);
    forced_e.is_forced_e = true;
    forced_e.is_forced_p = true;
    forced_e.is_throttled = true;
    let mut forced_p = row("b", 1.0, 0, 1);
    forced_p.is_forced_p = true;
    forced_p.is_throttled = true;
    let plain = row("c", 1.0, 0, 1);
    let battery =
        Some(BatteryState { charge_percent: 79, is_charging: false, source: PowerSource::Battery });
    let table = build_table(&terminal(), &[front, forced_e, forced_p, plain], &battery);
    let lines: Vec<&str> = table.lines().collect();
    assert_eq!(lines[1], "│ 🟢 ACTIVE: Terminal (PID: 321) | 🔋 79% (Battery)");
    assert!(lines[3].starts_with("│  0. Terminal "));
    assert!(lines[3].ends_with("| FRONTMOST"));
    assert!(lines[4].starts_with('├'));
    assert!(lines[6].starts_with("│  1. a ") && lines[6].ends_with("| FORCE_E"));
    assert!(lines[7].starts_with("│  2. b ") && lines[7].ends_with("| FORCE_P"));
    assert!(lines[8].starts_with("│  3. c ") && lines[8].ends_with("| OK"));
    assert!(lines[9].starts_with('└'));
    assert_eq!(lines.len(), 11);
}

#[test]
fn charging_battery_has_its_own_icon() {
    let battery =
        Some(BatteryState { charge_percent: 100, is_charging: true, source: PowerSource::AcPower });
    let table = build_table(&terminal(), &[], &battery);
    assert_eq!(
        table.lines().nth(1).unwrap(),
        "│ 🟢 ACTIVE: Terminal (PID: 321) | 🔌 100% (Charging)"
    );
}

#[test]
fn frontmost_row_further_down_is_an_ordinary_one() {
    let mut late = row("late", 1.0, 0, 1);
    late.is_frontmost = true;
    let table = build_table(&terminal(), &[row("early", 2.0, 0, 1), late], &None);
    assert!(table.contains("│  2. late "));
    assert!(!table.contains("FRONTMOST"));
}

#[test]
fn names_are_cut_at_twenty_four_bytes() {
    assert_eq!(shorten("abcdefghijklmnopqrstuvwx"), "abcdefghijklmnopqrstuvwx");
    assert_eq!(shorten("abcdefghijklmnopqrstuvwxyz"), "abcdefghijklmnopqrstuvwx");
    // A character that would be cut in two is left out.
    assert_eq!(shorten("abcdefghijklmnopqrstuvw\u{E9}z"), "abcdefghijklmnopqrstuvw");
    assert_eq!(shorten("🟢🟢🟢🟢🟢🟢🟢"), "🟢🟢🟢🟢🟢🟢");
    assert_eq!(shorten(""), "");
}

#[test]
fn override_list_names_processes() {
    let mut snap = CpuSnapshot::new();
    snap.insert(1, ("java".to_string(), 0, 0, 1, 501));
    snap.insert(2, ("rustc".to_string(), 0, 0, 1, 501));
    let mut pids = HashSet::new();
    assert_eq!(build_override_list(&pids, &snap), "");
    pids.insert(1);
    assert_eq!(build_override_list(&pids, &snap), "java");
    pids.insert(2);
    pids.insert(99);
    let names = build_override_list(&pids, &snap);
    let mut parts: Vec<&str> = names.split(',').collect();
    parts.sort();
    assert_eq!(parts, vec!["99", "java", "rustc"]);
}

#[test]
fn banner_shows_how_many_processes_are_reported() {
    let text = banner();
    let lines: Vec<&str> = text.lines().collect();
    assert_eq!(lines[1], "  Allocate  ·  Hardware-Aware Workload Governor  ·  v0.1  ");
    assert_eq!(lines[2], "  CPU window: 500 ms  |  Top N: 20  |  Event-driven + XPC  ");
    assert_eq!(lines[4], "[INIT] Watchdog armed. Waiting for foreground change…");
    assert_eq!(lines[0].chars().count(), 59);
    assert!(text.ends_with("…\n\n"));
}

#[test]
fn long_names_stay_parted_from_the_next_column() {
    let table = build_table(&terminal(), &[row("abcdefghijklmnopqrstuvwxyz", 1.0, 0, 1)], &None);
    let line = table.lines().nth(4).unwrap();
    assert_eq!(
        line,
        "│  1. abcdefghijklmnopqrstuvwx | CPU:   1.0% | RAM:   0 MB | Threads:  1 | OK"
    );
    for name in ["", "a", "abcdefghijklmnopqrstuvw", "abcdefghijklmnopqrstuvwx"] {
        let table = build_table(&terminal(), &[row(name, 1.0, 0, 1)], &None);
        assert_eq!(table.lines().nth(4).unwrap().split(" | ").count(), 5, "{}", name);
    }
}
