use allocate_core::double::Double;
use allocate_core::process::{
    bytes_before_nul, compute_top_cpu, format_ram, get_frontmost_metrics, listed_pids, long_name,
    name_and_owner, name_from, pid_capacity, placeholder_name, short_name, take_snapshot, task_usage, usable_name,
    CpuSnapshot, ProcessSample, ShortRecord, TaskInfo,
};

fn entry(name: &str, cpu: u64) -> (String, u64, u64, i32, u32) {
    (name.to_string(), cpu, 1_000_000, 3, 501)
}

fn value(d: Double) -> f64 {
    f64::from_bits(d.bits)
}

#[test]
fn test_format_ram_mb() {
    assert_eq!(format_ram(450_000_000), "450 MB");
    assert_eq!(format_ram(0), "0 MB");
    assert_eq!(format_ram(500_000), "0 MB");
}

#[test]
fn test_format_ram_gb() {
    assert_eq!(format_ram(2_100_000_000), "2.1 GB");
    assert_eq!(format_ram(1_000_000_000), "1.0 GB");
}

#[test]
fn test_compute_top_cpu_empty_on_zero_elapsed() {
    let s1 = CpuSnapshot::new();
    let s2 = CpuSnapshot::new();
    let result = compute_top_cpu(&s1, &s2, 0, None, 20);
    assert!(result.is_empty());
}

#[test]
fn format_ram_changes_unit_at_one_gigabyte() {
    assert_eq!(format_ram(999_999_999), "999 MB");
    assert_eq!(format_ram(1_000_000_001), "1.0 GB");
    assert_eq!(format_ram(1_049_999_999), "1.0 GB");
    assert_eq!(format_ram(1_050_000_001), "1.1 GB");
}

#[test]
fn format_ram_agrees_with_double_arithmetic() {
    let mut bytes: u64 = 1_000_000_000;
    for step in 0..2_000u64 {
        let expected = format!("{:.1} GB", bytes as f64 / 1_000_000_000.0);
        assert_eq!(format_ram(bytes), expected, "{} bytes", bytes);
        bytes += 49_999_999 + step * 7;
    }
    for ties in [1_050_000_000u64, 1_150_000_000, 1_250_000_000, 2_150_000_000, 2_450_000_000] {
        let expected = format!("{:.1} GB", ties as f64 / 1_000_000_000.0);
        assert_eq!(format_ram(ties), expected);
    }
    for large in [u64::MAX, u64::MAX - 1, 1u64 << 63, 9_007_199_254_740_993_000] {
        let expected = format!("{:.1} GB", large as f64 / 1_000_000_000.0);
        assert_eq!(format_ram(large), expected);
    }
}

#[test]
fn more_memory_shows_no_less() {
    let shown = |bytes: u64| {
        format_ram(bytes).trim_end_matches(" GB").parse::<f64>().unwrap()
    };
    let mut bytes: u64 = 1_000_000_000;
    let mut last = shown(bytes);
    while bytes < 3_000_000_000 {
        bytes += 12_345_679;
        assert!(shown(bytes) >= last);
        last = shown(bytes);
    }
}

#[test]
fn test_list_all_pids_returns_valid_pids() {
    let buffer = vec![1, 77, 0, 4_242, 0, 0];
    let pids = listed_pids(&buffer, 24);
    assert!(!pids.is_empty(), "proc_listpids returned no PIDs");
    assert!(pids.iter().all(|&p| p > 0), "all PIDs must be > 0");
}

#[test]
fn cpu_share_is_what_was_used_of_the_window() {
    let mut s1 = CpuSnapshot::new();
    let mut s2 = CpuSnapshot::new();
    s1.insert(7, entry("seven", 100_000_000));
    s2.insert(7, entry("seven", 350_000_000));
    let top = compute_top_cpu(&s1, &s2, 500_000_000, None, 20);
    assert_eq!(top.len(), 1);
    assert_eq!(top[0].pid, 7);
    assert_eq!(top[0].name, "seven");
    assert_eq!(value(top[0].cpu_pct), 50.0);
    assert_eq!(top[0].resident_bytes, 1_000_000);
    assert_eq!(top[0].threadnum, 3);
    assert_eq!(top[0].uid, 501);
    assert!(!top[0].is_frontmost && !top[0].is_throttled);
}

#[test]
fn cpu_shares_agree_with_double_arithmetic() {
    let mut s1 = CpuSnapshot::new();
    let mut s2 = CpuSnapshot::new();
    let mut used: u64 = 1;
    for pid in 1..60 {
        s1.insert(pid, entry("p", 12_345));
        s2.insert(pid, entry("p", 12_345 + used));
        used = used * 2 + (pid as u64) * 31;
    }
    for elapsed in [1u64, 3, 499_999_999, 500_123_457, u64::MAX] {
        for m in compute_top_cpu(&s1, &s2, elapsed, None, 100) {
            let delta = s2[&m.pid].1 - 12_345;
            let expected = (delta as f64 / elapsed as f64) * 100.0;
            assert_eq!(m.cpu_pct.bits, expected.to_bits());
        }
    }
}

#[test]
fn busiest_processes_come_first_and_the_list_is_cut() {
    let s1 = CpuSnapshot::new();
    let mut s2 = CpuSnapshot::new();
    for pid in 1..=30 {
        s2.insert(pid, entry("p", (pid as u64) * 10_000_000));
    }
    let top = compute_top_cpu(&s1, &s2, 500_000_000, None, 20);
    let order: Vec<i32> = top.iter().map(|m| m.pid).collect();
    assert_eq!(order, (11..=30).rev().collect::<Vec<i32>>());
}

#[test]
fn excluded_and_idle_processes_are_left_out() {
    let mut s1 = CpuSnapshot::new();
    let mut s2 = CpuSnapshot::new();
    s2.insert(1, entry("excluded", 400_000_000));
    // 0.1 percent of the window is just enough, a nanosecond less is not.
    s2.insert(2, entry("edge", 1_000_000));
    s2.insert(3, entry("noise", 999_999));
    // A process whose counter went back used nothing.
    s1.insert(4, entry("restarted", 500));
    s2.insert(4, entry("restarted", 400));
    let top = compute_top_cpu(&s1, &s2, 1_000_000_000, Some(1), 20);
    let order: Vec<i32> = top.iter().map(|m| m.pid).collect();
    assert_eq!(order, vec![2]);
}

#[test]
fn frontmost_metrics_need_a_window_and_a_process() {
    let s1 = CpuSnapshot::new();
    let mut s2 = CpuSnapshot::new();
    s2.insert(5, entry("front", 0));
    assert!(get_frontmost_metrics(5, &s1, &s2, 0).is_none());
    assert!(get_frontmost_metrics(6, &s1, &s2, 10).is_none());
    let m = get_frontmost_metrics(5, &s1, &s2, 10).unwrap();
    assert!(m.is_frontmost);
    assert_eq!(value(m.cpu_pct), 0.0);
    assert_eq!(m.clone().name, "front");
}

#[test]
fn pid_buffer_has_room_to_spare() {
    assert_eq!(pid_capacity(-1), 0);
    assert_eq!(pid_capacity(0), 0);
    assert_eq!(pid_capacity(400), 116);
}

#[test]
fn only_positive_pids_are_listed() {
    let buffer = vec![10, 0, -3, 20, 30];
    assert_eq!(listed_pids(&buffer, 16), vec![10, 20]);
    assert_eq!(listed_pids(&buffer, 1_000), vec![10, 20, 30]);
    assert_eq!(listed_pids(&buffer, 0), Vec::<i32>::new());
    assert_eq!(listed_pids(&buffer, -1), Vec::<i32>::new());
}

#[test]
fn incomplete_task_record_is_refused() {
    let info =
        TaskInfo { resident_size: 5, total_user: u64::MAX, total_system: 2, threadnum: 4 };
    assert_eq!(task_usage(95, &info), None);
    assert_eq!(task_usage(96, &info), Some((u64::MAX, 5, 4)));
    let info = TaskInfo { resident_size: 5, total_user: 40, total_system: 2, threadnum: 4 };
    assert_eq!(task_usage(96, &info), Some((42, 5, 4)));
}

#[test]
fn names_end_at_the_first_nul() {
    assert_eq!(name_from(b"java\0rest"), Some("java".to_string()));
    assert_eq!(name_from(b"java"), None);
    assert_eq!(name_from(b"\0java"), None);
    assert_eq!(bytes_before_nul(b"ab\0c\0"), Some(vec![b'a', b'b']));
    assert_eq!(bytes_before_nul(b"ab"), None);
    assert_eq!(usable_name(String::new()), None);
    assert_eq!(usable_name("x".to_string()), Some("x".to_string()));
}

#[test]
fn invalid_bytes_in_names_are_replaced() {
    assert_eq!(name_from(b"a\xffb\0"), Some("a\u{FFFD}b".to_string()));
    assert_eq!(name_from("na\u{EF}ve\0".as_bytes()), Some("na\u{EF}ve".to_string()));
}

#[test]
fn unknown_names_become_placeholders() {
    assert_eq!(long_name(0, b"java\0"), None);
    assert_eq!(long_name(4, b"java\0"), Some("java".to_string()));
    assert_eq!(short_name(12, 64, b"sh\0"), "sh");
    assert_eq!(short_name(12, 63, b"sh\0"), "<12>");
    assert_eq!(short_name(12, 64, b"\0"), "<12>");
    assert_eq!(placeholder_name(-5), "<-5>");
}

#[test]
fn snapshot_keeps_processes_whose_figures_are_known() {
    let samples = vec![
        ProcessSample { pid: 1, usage: Some((10, 20, 3)), name: "one".to_string(), uid: 0 },
        ProcessSample { pid: 2, usage: None, name: "two".to_string(), uid: 501 },
        ProcessSample { pid: 3, usage: Some((11, 21, 4)), name: "three".to_string(), uid: 502 },
    ];
    let snap = take_snapshot(&samples);
    assert_eq!(snap.len(), 2);
    assert_eq!(snap[&1], ("one".to_string(), 10, 20, 3, 0));
    assert_eq!(snap[&3], ("three".to_string(), 11, 21, 4, 502));
}

#[test]
fn name_and_owner_come_from_complete_answers() {
    let record = |written: i32| ShortRecord { written, name: b"Dock\0\0".to_vec(), uid: 501 };
    assert_eq!(name_and_owner(7, 6, b"Finder\0", &record(64)), ("Finder".to_string(), 501));
    assert_eq!(name_and_owner(7, 0, b"Finder\0", &record(64)), ("Dock".to_string(), 501));
    assert_eq!(name_and_owner(7, 1, b"\0", &record(64)), ("Dock".to_string(), 501));
    // An incomplete record makes the process one of the system.
    assert_eq!(name_and_owner(7, 6, b"Finder\0", &record(63)), ("Finder".to_string(), 0));
    assert_eq!(name_and_owner(7, 0, b"", &record(0)), ("<7>".to_string(), 0));
}
