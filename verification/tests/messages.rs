use allocate_core::double::Double;
use allocate_core::frontmost::{
    foreground_of, get_frontmost_app, notified_signal, signal_or_polled, AppSwitchSignal,
    ForegroundApp, RunningApp,
};
use allocate_core::governor::GovernorConfig;
use allocate_core::ipc::{
    config_notice, handle_config_message, listener_enabled, sanitize, ClientEvent, ClientOutcome, ConfigMessage,
    IpcBroadcaster, ListenerEvent, XPC_SERVICE_NAME,
};

fn double(x: f64) -> Double {
    Double { bits: x.to_bits() }
}

fn message(kind: Option<&str>, throttle: f64, release: f64) -> ConfigMessage {
    ConfigMessage {
        kind: kind.map(|s| s.to_string()),
        throttle_threshold: double(throttle),
        release_threshold: double(release),
    }
}

#[test]
fn valid_thresholds_are_taken_over() {
    let mut config = GovernorConfig::default();
    config.forced_e_pids.insert(9);
    assert!(handle_config_message(&message(Some("config"), 30.0, 10.0), &mut config));
    assert_eq!(config.throttle_threshold, double(30.0));
    assert_eq!(config.release_threshold, double(10.0));
    assert!(config.forced_e_pids.contains(&9));
}

#[test]
fn malformed_messages_are_ignored() {
    for m in [
        message(None, 30.0, 10.0),
        message(Some("other"), 30.0, 10.0),
        message(Some("config"), 0.0, 10.0),
        message(Some("config"), 30.0, 0.0),
        message(Some("config"), 30.0, -1.0),
        message(Some("config"), 10.0, 10.0),
        message(Some("config"), 10.0, 30.0),
        message(Some("config"), f64::NAN, 10.0),
        message(Some("config"), 30.0, f64::NAN),
    ] {
        let mut config = GovernorConfig::default();
        assert!(!handle_config_message(&m, &mut config));
        assert_eq!(config.throttle_threshold, double(15.0));
        assert_eq!(config.release_threshold, double(5.0));
    }
}

#[test]
fn new_thresholds_are_logged() {
    assert_eq!(
        config_notice(double(30.0), double(7.25)),
        "[IPC] Config updated: throttle=30.0% release=7.2%"
    );
}

#[test]
fn nul_characters_are_replaced() {
    assert_eq!(sanitize("a\0b\0"), "a\u{FFFD}b\u{FFFD}");
    assert_eq!(sanitize("plain"), "plain");
}

#[test]
fn nothing_is_sent_without_clients() {
    let b = IpcBroadcaster::new();
    assert!(b.broadcast("table").is_none());
}

#[test]
fn every_client_gets_the_table() {
    let mut b = IpcBroadcaster::new();
    assert!(b.accept(&ListenerEvent::Connection(5)));
    assert!(!b.accept(&ListenerEvent::Other));
    assert!(b.accept(&ListenerEvent::Connection(3)));
    let sent = b.broadcast("ta\0ble").unwrap();
    assert_eq!(sent.payload, "ta\u{FFFD}ble");
    assert_eq!(sent.recipients, vec![5, 3]);
}

#[test]
fn invalid_connection_is_forgotten() {
    let mut b = IpcBroadcaster::new();
    let mut config = GovernorConfig::default();
    for handle in [1, 2, 3] {
        b.accept(&ListenerEvent::Connection(handle));
    }
    assert_eq!(b.client_event(2, &ClientEvent::Invalid, &mut config), ClientOutcome::Released);
    assert_eq!(b.broadcast("x").unwrap().recipients, vec![1, 3]);
    assert_eq!(b.client_event(1, &ClientEvent::OtherError, &mut config), ClientOutcome::Ignored);
    assert_eq!(b.client_event(1, &ClientEvent::Other, &mut config), ClientOutcome::Ignored);
    assert_eq!(b.broadcast("x").unwrap().recipients, vec![1, 3]);
    let good = ClientEvent::Message(message(Some("config"), 40.0, 20.0));
    assert_eq!(b.client_event(1, &good, &mut config), ClientOutcome::Configured);
    assert_eq!(config.throttle_threshold, double(40.0));
    let bad = ClientEvent::Message(message(Some("config"), 20.0, 40.0));
    assert_eq!(b.client_event(1, &bad, &mut config), ClientOutcome::Ignored);
    assert_eq!(config.throttle_threshold, double(40.0));
}

#[test]
fn service_has_its_registered_name() {
    assert_eq!(XPC_SERVICE_NAME, "com.andrewzheng.allocate.daemon");
}

#[test]
fn foreground_application_without_a_name() {
    let app = |name: Option<&str>| {
        Some(RunningApp { pid: 44, localized_name: name.map(|s| s.to_string()) })
    };
    assert!(get_frontmost_app(None).is_none());
    assert_eq!(
        get_frontmost_app(app(Some("Safari"))),
        Some(ForegroundApp { name: "Safari".to_string(), pid: 44 })
    );
    assert_eq!(get_frontmost_app(app(None)).unwrap().name, "Unknown");
    assert!(notified_signal(None).is_none());
    assert_eq!(notified_signal(app(Some("Safari"))).unwrap().name, "Safari");
    assert_eq!(notified_signal(app(None)).unwrap().name, "<44>");
}

#[test]
fn polled_application_stands_in_for_a_missing_one() {
    let notified = AppSwitchSignal { name: "Mail".to_string(), pid: 1 };
    let polled = ForegroundApp { name: "Notes".to_string(), pid: 2 };
    let s = signal_or_polled(Some(notified.clone()), Some(polled.clone())).unwrap();
    assert_eq!((s.name.as_str(), s.pid), ("Mail", 1));
    let s = signal_or_polled(None, Some(polled)).unwrap();
    assert_eq!((s.name.as_str(), s.pid), ("Notes", 2));
    assert!(signal_or_polled(None, None).is_none());
    let fg = foreground_of(notified);
    assert_eq!((fg.name.as_str(), fg.pid), ("Mail", 1));
}

#[test]
fn clients_are_served_only_where_enabled() {
    assert!(listener_enabled(Some("1")));
    assert!(!listener_enabled(Some("0")));
    assert!(!listener_enabled(Some("")));
    assert!(!listener_enabled(Some("11")));
    assert!(!listener_enabled(None));
}
