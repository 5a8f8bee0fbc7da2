use appointment_watcher::config::{
    channel_from_text, check_stores, default_stores, parse_channel_id, request_url, ConfigError,
    SourceConfig, SESSION_COOKIE,
};
use appointment_watcher::cycle::{Cycle, SourceError};
use appointment_watcher::report::{display_name, PollResult, Timeslot};
use appointment_watcher::scheduler::{Action, Scheduler, Signal, POLL_INTERVAL_SECS};

fn slot(date: &str, from: &str, to: &str) -> Timeslot {
    Timeslot { date: date.to_string(), from: from.to_string(), to: to.to_string() }
}

fn result_of(entries: Vec<(&str, Vec<Timeslot>)>) -> PollResult {
    let mut r = PollResult::new();
    for (code, slots) in entries {
        r.insert(code.to_string(), slots);
    }
    r
}

#[test]
fn scenario_all_stores_empty() {
    let r = result_of(vec![("0885", vec![]), ("0103", vec![])]);
    let (msg, any) = r.format();
    assert!(!any);
    assert_eq!(
        msg,
        "Store: Bonn city center\nNo dates available\n\nStore: Bonn K\u{f6}lnstra\u{df}e\nNo dates available\n\n"
    );
}

#[test]
fn scenario_one_store_with_slot() {
    let r = result_of(vec![("0885", vec![slot("2024-09-01", "10:00", "10:30")]), ("0103", vec![])]);
    let (msg, any) = r.format();
    assert!(any);
    assert!(msg.contains("Store: Bonn city center\n"));
    assert!(msg.contains("Date: 2024-09-01\nFrom: 10:00\nTo: 10:30\n\n"));
    assert!(msg.contains("Store: Bonn K\u{f6}lnstra\u{df}e\nNo dates available\n\n"));
    assert_eq!(
        msg,
        "Store: Bonn city center\nDate: 2024-09-01\nFrom: 10:00\nTo: 10:30\n\nStore: Bonn K\u{f6}lnstra\u{df}e\nNo dates available\n\n"
    );
}

#[test]
fn scenario_unknown_store() {
    let r = result_of(vec![("9999", vec![slot("2024-10-02", "09:15", "09:45")])]);
    let (msg, any) = r.format();
    assert!(any);
    assert_eq!(msg, "Store: Unknown\nDate: 2024-10-02\nFrom: 09:15\nTo: 09:45\n\n");
}

#[test]
fn empty_stores_each_get_no_dates_line() {
    let r = result_of(vec![("0103", vec![]), ("1234", vec![]), ("0885", vec![])]);
    let (msg, any) = r.format();
    assert!(!any);
    assert_eq!(msg.matches("No dates available\n").count(), 3);
    assert!(msg.contains("Store: Unknown\nNo dates available\n\n"));
}

#[test]
fn no_store_gives_empty_text() {
    let (msg, any) = PollResult::new().format();
    assert!(!any);
    assert_eq!(msg, "");
}

#[test]
fn any_slot_means_availability() {
    let r = result_of(vec![("0885", vec![]), ("0103", vec![]), ("7777", vec![slot("d", "a", "b")])]);
    assert!(r.format().1);
}

#[test]
fn several_slots_in_order() {
    let r = result_of(vec![(
        "0103",
        vec![slot("2024-09-01", "10:00", "10:30"), slot("2024-09-02", "11:00", "11:30")],
    )]);
    assert_eq!(
        r.format().0,
        "Store: Bonn K\u{f6}lnstra\u{df}e\nDate: 2024-09-01\nFrom: 10:00\nTo: 10:30\n\nDate: 2024-09-02\nFrom: 11:00\nTo: 11:30\n\n"
    );
}

#[test]
fn format_twice_is_identical() {
    let r = result_of(vec![("0885", vec![slot("2024-09-01", "10:00", "10:30")]), ("0103", vec![])]);
    assert_eq!(r.format(), r.format());
}

#[test]
fn insert_replaces_same_code() {
    let mut r = result_of(vec![("0885", vec![slot("x", "1", "2")]), ("0103", vec![])]);
    r.insert("0885".to_string(), vec![]);
    assert_eq!(r.len(), 2);
    assert_eq!(r.entries()[0].code, "0885");
    assert!(r.entries()[0].slots.is_empty());
    assert!(!r.format().1);
}

#[test]
fn display_names() {
    assert_eq!(display_name(&"0885".to_string()), "Bonn city center");
    assert_eq!(display_name(&"0103".to_string()), "Bonn K\u{f6}lnstra\u{df}e");
    assert_eq!(display_name(&"0886".to_string()), "Unknown");
    assert_eq!(display_name(&"".to_string()), "Unknown");
}

fn run_cycle(stores: Vec<String>, outcomes: Vec<Result<Vec<Timeslot>, SourceError>>) -> Cycle {
    let mut c = Cycle::start(stores);
    for o in outcomes {
        assert!(c.next_store().is_some());
        c.record(o);
    }
    c
}

#[test]
fn scenario_failed_store_does_not_stop_cycle() {
    let c = run_cycle(
        default_stores(),
        vec![Err(SourceError::Transport), Ok(vec![slot("2024-09-03", "08:00", "08:30")])],
    );
    assert!(c.is_complete());
    assert!(c.next_store().is_none());
    assert_eq!(c.failed(), &vec!["0885".to_string()]);
    let (msg, any) = c.finish();
    assert!(any);
    assert_eq!(
        msg,
        "Store: Bonn city center\nNo dates available\n\nStore: Bonn K\u{f6}lnstra\u{df}e\nDate: 2024-09-03\nFrom: 08:00\nTo: 08:30\n\n"
    );
}

#[test]
fn cycle_queries_stores_in_order() {
    let mut c = Cycle::start(default_stores());
    assert_eq!(c.next_store(), Some(&"0885".to_string()));
    assert!(!c.is_complete());
    c.record(Err(SourceError::Status(503)));
    assert_eq!(c.next_store(), Some(&"0103".to_string()));
    c.record(Err(SourceError::Decode));
    assert!(c.is_complete());
    assert_eq!(c.failed().len(), 2);
    assert!(!c.finish().1);
}

#[test]
fn consecutive_cycles_do_not_mix() {
    let first = run_cycle(
        default_stores(),
        vec![Ok(vec![slot("2024-09-01", "10:00", "10:30")]), Ok(vec![])],
    );
    let second = run_cycle(default_stores(), vec![Ok(vec![]), Ok(vec![slot("2024-09-05", "12:00", "12:30")])]);
    let (m1, a1) = first.finish();
    let (m2, a2) = second.finish();
    assert!(a1 && a2);
    assert!(m1.contains("2024-09-01"));
    assert!(!m2.contains("2024-09-01"));
    assert!(m2.contains("2024-09-05"));
    let fresh = run_cycle(default_stores(), vec![Ok(vec![]), Ok(vec![slot("2024-09-05", "12:00", "12:30")])]);
    assert_eq!(fresh.finish(), (m2, a2));
}

#[test]
fn scenario_shutdown_while_sleeping() {
    let mut s = Scheduler::new(POLL_INTERVAL_SECS, 1000);
    assert_eq!(s.tick(Signal::Pending, 1001), Action::Sleep);
    assert_eq!(s.tick(Signal::Pending, 1030), Action::Sleep);
    assert_eq!(s.tick(Signal::Fired, 1031), Action::Stop);
    assert!(s.is_stopped());
    assert_eq!(s.tick(Signal::Pending, 1100), Action::Stop);
    assert_eq!(s.tick(Signal::Pending, 5000), Action::Stop);
}

#[test]
fn closed_signal_stops() {
    let mut s = Scheduler::new(POLL_INTERVAL_SECS, 0);
    assert_eq!(s.tick(Signal::Closed, 100), Action::Stop);
    assert!(s.is_stopped());
}

#[test]
fn poll_after_interval_measured_from_cycle_end() {
    let mut s = Scheduler::new(60, 0);
    assert_eq!(s.tick(Signal::Pending, 59), Action::Sleep);
    assert_eq!(s.tick(Signal::Pending, 60), Action::Poll);
    s.cycle_done(75);
    assert_eq!(s.last_cycle_end, 75);
    assert_eq!(s.tick(Signal::Pending, 120), Action::Sleep);
    assert_eq!(s.tick(Signal::Pending, 134), Action::Sleep);
    assert_eq!(s.tick(Signal::Pending, 135), Action::Poll);
    assert!(!s.is_stopped());
}

#[test]
fn clock_before_last_cycle_sleeps() {
    let mut s = Scheduler::new(60, 500);
    assert_eq!(s.tick(Signal::Pending, 10), Action::Sleep);
}

#[test]
fn url_of_store() {
    assert_eq!(
        request_url(&"0885".to_string()),
        "https://termine.fielmann.de/api/v3/times/001-0885/free/CL_CF/next"
    );
}

#[test]
fn default_store_list() {
    assert_eq!(default_stores(), vec!["0885".to_string(), "0103".to_string()]);
    assert_eq!(check_stores(&default_stores()), Ok(()));
}

#[test]
fn duplicate_store_refused() {
    let stores = vec!["0885".to_string(), "0103".to_string(), "0885".to_string()];
    assert_eq!(check_stores(&stores), Err(ConfigError::DuplicateStore));
    assert_eq!(check_stores(&vec![]), Ok(()));
}

#[test]
fn channel_id_parsing() {
    assert_eq!(parse_channel_id("1234567890123"), Ok(1234567890123));
    assert_eq!(parse_channel_id("+42"), Ok(42));
    assert_eq!(parse_channel_id("18446744073709551615"), Ok(u64::MAX));
    assert_eq!(parse_channel_id("18446744073709551616"), Err(ConfigError::InvalidChannelId));
    assert_eq!(parse_channel_id(""), Err(ConfigError::InvalidChannelId));
    assert_eq!(parse_channel_id("+"), Err(ConfigError::InvalidChannelId));
    assert_eq!(parse_channel_id("12a"), Err(ConfigError::InvalidChannelId));
    assert_eq!(parse_channel_id("-5"), Err(ConfigError::InvalidChannelId));
    assert_eq!(parse_channel_id("0"), Err(ConfigError::ZeroChannelId));
    assert_eq!(parse_channel_id("000"), Err(ConfigError::ZeroChannelId));
}

#[test]
fn channel_from_text_wraps_id() {
    let c = channel_from_text("987654321").unwrap();
    assert_eq!(c.get(), 987654321);
    assert!(matches!(channel_from_text("0"), Err(ConfigError::ZeroChannelId)));
    assert!(matches!(channel_from_text("x"), Err(ConfigError::InvalidChannelId)));
}

#[test]
fn standard_source_config() {
    let c = SourceConfig::standard();
    assert_eq!(c.user_agent, "Mozilla/5.0 (X11; Linux x86_64; rv:128.0) Gecko/20100101 Firefox/128.0");
    assert_eq!(c.headers.len(), 12);
    assert_eq!(c.headers[0], ("Accept".to_string(), "application/json, text/plain, */*".to_string()));
    assert_eq!(c.headers[6], ("Cookie".to_string(), SESSION_COOKIE.to_string()));
    assert_eq!(c.headers[11], ("TE".to_string(), "trailers".to_string()));
}

#[test]
fn standard_headers_are_valid() {
    let typed = SourceConfig::standard().typed_headers().unwrap();
    assert_eq!(typed.len(), 12);
    assert_eq!(typed[0].0.as_str(), "accept");
    assert_eq!(typed[0].1.to_str().unwrap(), "application/json, text/plain, */*");
    assert_eq!(typed[6].1.to_str().unwrap(), SESSION_COOKIE);
}

fn config_with(name: &str, value: &str) -> SourceConfig {
    SourceConfig { user_agent: "agent".to_string(), headers: vec![(name.to_string(), value.to_string())] }
}

#[test]
fn header_value_with_newline_refused() {
    assert_eq!(config_with("X-Test", "a\nb").typed_headers().err(), Some(ConfigError::InvalidHeaderValue));
    assert_eq!(config_with("X-Test", "a\u{7f}").typed_headers().err(), Some(ConfigError::InvalidHeaderValue));
    assert!(config_with("X-Test", "a\tb").typed_headers().is_ok());
}

#[test]
fn bad_header_name_refused() {
    assert_eq!(config_with("", "v").typed_headers().err(), Some(ConfigError::InvalidHeaderName));
    assert_eq!(config_with("bad name", "v").typed_headers().err(), Some(ConfigError::InvalidHeaderName));
}

#[test]
fn header_name_length_and_case() {
    let longest = "a".repeat(65535);
    assert!(config_with(&longest, "v").typed_headers().is_ok());
    let too_long = "a".repeat(65536);
    assert_eq!(config_with(&too_long, "v").typed_headers().err(), Some(ConfigError::InvalidHeaderName));
    assert!(config_with("X-Custom_Name.1~", "v").typed_headers().is_ok());
    assert_eq!(config_with("X(Test)", "v").typed_headers().err(), Some(ConfigError::InvalidHeaderName));
}

#[test]
fn first_bad_header_decides_error() {
    let c = SourceConfig {
        user_agent: "agent".to_string(),
        headers: vec![
            ("Good".to_string(), "ok".to_string()),
            ("bad name".to_string(), "ok".to_string()),
            ("Other".to_string(), "bad\rvalue".to_string()),
        ],
    };
    assert_eq!(c.typed_headers().err(), Some(ConfigError::InvalidHeaderName));
    assert_eq!(config_with("bad name", "bad\nvalue").typed_headers().err(), Some(ConfigError::InvalidHeaderValue));
}
