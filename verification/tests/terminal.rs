use std::collections::VecDeque;

use android_terminal::app_state::{
    add_tag_filter, apply_app_storage_update, filtered_line_indices, filtered_line_indices_simple,
    first_ready_serial,
    remove_tag_filter, still_connected, tag_color_index, take_error_lines, take_lines, trim_buffer,
    AppStorageState, CachedLogLine, InsightState, InsightStatus, LogcatTagFilter, MAX_INSIGHTS,
    MAX_LOG_LINES, TAG_PALETTE_LEN,
};
use android_terminal::app_storage::{AppStorageUpdate, PackageStorage};
use android_terminal::client::InsightUpdate;
use android_terminal::device::{DeviceInfo, DeviceState};
use android_terminal::logcat::LogEntry;
use android_terminal::ui_model::{
    device_state_label, highlight_ranges, order_by_tx, truncate_package_name, HighlightRange, PanelId,
};

const SEC: u64 = 1_000_000_000;

fn entry(level: char, tag: &str, message: &str) -> LogEntry {
    LogEntry {
        timestamp: "01-01 00:00:00.000".to_string(),
        pid: 1,
        tid: 2,
        level,
        tag: tag.to_string(),
        message: message.to_string(),
    }
}

fn cached(level: char, tag: &str, message: &str) -> CachedLogLine {
    CachedLogLine::from_entry(&entry(level, tag, message), 0)
}

fn device(serial: &str, state: DeviceState) -> DeviceInfo {
    DeviceInfo { serial: serial.to_string(), model: String::new(), state }
}

// ---------------------------------------------------------------------------
// log lines
// ---------------------------------------------------------------------------

#[test]
fn cached_line_keeps_both_texts() {
    let line = CachedLogLine::from_entry(&entry('E', "Tag", "boom"), 7);
    assert_eq!(line.display(false), "E Tag: boom");
    assert!(line.display(true).ends_with("E Tag: boom"));
    assert!(line.display(true).starts_with("01-01 00:00:00.000"));
    assert_eq!(line.received_at, 7);
    assert_eq!(line.level, 'E');
}

#[test]
fn matches_filter_is_on_lowercased_full_text() {
    let line = cached('W', "NetTag", "Socket Closed");
    assert!(line.matches_filter("socket closed"));
    assert!(line.matches_filter("nettag"));
    assert!(!line.matches_filter("Socket"));
}

#[test]
fn matches_tag_filters_needs_every_tag() {
    let line = cached('I', "OkHttp", "request done");
    let filters = vec![
        LogcatTagFilter { tag: "okhttp".to_string(), color_index: 0 },
        LogcatTagFilter { tag: "DONE".to_string(), color_index: 1 },
    ];
    assert!(line.matches_tag_filters(&filters, false));
    let more = vec![LogcatTagFilter { tag: "missing".to_string(), color_index: 0 }];
    assert!(!line.matches_tag_filters(&more, false));
    assert!(line.matches_tag_filters(&[], true));
}

#[test]
fn filtered_line_indices_keeps_matches_in_order() {
    let lines: VecDeque<CachedLogLine> = vec![
        cached('I', "A", "alpha"),
        cached('E', "B", "beta"),
        cached('I', "C", "Alphabet"),
    ]
    .into();
    assert_eq!(filtered_line_indices_simple(&lines, "  ALPHA "), vec![0, 2]);
    assert_eq!(filtered_line_indices_simple(&lines, "   "), vec![0, 1, 2]);
    assert!(filtered_line_indices_simple(&lines, "zzz").is_empty());
}

#[test]
fn filtered_line_indices_applies_text_and_tag_filters() {
    let lines: VecDeque<CachedLogLine> = vec![
        cached('I', "OkHttp", "alpha"),
        cached('E', "System", "alpha beta"),
        cached('I', "OkHttp", "gamma"),
    ]
    .into();
    let tags = vec![LogcatTagFilter { tag: "OKHTTP".to_string(), color_index: 0 }];
    assert_eq!(filtered_line_indices(&lines, "", &tags, false), vec![0, 2]);
    assert_eq!(filtered_line_indices(&lines, " Alpha", &tags, true), vec![0]);
    assert_eq!(filtered_line_indices(&lines, "alpha", &[], false), vec![0, 1]);
    assert!(filtered_line_indices(&lines, "delta", &[], false).is_empty());
}

#[test]
fn trim_buffer_drops_oldest() {
    let mut buffer: VecDeque<CachedLogLine> = VecDeque::new();
    for i in 0..(MAX_LOG_LINES + 3) {
        buffer.push_back(cached('I', "T", &format!("m{i}")));
    }
    trim_buffer(&mut buffer);
    assert_eq!(buffer.len(), MAX_LOG_LINES);
    assert_eq!(buffer.front().unwrap().message, "m3");
}

#[test]
fn take_lines_follow_and_hold() {
    let mut visible: VecDeque<CachedLogLine> = VecDeque::new();
    let mut pending: VecDeque<CachedLogLine> = VecDeque::new();
    assert!(!take_lines(&mut visible, &mut pending, vec![cached('I', "T", "a")], false));
    assert!(visible.is_empty());
    assert_eq!(pending.len(), 1);
    assert!(take_lines(&mut visible, &mut pending, vec![cached('I', "T", "b")], true));
    assert!(pending.is_empty());
    let messages: Vec<&str> = visible.iter().map(|l| l.message.as_str()).collect();
    assert_eq!(messages, ["a", "b"]);
    assert!(!take_lines(&mut visible, &mut pending, Vec::new(), true));
}

#[test]
fn take_error_lines_keeps_errors_and_marks_time() {
    let mut visible: VecDeque<CachedLogLine> = VecDeque::new();
    let mut pending: VecDeque<CachedLogLine> = VecDeque::new();
    let mut last_error_at = None;
    let changed = take_error_lines(
        &mut visible,
        &mut pending,
        vec![cached('I', "T", "info"), cached('E', "T", "err"), cached('F', "T", "fatal")],
        true,
        &mut last_error_at,
        42,
    );
    assert!(changed);
    assert_eq!(visible.len(), 2);
    assert_eq!(last_error_at, Some(42));
    let changed = take_error_lines(
        &mut visible,
        &mut pending,
        vec![cached('W', "T", "warn")],
        true,
        &mut last_error_at,
        50,
    );
    assert!(!changed);
    assert_eq!(last_error_at, Some(42));
    let changed = take_error_lines(
        &mut visible,
        &mut pending,
        vec![cached('E', "T", "held")],
        false,
        &mut last_error_at,
        60,
    );
    assert!(!changed);
    assert_eq!(pending.len(), 1);
    assert_eq!(visible.len(), 2);
    assert_eq!(last_error_at, Some(60));
}

// ---------------------------------------------------------------------------
// tag filters
// ---------------------------------------------------------------------------

#[test]
fn tag_color_index_is_stable_and_in_palette() {
    let a = tag_color_index("OkHttp");
    assert_eq!(a, tag_color_index("okhttp"));
    assert!(a < TAG_PALETTE_LEN);
}

#[test]
fn add_tag_filter_trims_and_skips_duplicates() {
    let mut filters = Vec::new();
    assert!(!add_tag_filter(&mut filters, "   "));
    assert!(filters.is_empty());
    assert!(add_tag_filter(&mut filters, " OkHttp "));
    assert_eq!(filters.len(), 1);
    assert_eq!(filters[0].tag, "OkHttp");
    assert_eq!(filters[0].color_index, tag_color_index("OkHttp"));
    assert!(add_tag_filter(&mut filters, "okhttp"));
    assert_eq!(filters.len(), 1);
    assert!(add_tag_filter(&mut filters, "System"));
    assert_eq!(filters.len(), 2);
    remove_tag_filter(&mut filters, 0);
    assert_eq!(filters.len(), 1);
    assert_eq!(filters[0].tag, "System");
    remove_tag_filter(&mut filters, 5);
    assert_eq!(filters.len(), 1);
}

// ---------------------------------------------------------------------------
// devices
// ---------------------------------------------------------------------------

#[test]
fn first_ready_serial_skips_offline() {
    let devices = vec![
        device("a", DeviceState::Offline),
        device("b", DeviceState::Device),
        device("c", DeviceState::Device),
    ];
    assert_eq!(first_ready_serial(&devices), Some("b".to_string()));
    assert_eq!(first_ready_serial(&devices[..1]), None);
    assert!(still_connected(&devices, "c"));
    assert!(!still_connected(&devices, "a"));
    assert!(!still_connected(&devices, "z"));
}

// ---------------------------------------------------------------------------
// per-app storage
// ---------------------------------------------------------------------------

#[test]
fn app_storage_updates_and_rows() {
    let mut state = AppStorageState::default();
    let names = |v: &[&str]| v.iter().map(|s| s.to_string()).collect::<Vec<_>>();
    assert!(apply_app_storage_update(&mut state, AppStorageUpdate::PackageList(names(&["b", "a", "c"]))));
    assert!(state.scanning);
    apply_app_storage_update(
        &mut state,
        AppStorageUpdate::PackageStorage(PackageStorage { package: "c".to_string(), total_bytes: 10 }),
    );
    apply_app_storage_update(
        &mut state,
        AppStorageUpdate::PackageStorage(PackageStorage { package: "b".to_string(), total_bytes: 99 }),
    );
    apply_app_storage_update(&mut state, AppStorageUpdate::ScanComplete);
    assert!(!state.scanning);
    let rows = state.sorted_rows();
    assert_eq!(
        rows,
        vec![("b".to_string(), Some(99)), ("c".to_string(), Some(10)), ("a".to_string(), None)]
    );
    apply_app_storage_update(&mut state, AppStorageUpdate::Error("boom".to_string()));
    assert_eq!(state.error.as_deref(), Some("boom"));
    apply_app_storage_update(&mut state, AppStorageUpdate::PackageList(names(&["c", "d"])));
    assert!(state.error.is_none());
    assert_eq!(
        state.sorted_rows(),
        vec![("c".to_string(), Some(10)), ("d".to_string(), None)]
    );
}

// ---------------------------------------------------------------------------
// insight state
// ---------------------------------------------------------------------------

#[test]
fn insight_first_request_waits_for_quiet_errors() {
    let mut state = InsightState::default();
    assert!(!state.should_send("k", false, 100 * SEC));
    state.last_error_at = Some(100 * SEC);
    assert!(!state.should_send("k", false, 103 * SEC));
    assert!(state.should_send("k", false, 105 * SEC));
}

#[test]
fn insight_later_requests_need_change_or_cooldown() {
    let mut state = InsightState::default();
    let g = state.start_request(100 * SEC, "k1".to_string());
    assert_eq!(g, 1);
    assert_eq!(state.status, InsightStatus::RequestSent);
    assert!(!state.should_send("k2", true, 101 * SEC));
    assert!(!state.should_send("k2", false, 500 * SEC));
    let reply = InsightUpdate::Reply { generation: g, serial: "s".to_string(), text: "ok".to_string() };
    assert!(state.apply_update(reply, Some("s"), Some("s"), 100 * SEC));
    assert_eq!(state.status, InsightStatus::Idle);
    assert!(!state.should_send("k1", true, 200 * SEC));
    assert!(state.should_send("k2", true, 101 * SEC));
    assert!(!state.should_send("k2", false, 110 * SEC));
    assert!(state.should_send("k2", false, 130 * SEC));
}

#[test]
fn insight_apply_update_checks_generation_and_serial() {
    let mut state = InsightState::default();
    let g = state.start_request(0, "k".to_string());
    let stale = InsightUpdate::Reply { generation: g + 1, serial: "s".to_string(), text: "x".to_string() };
    assert!(!state.apply_update(stale, Some("s"), Some("s"), 1));
    let other = InsightUpdate::Reply { generation: g, serial: "t".to_string(), text: "x".to_string() };
    assert!(!state.apply_update(other, Some("s"), Some("s"), 1));
    let reply = InsightUpdate::Reply { generation: g, serial: "s".to_string(), text: "ok".to_string() };
    assert!(state.apply_update(reply, Some("s"), Some("s"), 1));
    assert_eq!(state.status, InsightStatus::Idle);
    assert!(state.ever_succeeded);
    assert_eq!(state.replies.back().map(|s| s.as_str()), Some("ok"));
}

#[test]
fn insight_error_before_success_forgets_digest() {
    let mut state = InsightState::default();
    let g = state.start_request(0, "k".to_string());
    let err = InsightUpdate::Error { generation: g, serial: "s".to_string(), message: "m".to_string() };
    assert!(state.apply_update(err, Some("s"), Some("s"), 9));
    assert_eq!(state.status, InsightStatus::RequestFailed);
    assert!(state.last_sent_key.is_none());
    assert_eq!(state.last_error_at, Some(9));
}

#[test]
fn insight_replies_are_capped() {
    let mut state = InsightState::default();
    for i in 0..(MAX_INSIGHTS + 2) {
        let g = state.start_request(0, format!("k{i}"));
        let reply = InsightUpdate::Reply { generation: g, serial: "s".to_string(), text: format!("r{i}") };
        assert!(state.apply_update(reply, Some("s"), Some("s"), 0));
    }
    assert_eq!(state.replies.len(), MAX_INSIGHTS);
    assert_eq!(state.replies.front().map(|s| s.as_str()), Some("r2"));
}

// ---------------------------------------------------------------------------
// panels
// ---------------------------------------------------------------------------

#[test]
fn panel_titles() {
    assert_eq!(PanelId::Devices.title(), "Devices");
    assert_eq!(PanelId::LogcatErrors.title(), "Logcat (Errors)");
    assert_eq!(PanelId::Protocols.title(), "App Traffic");
}

#[test]
fn truncate_package_name_cuts_long_names() {
    assert_eq!(truncate_package_name("com.example.short"), "com.example.short");
    let long = "com.example.a.really.long.package.name.that.keeps.going";
    let shown = truncate_package_name(long);
    assert_eq!(shown, format!("{}...", &long[..39]));
    assert_eq!(shown.len(), 42);
    let exact = "a".repeat(42);
    assert_eq!(truncate_package_name(&exact), exact);
}

#[test]
fn device_state_labels() {
    assert_eq!(device_state_label(&DeviceState::Device), "device");
    assert_eq!(device_state_label(&DeviceState::Unauthorized), "unauthorized");
    assert_eq!(device_state_label(&DeviceState::Other("recovery".to_string())), "recovery");
}

#[test]
fn order_by_tx_sorts_descending_stably() {
    assert_eq!(order_by_tx(&vec![5, 9, 5, 1]), vec![1, 0, 2, 3]);
    assert!(order_by_tx(&Vec::new()).is_empty());
}

fn tag(tag: &str, color_index: usize) -> LogcatTagFilter {
    LogcatTagFilter { tag: tag.to_string(), color_index }
}

fn range(start: usize, end: usize, color_index: usize) -> HighlightRange {
    HighlightRange { start, end, color_index }
}

#[test]
fn highlight_ranges_skip_overlaps() {
    let ranges = highlight_ranges("OkHttp request OkHttp done", &[tag("okhttp", 2), tag("HTTP R", 5)]);
    assert_eq!(ranges, vec![range(0, 6, 2), range(15, 21, 2)]);
}

#[test]
fn highlight_ranges_prefer_longer_at_same_start() {
    let ranges = highlight_ranges("okhttp", &[tag("ok", 1), tag("OkHttp", 3)]);
    assert_eq!(ranges, vec![range(0, 6, 3)]);
    let ties = highlight_ranges("ab ab", &[tag("ab", 1), tag("AB", 4)]);
    assert_eq!(ties, vec![range(0, 2, 1), range(3, 5, 1)]);
}

#[test]
fn highlight_ranges_ignore_empty_tags_and_misses() {
    assert!(highlight_ranges("anything", &[tag("", 0), tag("zzz", 1)]).is_empty());
    assert!(highlight_ranges("anything", &[]).is_empty());
}
