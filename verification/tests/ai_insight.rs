use android_terminal::app_state::{InsightState, InsightStatus};
use android_terminal::client::{
    check_api_key, extract_assistant_text, finished_update, reply_from_content, reply_from_http, HttpReply,
    InsightError, InsightUpdate,
};
use android_terminal::config::InsightConfig;
use android_terminal::fingerprint::{collapse_noise, generate_device_label, generate_fingerprint, redact};
use android_terminal::reduce::{
    build_snapshot, clusters_json_len, rank_clusters, reduce, trim_to_json_budget, InsightCluster,
    InsightLine, LevelMask, MAX_CLUSTERS, NANOS_PER_SEC,
};

const NOW: u64 = 10_000 * NANOS_PER_SEC;

fn line(ago: u64, level: char, tag: &str, message: &str) -> InsightLine {
    InsightLine {
        received_at: NOW - ago * NANOS_PER_SEC,
        level,
        tag: tag.to_string(),
        message: message.to_string(),
    }
}

fn config(api_key: &str, base_url: &str) -> InsightConfig {
    InsightConfig {
        api_key: api_key.to_string(),
        base_url: base_url.to_string(),
        model: "deepseek-v4-pro".to_string(),
    }
}

// ---------------------------------------------------------------------------
// client
// ---------------------------------------------------------------------------

#[test]
fn extract_assistant_text_from_openai_shape() {
    let body = r#"{
            "choices": [{ "message": { "content": "FAILING  disk full" } }]
        }"#;
    assert_eq!(extract_assistant_text(body).unwrap(), "FAILING  disk full");
}

#[test]
fn extract_assistant_text_trims_content() {
    let body = r#"{"choices": [{"message": {"content": "  OK \n"}}]}"#;
    assert_eq!(extract_assistant_text(body).unwrap(), "OK");
}

#[test]
fn extract_assistant_text_blank_is_empty_reply() {
    let body = r#"{"choices": [{"message": {"content": "   "}}]}"#;
    assert_eq!(extract_assistant_text(body), Err(InsightError::EmptyReply));
}

#[test]
fn extract_assistant_text_missing_content_is_empty_reply() {
    assert_eq!(extract_assistant_text(r#"{"choices": []}"#), Err(InsightError::EmptyReply));
    let body = r#"{"choices": [{"message": {"content": 7}}]}"#;
    assert_eq!(extract_assistant_text(body), Err(InsightError::EmptyReply));
}

#[test]
fn extract_assistant_text_rejects_non_json() {
    assert!(matches!(extract_assistant_text("not json"), Err(InsightError::Transport(_))));
}

#[test]
fn reply_from_content_cases() {
    assert_eq!(reply_from_content(Some(" a b ".to_string())), Ok("a b".to_string()));
    assert_eq!(reply_from_content(Some(" \t".to_string())), Err(InsightError::EmptyReply));
    assert_eq!(reply_from_content(None), Err(InsightError::EmptyReply));
}

#[test]
fn insight_error_descriptions() {
    assert_eq!(InsightError::MissingApiKey.describe(), "DEEPSEEK_API_KEY is not set");
    let http = InsightError::Http { status: 401, body: "denied".to_string() };
    assert_eq!(http.describe(), "HTTP 401: denied");
    assert_eq!(InsightError::Transport("reset".to_string()).describe(), "reset");
    assert_eq!(InsightError::EmptyReply.describe(), "empty model reply");
}

#[test]
fn finished_update_reports_reply_or_error() {
    match finished_update(3, "s1".to_string(), Ok("fine".to_string())) {
        InsightUpdate::Reply { generation, serial, text } => {
            assert_eq!(generation, 3);
            assert_eq!(serial, "s1");
            assert_eq!(text, "fine");
        }
        other => panic!("unexpected {:?}", other),
    }
    match finished_update(4, "s2".to_string(), Err(InsightError::EmptyReply)) {
        InsightUpdate::Error { generation, serial, message } => {
            assert_eq!(generation, 4);
            assert_eq!(serial, "s2");
            assert_eq!(message, "empty model reply");
        }
        other => panic!("unexpected {:?}", other),
    }
}

// ---------------------------------------------------------------------------
// config
// ---------------------------------------------------------------------------

#[test]
fn completions_url_strips_trailing_slash() {
    let config = config("", "https://api.deepseek.com/");
    assert_eq!(config.completions_url(), "https://api.deepseek.com/chat/completions");
}

#[test]
fn completions_url_strips_every_trailing_slash() {
    let config = config("", " https://example.org/v1// ");
    assert_eq!(config.completions_url(), "https://example.org/v1/chat/completions");
}

#[test]
fn host_for_log_drops_scheme() {
    let config = config("", "https://api.deepseek.com/v1");
    assert_eq!(config.host_for_log(), "api.deepseek.com");
}

#[test]
fn host_for_log_plain_http() {
    let config = config("", "http://localhost:8080/x");
    assert_eq!(config.host_for_log(), "localhost:8080");
}

#[test]
fn has_api_key_rejects_blank() {
    let config = config("  ", "https://api.deepseek.com");
    assert!(!config.has_api_key());
}

#[test]
fn has_api_key_accepts_key_and_builds_header() {
    let config = config(" sk-1 ", "https://api.deepseek.com");
    assert!(config.has_api_key());
    assert_eq!(config.authorization(), "Bearer sk-1");
}

#[test]
fn from_values_uses_defaults() {
    let config = InsightConfig::from_values(None, None, None);
    assert_eq!(config.api_key, "");
    assert_eq!(config.base_url, "https://api.deepseek.com");
    assert_eq!(config.model, "deepseek-v4-pro");
    let config = InsightConfig::from_values(
        Some("k".to_string()),
        Some("http://h".to_string()),
        Some("m".to_string()),
    );
    assert_eq!(config.api_key, "k");
    assert_eq!(config.base_url, "http://h");
    assert_eq!(config.model, "m");
}

// ---------------------------------------------------------------------------
// fingerprint
// ---------------------------------------------------------------------------

#[test]
fn collapse_numbers_and_paths() {
    let left = generate_fingerprint("OkHttp", "failed 3 times at /data/app/foo");
    let right = generate_fingerprint("OkHttp", "failed 9 times at /data/app/bar");
    assert_eq!(left, right);
}

#[test]
fn different_tags_differ() {
    let left = generate_fingerprint("OkHttp", "boom");
    let right = generate_fingerprint("System", "boom");
    assert_ne!(left, right);
}

#[test]
fn fingerprint_is_sixteen_hex_digits() {
    let fp = generate_fingerprint("OkHttp", "boom");
    assert_eq!(fp.len(), 16);
    assert!(fp.chars().all(|c| c.is_ascii_hexdigit() && !c.is_ascii_uppercase()));
}

#[test]
fn fingerprint_known_value() {
    // SHA-256 of "A|x" begins with these digits.
    let fp = generate_fingerprint("A", "x");
    assert_eq!(fp, "c040570b83610285");
}

#[test]
fn collapse_noise_replaces_numbers_hex_and_paths() {
    assert_eq!(collapse_noise("failed 3 times at /data/app/foo"), "failed # times at #");
    assert_eq!(collapse_noise("addr 0x1F ok"), "addr # ok");
    assert_eq!(collapse_noise("no noise here"), "no noise here");
}

#[test]
fn redact_email_bearer_and_mac() {
    let text = redact("user a@b.com Bearer abc.def aa:bb:cc:dd:ee:ff");
    assert!(!text.contains("a@b.com"));
    assert!(!text.contains("abc.def"));
    assert!(!text.contains("aa:bb:cc:dd:ee:ff"));
    assert!(text.contains('#'));
}

#[test]
fn redact_keeps_status_codes_and_paths() {
    let text = redact("HTTP 500 from /data/user/0/com.app/cache");
    assert!(text.contains("500"));
    assert!(text.contains("/data/user/0/com.app/cache"));
}

#[test]
fn redact_leaves_clean_text_unchanged() {
    assert_eq!(redact("nothing secret"), "nothing secret");
}

#[test]
fn redact_exact_output() {
    assert_eq!(redact("user a@b.com Bearer abc.def aa:bb:cc:dd:ee:ff"), "user # # #");
}

#[test]
fn generate_device_label_hides_serial() {
    let label = generate_device_label("Pixel 8", "emulator-5554");
    assert!(label.starts_with("Pixel_8:"));
    assert!(!label.contains("emulator-5554"));
    assert_eq!(label, generate_device_label("Pixel 8", "emulator-5554"));
    assert_ne!(label, generate_device_label("Pixel 8", "emulator-5556"));
}

#[test]
fn device_label_has_eight_hex_digits() {
    let label = generate_device_label("a-b", "x");
    assert!(label.starts_with("a_b:"));
    assert_eq!(label.len(), "a_b:".len() + 8);
}

// ---------------------------------------------------------------------------
// reduce
// ---------------------------------------------------------------------------

#[test]
fn empty_buffer_snapshot() {
    let snap = build_snapshot(Vec::new(), LevelMask::Error, "Pixel 8", "serial-1", NOW);
    assert!(snap.clusters.is_empty());
    assert_eq!(snap.deltas.count_now, 0);
    assert_eq!(snap.deltas.count_prev, 0);
    assert_eq!(snap.levels, ["E", "F"]);
    assert!(snap.metrics.is_none());
    assert!(!snap.device_label.contains("serial-1"));
}

#[test]
fn clusters_same_fingerprint() {
    let lines = vec![
        line(10, 'E', "OkHttp", "failed host 1"),
        line(8, 'E', "OkHttp", "failed host 2"),
        line(6, 'E', "OkHttp", "failed host 3"),
        line(4, 'E', "System", "disk full"),
    ];
    let snap = build_snapshot(lines, LevelMask::Error, "Pixel 8", "serial-1", NOW);
    assert_eq!(snap.clusters.len(), 2);
    assert_eq!(snap.clusters[0].tag, "OkHttp");
    assert_eq!(snap.clusters[0].count, 3);
    assert_eq!(snap.clusters[1].tag, "System");
    assert_eq!(snap.clusters[1].count, 1);
    assert_eq!(snap.deltas.count_now, 4);
}

#[test]
fn ignores_info_and_old_lines() {
    let lines = vec![
        line(10, 'I', "OkHttp", "ok"),
        line(400, 'E', "OkHttp", "ancient"),
        line(200, 'E', "OkHttp", "previous window"),
        line(5, 'F', "AndroidRuntime", "FATAL EXCEPTION"),
    ];
    let snap = build_snapshot(lines, LevelMask::Error, "Pixel 8", "serial-1", NOW);
    assert_eq!(snap.deltas.count_now, 1);
    assert_eq!(snap.deltas.count_prev, 1);
    assert_eq!(snap.clusters.len(), 1);
    assert_eq!(snap.clusters[0].tag, "AndroidRuntime");
}

#[test]
fn samples_are_redacted() {
    let lines = vec![line(3, 'E', "App", "token Bearer secret.jwt")];
    let snap = build_snapshot(lines, LevelMask::Error, "Pixel 8", "serial-1", NOW);
    assert_eq!(snap.clusters.len(), 1);
    assert!(!snap.clusters[0].samples[0].contains("secret.jwt"));
}

#[test]
fn snapshot_keeps_model_and_window() {
    let snap = build_snapshot(Vec::new(), LevelMask::Error, "Pixel 8", "serial-1", NOW);
    assert_eq!(snap.device_model, "Pixel 8");
    assert_eq!(snap.time_window_sec, 180);
    assert!(snap.device_label.starts_with("Pixel_8:"));
}

#[test]
fn reduce_tracks_seconds_ago_and_samples() {
    let lines = vec![
        line(10, 'E', "OkHttp", "failed host 1"),
        line(8, 'E', "OkHttp", "failed host 2"),
        line(6, 'E', "OkHttp", "failed host 3"),
    ];
    let (clusters, now_count, prev_count) = reduce(&lines, LevelMask::Error, NOW);
    assert_eq!(now_count, 3);
    assert_eq!(prev_count, 0);
    assert_eq!(clusters.len(), 1);
    assert_eq!(clusters[0].count, 3);
    assert_eq!(clusters[0].first_secs_ago, 10);
    assert_eq!(clusters[0].last_secs_ago, 6);
    assert_eq!(clusters[0].samples, vec!["failed host 1".to_string(), "failed host 2".to_string()]);
    assert_eq!(clusters[0].level, 'E');
}

fn cluster(tag: &str, level: char, count: u32, last: u64) -> InsightCluster {
    InsightCluster {
        fingerprint: format!("fp-{tag}"),
        tag: tag.to_string(),
        level,
        count,
        first_secs_ago: last + 1,
        last_secs_ago: last,
        samples: Vec::new(),
    }
}

#[test]
fn rank_clusters_orders_by_count_then_tag() {
    let ranked = rank_clusters(vec![
        cluster("d", 'E', 2, 5),
        cluster("b", 'F', 1, 9),
        cluster("c", 'E', 5, 9),
        cluster("a", 'E', 2, 1),
    ]);
    let tags: Vec<&str> = ranked.iter().map(|c| c.tag.as_str()).collect();
    assert_eq!(tags, ["c", "a", "d", "b"]);
}

#[test]
fn snapshot_caps_cluster_count() {
    let mut lines = Vec::new();
    for i in 0..12 {
        lines.push(line(5, 'E', &format!("Tag{i}"), "boom"));
    }
    let snap = build_snapshot(lines, LevelMask::Error, "Pixel 8", "serial-1", NOW);
    assert_eq!(snap.clusters.len(), MAX_CLUSTERS);
    assert_eq!(snap.deltas.count_now, 12);
}

#[test]
fn trim_to_json_budget_drops_tail_clusters() {
    let big = "x".repeat(4000);
    let mut clusters = vec![
        InsightCluster { samples: vec![big.clone()], ..cluster("a", 'E', 1, 1) },
        InsightCluster { samples: vec![big.clone()], ..cluster("b", 'E', 1, 1) },
        InsightCluster { samples: vec![big], ..cluster("c", 'E', 1, 1) },
    ];
    trim_to_json_budget(&mut clusters);
    assert_eq!(clusters.len(), 1);
    assert_eq!(clusters[0].tag, "a");
    assert!(clusters_json_len(&clusters) <= 6144);
}

#[test]
fn clusters_json_len_matches_serde_layout() {
    let clusters = vec![cluster("a", 'E', 1, 1)];
    let expected = r#"{"clusters":[{"fingerprint":"fp-a","tag":"a","level":"E","count":1,"first":2,"last":1,"samples":[]}]}"#;
    assert_eq!(clusters_json_len(&clusters), expected.len());
}

#[test]
fn check_api_key_requires_a_key() {
    assert_eq!(check_api_key(&config(" ", "https://x")), Err(InsightError::MissingApiKey));
    assert_eq!(check_api_key(&config("k", "https://x")), Ok(()));
}

#[test]
fn reply_from_http_classifies_outcomes() {
    let body = r#"{"choices": [{"message": {"content": " HEALTHY "}}]}"#.to_string();
    assert_eq!(reply_from_http(HttpReply::Body(body)), Ok("HEALTHY".to_string()));
    assert_eq!(
        reply_from_http(HttpReply::Status { status: 429, body: "slow down".to_string() }),
        Err(InsightError::Http { status: 429, body: "slow down".to_string() })
    );
    assert_eq!(
        reply_from_http(HttpReply::Failed("timed out".to_string())),
        Err(InsightError::Transport("timed out".to_string()))
    );
}

#[test]
fn digest_key_joins_fingerprints() {
    let lines = vec![
        line(10, 'E', "OkHttp", "failed host 1"),
        line(8, 'E', "OkHttp", "failed host 2"),
        line(4, 'F', "System", "disk full"),
    ];
    let snap = build_snapshot(lines, LevelMask::Error, "Pixel 8", "serial-1", NOW);
    let expected = format!("{},{}", snap.clusters[0].fingerprint, snap.clusters[1].fingerprint);
    assert_eq!(snap.digest_key(), expected);
    let empty = build_snapshot(Vec::new(), LevelMask::Error, "Pixel 8", "serial-1", NOW);
    assert_eq!(empty.digest_key(), "");
}

#[test]
fn new_high_severity_is_a_fatal_cluster_missing_from_previous_digest() {
    let lines = vec![line(4, 'F', "System", "disk full"), line(3, 'E', "App", "oops")];
    let snap = build_snapshot(lines, LevelMask::Error, "Pixel 8", "serial-1", NOW);
    let key = snap.digest_key();
    assert!(!snap.has_new_high_severity(&key));
    assert!(snap.has_new_high_severity(""));
    let only_errors = build_snapshot(vec![line(3, 'E', "App", "oops")], LevelMask::Error, "Pixel 8", "s", NOW);
    assert!(!only_errors.has_new_high_severity(""));
}

#[test]
fn redacting_twice_is_redacting_once() {
    for text in [
        "user a@b.com Bearer abc.def aa:bb:cc:dd:ee:ff",
        "Bearer  x#y eyJa.b 00:11:22:33:44:55:66",
        "mail me at a.b@c-d.example.org now",
        "nothing secret",
    ] {
        let once = redact(text);
        assert_eq!(redact(&once), once);
    }
}

#[test]
fn request_due_needs_clusters_and_no_outstanding_request() {
    let mut state = InsightState::default();
    state.last_error_at = Some(NOW - 20 * NANOS_PER_SEC);
    let empty = build_snapshot(Vec::new(), LevelMask::Error, "Pixel 8", "serial-1", NOW);
    assert!(!state.request_due(&empty, NOW));
    let snap = build_snapshot(vec![line(3, 'F', "System", "disk full")], LevelMask::Error, "Pixel 8", "s", NOW);
    assert!(state.request_due(&snap, NOW));
    let g = state.start_request(NOW, snap.digest_key());
    assert_eq!(state.status, InsightStatus::RequestSent);
    let other = build_snapshot(vec![line(2, 'F', "Other", "crash")], LevelMask::Error, "Pixel 8", "s", NOW);
    assert!(!state.request_due(&other, NOW + 100 * NANOS_PER_SEC));
    let reply = InsightUpdate::Reply { generation: g, serial: "s".to_string(), text: "ok".to_string() };
    assert!(state.apply_update(reply, Some("s"), Some("s"), NOW));
    assert!(!state.request_due(&snap, NOW + 1_000 * NANOS_PER_SEC));
    assert!(state.request_due(&other, NOW + NANOS_PER_SEC));
}
