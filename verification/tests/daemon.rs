use aw_kimai_bridge::afk::{events_in_range, intervals_from_events};
use aw_kimai_bridge::aw_client::{
    aw_base_url, buckets_url, events_url, info_url, span_secs, AfkEvent, AfkEventData, AwEvent,
    AwEventData,
};
use aw_kimai_bridge::classifier::Classifier;
use aw_kimai_bridge::config::{
    default_aw_url, default_idle_threshold, default_interval, default_min_duration,
    default_state_path, ActivityWatchConfig, Config, ConfigError, KimaiConfig, Rule,
};
use aw_kimai_bridge::kimai_client::{
    ping_outcome, recent_entries_query, timesheet_request, timesheets_url, truncate, version_url,
    PingError,
};
use aw_kimai_bridge::merger::{Merger, TimeBlock};
use aw_kimai_bridge::service::{
    install, installed_path, launch_agent_label, plist_xml, service_name, startup_script,
    uninstall, unit_file, ServiceError,
};
use aw_kimai_bridge::state::{State, StateManager};
use aw_kimai_bridge::sync::{afk_lookback, plan_blocks, plan_cycle, sync_outcome};
use chrono::{TimeZone, Utc};

fn config(rules: Vec<Rule>) -> Config {
    Config {
        kimai: KimaiConfig {
            url: "https://kimai.example.com".into(),
            token: "secret-token".into(),
            default_project_id: 99,
            default_activity_id: 1,
            user_id: Some(3),
        },
        activitywatch: ActivityWatchConfig {
            url: "http://localhost:5600".into(),
            bucket: "aw-watcher-window_host".into(),
            afk_bucket: Some("aw-watcher-afk_host".into()),
        },
        sync_interval_secs: default_interval(),
        idle_threshold_secs: default_idle_threshold(),
        min_duration_secs: default_min_duration(),
        state_path: default_state_path(),
        rules,
    }
}

fn rule(pattern: &str, project_id: u32) -> Rule {
    Rule { pattern: pattern.into(), project_id, activity_id: 2, label: None }
}

fn t0() -> i64 {
    Utc.with_ymd_and_hms(2025, 3, 4, 9, 30, 0).unwrap().timestamp_millis()
}

fn win(offset_secs: i64, secs: i64, title: &str) -> AwEvent {
    AwEvent {
        id: None,
        timestamp_ms: t0() + offset_secs * 1000,
        duration_ms: secs * 1000,
        data: AwEventData { title: title.into(), app: "Code".into(), url: None },
    }
}

fn block(start: i64, end: i64) -> TimeBlock {
    TimeBlock {
        start,
        end,
        project_id: 4,
        activity_id: 5,
        description: "work".into(),
        event_count: 1,
    }
}

// ── configuration ───────────────────────────────────────────────────────────

#[test]
fn defaults() {
    assert_eq!(default_interval(), 300);
    assert_eq!(default_idle_threshold(), 120);
    assert_eq!(default_min_duration(), 60);
    assert_eq!(default_state_path(), "state.json");
    assert_eq!(default_aw_url(), "http://localhost:5600");
}

#[test]
fn validate_accepts_a_complete_config() {
    assert!(config(vec![rule("github\\.com", 1)]).validate().is_ok());
}

#[test]
fn validate_reports_each_problem_in_order() {
    let mut c = config(vec![rule("(", 1)]);
    c.kimai.url = String::new();
    c.kimai.token = String::new();
    assert!(matches!(c.validate(), Err(ConfigError::EmptyKimaiUrl)));
    c.kimai.url = "https://k".into();
    assert!(matches!(c.validate(), Err(ConfigError::EmptyKimaiToken)));
    c.kimai.token = "t".into();
    c.activitywatch.bucket = String::new();
    assert!(matches!(c.validate(), Err(ConfigError::EmptyBucket)));
    c.activitywatch.bucket = "b".into();
    c.rules = vec![rule("ok", 1), rule("[bad", 2), rule("(", 3)];
    match c.validate() {
        Err(ConfigError::InvalidPattern(p)) => assert_eq!(p, "[bad"),
        _ => panic!("expected the first invalid pattern"),
    }
}

#[test]
fn env_token_beats_the_file() {
    let c = config(vec![]).with_env_token(Some("from-env".into()));
    assert_eq!(c.kimai.token, "from-env");
    assert_eq!(c.kimai.url, "https://kimai.example.com");
    assert_eq!(c.activitywatch.bucket, "aw-watcher-window_host");
    let c = config(vec![]).with_env_token(Some(String::new()));
    assert_eq!(c.kimai.token, "secret-token");
    let mut blank = config(vec![]);
    blank.kimai.token = String::new();
    assert!(matches!(blank.with_env_token(None).validate(), Err(ConfigError::EmptyKimaiToken)));
}

// ── ActivityWatch ───────────────────────────────────────────────────────────

#[test]
fn activitywatch_urls() {
    let base = aw_base_url("http://localhost:5600//");
    assert_eq!(base, "http://localhost:5600");
    assert_eq!(events_url(&base, "b1"), "http://localhost:5600/api/0/buckets/b1/events");
    assert_eq!(buckets_url(&base), "http://localhost:5600/api/0/buckets/");
    assert_eq!(info_url(&base), "http://localhost:5600/api/0/info");
}

#[test]
fn event_times() {
    let e = AwEvent {
        id: Some(1),
        timestamp_ms: 10_000,
        duration_ms: 2_500,
        data: AwEventData { title: "t".into(), app: "a".into(), url: None },
    };
    assert_eq!(e.end(), 12_500);
    assert_eq!(e.duration_secs(), 2);
    let neg = AwEvent { duration_ms: -1_500, ..e.clone() };
    assert_eq!(neg.duration_secs(), -2);
    assert!(e.in_range());
    let far = AwEvent { timestamp_ms: i64::MAX - 10, ..e.clone() };
    assert!(!far.in_range());
    assert!(!events_in_range(&[e, far]));
    assert_eq!(span_secs(-1_500), -1);
    assert_eq!(span_secs(1_999), 1);
}

#[test]
fn afk_status() {
    let a = AfkEvent { timestamp_ms: 0, duration_ms: 1, data: AfkEventData { status: "afk".into() } };
    let b = AfkEvent { timestamp_ms: 0, duration_ms: 1, data: AfkEventData { status: "not-afk".into() } };
    assert!(a.is_afk());
    assert!(!b.is_afk());
    assert_eq!(a.end(), 1);
}

// ── Kimai ───────────────────────────────────────────────────────────────────

#[test]
fn timesheet_payload() {
    let start = Utc.with_ymd_and_hms(2025, 3, 4, 9, 30, 0).unwrap().timestamp_millis();
    let b = TimeBlock {
        start,
        end: start + 5_400_000,
        project_id: 4,
        activity_id: 5,
        description: "x".repeat(300),
        event_count: 3,
    };
    let req = timesheet_request(&b, Some(7)).unwrap();
    assert_eq!(req.begin, "2025-03-04T09:30:00+00:00");
    assert_eq!(req.end, "2025-03-04T11:00:00+00:00");
    assert_eq!((req.project, req.activity, req.user), (4, 5, Some(7)));
    assert_eq!(req.description.chars().count(), 255);
    assert!(req.description.ends_with('…'));
    let short = TimeBlock { description: "short".into(), ..b };
    let req = timesheet_request(&short, None).unwrap();
    assert_eq!(req.description, "short");
    assert_eq!(req.user, None);
}

#[test]
fn timesheet_payload_needs_representable_times() {
    let b = block(i64::MAX, i64::MAX);
    assert!(timesheet_request(&b, None).is_none());
    // exactly inside chrono's range the payload exists
    let lo: i64 = -8_334_601_228_800_000;
    let hi: i64 = 8_210_266_876_799_999;
    assert_eq!(chrono::DateTime::<Utc>::MIN_UTC.timestamp_millis(), lo);
    assert_eq!(chrono::DateTime::<Utc>::MAX_UTC.timestamp_millis(), hi);
    assert!(timesheet_request(&block(lo, hi), None).is_some());
    assert!(timesheet_request(&block(lo - 1, hi), None).is_none());
    assert!(timesheet_request(&block(lo, hi + 1), None).is_none());
    assert!(timesheet_request(&block(0, 1), None).is_some());
}

#[test]
fn listing_query() {
    let q = recent_entries_query(None, 50).unwrap();
    assert_eq!(q, vec![("size".to_string(), "50".to_string())]);
    let start = Utc.with_ymd_and_hms(2025, 3, 4, 9, 30, 0).unwrap().timestamp_millis();
    let q = recent_entries_query(Some(start), 7).unwrap();
    assert_eq!(
        q,
        vec![
            ("size".to_string(), "7".to_string()),
            ("begin".to_string(), "2025-03-04T09:30:00+00:00".to_string())
        ]
    );
    assert!(recent_entries_query(Some(i64::MIN), 7).is_none());
}

#[test]
fn description_truncation() {
    assert_eq!(truncate("abc", 255), "abc");
    assert_eq!(truncate("abcdef", 4), "abc…");
}

#[test]
fn kimai_urls() {
    assert_eq!(timesheets_url("https://k"), "https://k/api/timesheets");
    assert_eq!(version_url("https://k"), "https://k/api/version");
}

#[test]
fn ping_statuses() {
    assert!(ping_outcome(200).is_ok());
    assert!(ping_outcome(204).is_ok());
    assert!(matches!(ping_outcome(401), Err(PingError::InvalidToken)));
    assert!(matches!(ping_outcome(500), Err(PingError::Status(500))));
    assert!(matches!(ping_outcome(302), Err(PingError::Status(302))));
}

// ── state ───────────────────────────────────────────────────────────────────

#[test]
fn state_records_syncs() {
    let s = State::fresh(42);
    assert_eq!((s.last_synced_at, s.total_entries_pushed, s.daemon_started_at), (None, 0, Some(42)));
    let mut m = StateManager::new("state.json".into(), s);
    m.record_sync(1_000, 3);
    m.record_sync(2_000, 2);
    assert_eq!(m.state.last_synced_at, Some(2_000));
    assert_eq!(m.state.total_entries_pushed, 5);
    assert_eq!(m.state.daemon_started_at, Some(42));
    assert_eq!(m.path(), "state.json");
}

// ── a sync cycle ────────────────────────────────────────────────────────────

#[test]
fn afk_lookback_is_a_day() {
    assert_eq!(afk_lookback(Some(100_000_000)), Some(100_000_000 - 86_400_000));
    assert_eq!(afk_lookback(None), None);
}

#[test]
fn plan_clips_classifies_and_merges() {
    let cfg = config(vec![rule("youtube", 0), rule("kimai", 10)]);
    let classifier = Classifier::from_config(&cfg);
    let merger = Merger::new(cfg.idle_threshold_secs, cfg.min_duration_secs);
    let raw = vec![
        win(0, 600, "kimai bridge"),
        win(600, 300, "YouTube"),
        win(900, 300, "notes"),
    ];
    // away from 30 s to 400 s
    let afk = intervals_from_events(&[AfkEvent {
        timestamp_ms: t0() + 30_000,
        duration_ms: 370_000,
        data: AfkEventData { status: "afk".into() },
    }]);
    let blocks = plan_blocks(raw.clone(), Some(&afk), &classifier, &merger);
    // kimai 0..30 is too short once clipped; kimai 400..600 stays; YouTube is
    // dropped; notes go to the default project
    assert_eq!(blocks.len(), 2);
    assert_eq!((blocks[0].start, blocks[0].end, blocks[0].project_id), (t0() + 400_000, t0() + 600_000, 10));
    assert_eq!((blocks[1].start, blocks[1].project_id, blocks[1].activity_id), (t0() + 900_000, 99, 1));
    let planned = plan_cycle(raw.clone(), Some(&afk), &classifier, &merger).unwrap();
    assert_eq!(planned.len(), 2);
    // without an AFK bucket nothing is clipped: kimai 0..600 is one block
    let blocks = plan_blocks(raw, None, &classifier, &merger);
    assert_eq!((blocks[0].start, blocks[0].end), (t0(), t0() + 600_000));
}

#[test]
fn cursor_stops_at_first_failed_block() {
    let blocks = vec![block(10, 20), block(30, 40), block(50, 60)];
    assert_eq!(sync_outcome(&blocks, &[true, true, true], 99), (99, 3));
    assert_eq!(sync_outcome(&blocks, &[true, false, false], 99), (30, 1));
    assert_eq!(sync_outcome(&blocks, &[false, true, false], 99), (10, 1));
    assert_eq!(sync_outcome(&[], &[], 99), (99, 0));
}

// ── service ─────────────────────────────────────────────────────────────────

#[test]
fn service_texts() {
    assert_eq!(service_name(), "aw-kimai-bridge");
    let unit = unit_file("/usr/bin/bridge", "/home/u/config.toml");
    assert!(unit.contains("ExecStart=/usr/bin/bridge run /home/u/config.toml\n"));
    assert!(unit.starts_with("[Unit]\nDescription=ActivityWatch → Kimai sync bridge\n"));
    assert!(unit.ends_with("WantedBy=default.target\n"));
    assert_eq!(launch_agent_label("ann"), "com.aw-kimai-bridge.ann");
    let plist = plist_xml("com.aw-kimai-bridge.ann", "/bin/b", "/c.toml", "/logs");
    assert!(plist.contains("<string>com.aw-kimai-bridge.ann</string>"));
    assert!(plist.contains("<string>/bin/b</string>\n        <string>run</string>\n        <string>/c.toml</string>"));
    assert!(plist.contains("<string>/logs/aw-kimai-bridge.log</string>"));
    assert_eq!(
        startup_script("C:\\b.exe", "C:\\c.toml"),
        "@echo off\r\nset RUST_LOG=info\r\nstart \"\" /B \"C:\\b.exe\" run \"C:\\c.toml\"\r\n"
    );
}

#[test]
fn unsupported_platform_has_no_service() {
    assert!(installed_path().is_none());
    assert!(matches!(install("/bin/b", "/c.toml"), Err(ServiceError::Unsupported)));
    assert!(matches!(uninstall(), Err(ServiceError::NothingToUninstall)));
}
