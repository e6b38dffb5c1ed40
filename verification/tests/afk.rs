use aw_kimai_bridge::afk::{clip_events, intervals_from_events};
use aw_kimai_bridge::aw_client::{AfkEvent, AfkEventData, AwEvent, AwEventData};
use chrono::{TimeZone, Utc};

fn base() -> i64 {
    Utc.with_ymd_and_hms(2025, 1, 1, 10, 0, 0).unwrap().timestamp_millis()
}

fn secs(n: i64) -> i64 {
    n * 1000
}

fn win(offset_secs: i64, duration_secs: f64) -> AwEvent {
    AwEvent {
        id: None,
        timestamp_ms: base() + secs(offset_secs),
        duration_ms: (duration_secs * 1000.0) as i64,
        data: AwEventData { title: "T".into(), app: "A".into(), url: None },
    }
}

fn afk(offset_secs: i64, duration_secs: f64, status: &str) -> AfkEvent {
    AfkEvent {
        timestamp_ms: base() + secs(offset_secs),
        duration_ms: (duration_secs * 1000.0) as i64,
        data: AfkEventData { status: status.into() },
    }
}

#[test]
fn no_afk_returns_input() {
    let events = vec![win(0, 300.0)];
    let out = clip_events(events.clone(), &[]);
    assert_eq!(out.len(), 1);
}

#[test]
fn drops_event_fully_covered_by_afk() {
    let events = vec![win(60, 60.0)]; // 60..120
    let afks = intervals_from_events(&[afk(0, 300.0, "afk")]);
    let out = clip_events(events, &afks);
    assert!(out.is_empty(), "fully-AFK event must be dropped");
}

#[test]
fn keeps_event_outside_afk() {
    let events = vec![win(400, 60.0)]; // after AFK ends
    let afks = intervals_from_events(&[afk(0, 300.0, "afk")]);
    let out = clip_events(events, &afks);
    assert_eq!(out.len(), 1);
    assert_eq!(out[0].duration_secs(), 60);
}

#[test]
fn clips_event_overlapping_afk_start() {
    // event: 100..200, AFK: 150..400
    let events = vec![win(100, 100.0)];
    let afks = intervals_from_events(&[afk(150, 250.0, "afk")]);
    let out = clip_events(events, &afks);
    assert_eq!(out.len(), 1);
    assert_eq!(out[0].timestamp_ms, base() + secs(100));
    assert_eq!(out[0].duration_secs(), 50);
}

#[test]
fn splits_event_with_afk_in_middle() {
    // event: 0..600, AFK: 200..400 -> two fragments 0..200, 400..600
    let events = vec![win(0, 600.0)];
    let afks = intervals_from_events(&[afk(200, 200.0, "afk")]);
    let out = clip_events(events, &afks);
    assert_eq!(out.len(), 2);
    assert_eq!(out[0].duration_secs(), 200);
    assert_eq!(out[1].duration_secs(), 200);
    assert_eq!(out[1].timestamp_ms, base() + secs(400));
}

#[test]
fn ignores_not_afk_events() {
    let afks = intervals_from_events(&[afk(0, 1000.0, "not-afk")]);
    let events = vec![win(100, 100.0)];
    let out = clip_events(events, &afks);
    assert_eq!(out.len(), 1, "not-afk events must not clip anything");
}

#[test]
fn merges_overlapping_intervals() {
    let merged = intervals_from_events(&[
        afk(0, 100.0, "afk"),
        afk(50, 100.0, "afk"), // overlaps previous
        afk(200, 50.0, "afk"),
    ]);
    assert_eq!(merged.len(), 2);
    assert_eq!(merged[0].1, base() + secs(150));
}

// ── further cases ────────────────────────────────────────────────────────────

#[test]
fn touching_intervals_are_merged_and_sorted() {
    let merged = intervals_from_events(&[
        afk(300, 100.0, "afk"),
        afk(0, 100.0, "afk"),
        afk(100, 50.0, "afk"), // starts where the first one ends
        afk(500, 0.0, "afk"),  // empty: dropped
    ]);
    assert_eq!(merged, vec![(base(), base() + secs(150)), (base() + secs(300), base() + secs(400))]);
}

#[test]
fn sub_second_fragments_are_dropped() {
    // event 0..10.5s, AFK 0.2s..10s: the pieces are 0.2s and 0.5s long
    let events = vec![AwEvent {
        id: Some(7),
        timestamp_ms: base(),
        duration_ms: 10_500,
        data: AwEventData { title: "T".into(), app: "A".into(), url: None },
    }];
    let afks = vec![(base() + 200, base() + 10_000)];
    assert!(clip_events(events, &afks).is_empty());
}

#[test]
fn fragments_keep_id_and_data() {
    let mut ev = win(0, 600.0);
    ev.id = Some(42);
    ev.data.url = Some("https://example.com".into());
    let afks = intervals_from_events(&[afk(100, 100.0, "afk"), afk(300, 100.0, "afk")]);
    let out = clip_events(vec![ev], &afks);
    assert_eq!(out.len(), 3);
    for o in &out {
        assert_eq!(o.id, Some(42));
        assert_eq!(o.data.url.as_deref(), Some("https://example.com"));
    }
    assert_eq!(out[0].timestamp_ms, base());
    assert_eq!(out[0].duration_ms, 100_000);
    assert_eq!(out[1].timestamp_ms, base() + secs(200));
    assert_eq!(out[1].duration_ms, 100_000);
    assert_eq!(out[2].timestamp_ms, base() + secs(400));
    assert_eq!(out[2].duration_ms, 200_000);
}

#[test]
fn clipped_events_avoid_afk_time() {
    let afks = intervals_from_events(&[afk(50, 30.0, "afk"), afk(120, 100.0, "afk")]);
    let events = vec![win(0, 100.0), win(90, 200.0)];
    let out = clip_events(events, &afks);
    for o in &out {
        for (s, e) in &afks {
            assert!(o.end() <= *s || *e <= o.timestamp_ms);
        }
    }
    assert_eq!(out.len(), 4);
}

#[test]
fn duration_secs_floors() {
    let mut ev = win(0, 1.0);
    ev.duration_ms = 1_999;
    assert_eq!(ev.duration_secs(), 1);
    ev.duration_ms = -1;
    assert_eq!(ev.duration_secs(), -1);
    ev.duration_ms = -1_000;
    assert_eq!(ev.duration_secs(), -1);
    ev.duration_ms = -1_001;
    assert_eq!(ev.duration_secs(), -2);
}

#[test]
fn pieces_are_cut_exactly_at_afk_edges() {
    // event 0..1000 s, away 100..200 and 500..600: pieces 0..100, 200..500, 600..1000
    let afks = intervals_from_events(&[afk(100, 100.0, "afk"), afk(500, 100.0, "afk")]);
    let out = clip_events(vec![win(0, 1000.0)], &afks);
    let spans: Vec<(i64, i64)> = out
        .iter()
        .map(|e| ((e.timestamp_ms - base()) / 1000, (e.timestamp_ms + e.duration_ms - base()) / 1000))
        .collect();
    assert_eq!(spans, vec![(0, 100), (200, 500), (600, 1000)]);
}
