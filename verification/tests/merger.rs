use aw_kimai_bridge::aw_client::{AwEvent, AwEventData};
use aw_kimai_bridge::classifier::ClassifiedEvent;
use aw_kimai_bridge::merger::Merger;

fn make_classified(start_offset_secs: i64, duration_secs: f64, project_id: u32) -> ClassifiedEvent {
    make_classified_with(start_offset_secs, duration_secs, project_id, "test-title", "test-app", None)
}

fn make_classified_with(
    start_offset_secs: i64,
    duration_secs: f64,
    project_id: u32,
    title: &str,
    app: &str,
    url: Option<&str>,
) -> ClassifiedEvent {
    let base = chrono::Utc::now().timestamp_millis();
    ClassifiedEvent {
        event: AwEvent {
            id: None,
            timestamp_ms: base + start_offset_secs * 1000,
            duration_ms: (duration_secs * 1000.0) as i64,
            data: AwEventData {
                title: title.to_string(),
                app: app.to_string(),
                url: url.map(|s| s.to_string()),
            },
        },
        project_id,
        activity_id: 1,
        label: "test".to_string(),
    }
}

#[test]
fn merges_adjacent_same_project() {
    let merger = Merger::new(120, 60);
    let events = vec![make_classified(0, 120.0, 10), make_classified(150, 120.0, 10)];
    let blocks = merger.merge(events);
    assert_eq!(blocks.len(), 1);
    assert_eq!(blocks[0].event_count, 2);
    assert_eq!(blocks[0].project_id, 10);
}

#[test]
fn splits_across_project_boundary() {
    let merger = Merger::new(120, 60);
    let events = vec![make_classified(0, 120.0, 10), make_classified(130, 120.0, 20)];
    let blocks = merger.merge(events);
    assert_eq!(blocks.len(), 2);
    assert_eq!(blocks[0].project_id, 10);
    assert_eq!(blocks[1].project_id, 20);
}

#[test]
fn drops_short_blocks() {
    let merger = Merger::new(120, 60);
    let events = vec![make_classified(0, 30.0, 10)];
    let blocks = merger.merge(events);
    assert!(blocks.is_empty());
}

#[test]
fn splits_on_large_gap() {
    let merger = Merger::new(120, 60);
    let events = vec![make_classified(0, 120.0, 10), make_classified(420, 120.0, 10)];
    let blocks = merger.merge(events);
    assert_eq!(blocks.len(), 2);
}

#[test]
fn description_includes_app_and_url() {
    let merger = Merger::new(120, 60);
    let events = vec![make_classified_with(0, 120.0, 10, "PR #1", "Firefox", Some("https://example.com/1"))];
    let blocks = merger.merge(events);
    assert_eq!(blocks.len(), 1);
    assert!(blocks[0].description.contains("PR #1"));
    assert!(blocks[0].description.contains("Firefox"));
    assert!(blocks[0].description.contains("example.com/1"));
}

#[test]
fn description_merges_distinct_titles() {
    let merger = Merger::new(120, 60);
    let events = vec![
        make_classified_with(0, 60.0, 10, "Title A", "Editor", None),
        make_classified_with(70, 60.0, 10, "Title B", "Editor", None),
        make_classified_with(140, 60.0, 10, "Title A", "Editor", None),
    ];
    let blocks = merger.merge(events);
    assert_eq!(blocks.len(), 1);
    // Both unique titles appear
    assert!(blocks[0].description.contains("Title A"));
    assert!(blocks[0].description.contains("Title B"));
}

#[test]
fn description_collapses_overflow() {
    let merger = Merger::new(600, 1);
    // 7 distinct titles, separator at index `i*30`
    let events: Vec<_> = (0..7)
        .map(|i| make_classified_with(i * 30, 25.0, 10, &format!("Title {i}"), "App", None))
        .collect();
    let blocks = merger.merge(events);
    assert_eq!(blocks.len(), 1);
    assert!(blocks[0].description.contains("(+2 more)"), "got: {}", blocks[0].description);
}

// ── further cases ────────────────────────────────────────────────────────────

#[test]
fn description_exact_text() {
    let merger = Merger::new(120, 1);
    let events = vec![
        make_classified_with(0, 30.0, 10, "Title A", "Editor", None),
        make_classified_with(40, 90.0, 10, "  Title B  ", "Editor", Some("https://b")),
        make_classified_with(140, 30.0, 10, "Title A", "Editor", None),
        make_classified_with(180, 10.0, 10, "", "Term", Some("")),
    ];
    let blocks = merger.merge(events);
    assert_eq!(blocks.len(), 1);
    assert_eq!(
        blocks[0].description,
        "Title B [Editor] <https://b> | Title A [Editor] | Term"
    );
    assert_eq!(blocks[0].event_count, 4);
}

#[test]
fn ties_are_listed_in_key_order_and_overflow_counted() {
    let merger = Merger::new(600, 1);
    let events: Vec<_> = (0..7)
        .map(|i| make_classified_with((6 - i) * 30, 25.0, 10, &format!("Title {i}"), "App", None))
        .collect();
    let blocks = merger.merge(events);
    assert_eq!(
        blocks[0].description,
        "Title 0 [App] | Title 1 [App] | Title 2 [App] | Title 3 [App] | Title 4 [App] | (+2 more)"
    );
}

#[test]
fn unsorted_input_is_sorted_and_short_gap_joins() {
    let merger = Merger::new(120, 60);
    // the second event starts 119 s after the first one ends
    let events = vec![make_classified(239, 61.0, 10), make_classified(0, 120.0, 10)];
    let blocks = merger.merge(events);
    assert_eq!(blocks.len(), 1);
    assert_eq!(blocks[0].end - blocks[0].start, 300_000);
    assert_eq!(blocks[0].duration_secs(), 300);
}

#[test]
fn gap_of_the_threshold_splits() {
    let merger = Merger::new(120, 60);
    // the second event starts exactly 120 s after the first one ends
    let events = vec![make_classified(0, 120.0, 10), make_classified(240, 60.0, 10)];
    let blocks = merger.merge(events);
    assert_eq!(blocks.len(), 2);
    // 119.5 s is shorter than the threshold
    let events = vec![make_classified(0, 120.0, 10), make_classified(240, 60.0, 10)];
    let mut events = events;
    events[1].event.timestamp_ms -= 500;
    let blocks = merger.merge(events);
    assert_eq!(blocks.len(), 1);
}

#[test]
fn blocks_are_chronological_and_long_enough() {
    let merger = Merger::new(30, 60);
    let events = vec![
        make_classified(1000, 100.0, 1),
        make_classified(0, 100.0, 2),
        make_classified(500, 20.0, 3),
    ];
    let blocks = merger.merge(events);
    assert_eq!(blocks.len(), 2);
    assert!(blocks[0].start <= blocks[1].start);
    assert!(blocks.iter().all(|b| b.duration_secs() >= 60));
    assert_eq!((blocks[0].project_id, blocks[1].project_id), (2, 1));
}

#[test]
fn empty_input_gives_no_blocks() {
    assert!(Merger::new(120, 60).merge(vec![]).is_empty());
}

#[test]
fn input_order_does_not_matter() {
    let merger = Merger::new(60, 30);
    let make = || {
        vec![
            make_classified_with(0, 50.0, 1, "a", "x", None),
            make_classified_with(55, 50.0, 1, "b", "x", None),
            make_classified_with(200, 40.0, 2, "c", "y", None),
            make_classified_with(245, 10.0, 2, "d", "y", None),
        ]
    };
    let forward = make();
    let mut backward = forward.clone();
    backward.reverse();
    let a = merger.merge(forward);
    let b = merger.merge(backward);
    assert_eq!(a.len(), b.len());
    for (x, y) in a.iter().zip(b.iter()) {
        assert_eq!((x.start, x.end, x.project_id, x.event_count), (y.start, y.end, y.project_id, y.event_count));
        assert_eq!(x.description, y.description);
    }
}

#[test]
fn try_merge_agrees_with_merge() {
    let merger = Merger::new(120, 60);
    let events = vec![make_classified(0, 120.0, 10), make_classified(150, 120.0, 10)];
    let blocks = merger.try_merge(events).unwrap();
    assert_eq!(blocks.len(), 1);
    assert_eq!(blocks[0].event_count, 2);
}
