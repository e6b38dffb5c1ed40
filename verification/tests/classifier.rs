use aw_kimai_bridge::aw_client::{AwEvent, AwEventData};
use aw_kimai_bridge::classifier::Classifier;
use aw_kimai_bridge::config::{ActivityWatchConfig, Config, KimaiConfig, Rule};

fn make_event(title: &str, app: &str, url: Option<&str>) -> AwEvent {
    AwEvent {
        id: None,
        timestamp_ms: chrono::Utc::now().timestamp_millis(),
        duration_ms: 120_000,
        data: AwEventData {
            title: title.to_string(),
            app: app.to_string(),
            url: url.map(|s| s.to_string()),
        },
    }
}

fn config_with(rules: Vec<Rule>) -> Config {
    Config {
        kimai: KimaiConfig {
            url: "https://kimai.example.com".into(),
            token: "token".into(),
            default_project_id: 99,
            default_activity_id: 1,
            user_id: None,
        },
        activitywatch: ActivityWatchConfig {
            url: "http://localhost:5600".into(),
            bucket: "aw-watcher-window_host".into(),
            afk_bucket: None,
        },
        sync_interval_secs: 300,
        idle_threshold_secs: 120,
        min_duration_secs: 60,
        state_path: "state.json".into(),
        rules,
    }
}

fn make_classifier(rules: Vec<(&str, u32, u32)>) -> Classifier {
    let rules = rules
        .into_iter()
        .map(|(pat, proj, act)| Rule {
            pattern: pat.to_string(),
            project_id: proj,
            activity_id: act,
            label: None,
        })
        .collect();
    Classifier::from_config(&config_with(rules))
}

#[test]
fn title_match_classifies_event() {
    let c = make_classifier(vec![("github\\.com/myorg", 10, 2)]);
    let ev = make_event("github.com/myorg/project-alpha - GitHub", "Firefox", None);
    let result = c.classify(&ev).unwrap();
    assert_eq!(result.project_id, 10);
    assert_eq!(result.activity_id, 2);
}

#[test]
fn matches_url() {
    let c = make_classifier(vec![("github\\.com/myorg/alpha", 10, 2)]);
    let ev = make_event("some title", "Chrome", Some("https://github.com/myorg/alpha/pull/12"));
    let result = c.classify(&ev).unwrap();
    assert_eq!(result.project_id, 10);
}

#[test]
fn ignore_rule_returns_none() {
    let c = make_classifier(vec![("YouTube", 0, 0)]);
    let ev = make_event("YouTube - Firefox", "Firefox", None);
    assert!(c.classify(&ev).is_none());
}

#[test]
fn falls_through_to_default() {
    let c = make_classifier(vec![("github\\.com", 10, 2)]);
    let ev = make_event("Random window title", "SomeApp", None);
    let result = c.classify(&ev).unwrap();
    assert_eq!(result.project_id, 99); // default
}

#[test]
fn first_rule_wins() {
    let c = make_classifier(vec![
        ("project-alpha", 10, 2),
        ("project", 20, 3), // broader — should not match
    ]);
    let ev = make_event("project-alpha - VS Code", "code", None);
    let result = c.classify(&ev).unwrap();
    assert_eq!(result.project_id, 10);
}

// ── further cases ────────────────────────────────────────────────────────────

#[test]
fn matching_ignores_case_and_keeps_label() {
    let mut rules = vec![Rule {
        pattern: "GITHUB".into(),
        project_id: 10,
        activity_id: 2,
        label: Some("GitHub work".into()),
    }];
    rules.push(Rule { pattern: "slack".into(), project_id: 12, activity_id: 5, label: None });
    let c = Classifier::from_config(&config_with(rules));
    let a = c.classify(&make_event("github.com", "Firefox", None)).unwrap();
    assert_eq!((a.project_id, a.activity_id, a.label.as_str()), (10, 2, "GitHub work"));
    let b = c.classify(&make_event("x", "Slack", None)).unwrap();
    assert_eq!((b.project_id, b.activity_id, b.label.as_str()), (12, 5, "slack"));
    let d = c.classify(&make_event("x", "y", None)).unwrap();
    assert_eq!((d.project_id, d.activity_id, d.label.as_str()), (99, 1, "default"));
    assert_eq!(d.event.data.title, "x");
}

#[test]
fn fields_are_joined_by_newlines() {
    // the haystack is "title\napp\nurl"
    let c = make_classifier(vec![("^Editor\\nCode\\nhttps://x$", 7, 1)]);
    let hit = c.classify(&make_event("Editor", "Code", Some("https://x"))).unwrap();
    assert_eq!(hit.project_id, 7);
    let miss = c.classify(&make_event("Editor", "Code", None)).unwrap();
    assert_eq!(miss.project_id, 99);
}

#[test]
fn classify_all_drops_ignored_events() {
    let c = make_classifier(vec![("YouTube", 0, 0), ("Docs", 5, 6)]);
    let evs = vec![
        make_event("Docs", "Firefox", None),
        make_event("YouTube", "Firefox", None),
        make_event("Other", "Term", None),
    ];
    let out = c.classify_all(&evs);
    assert_eq!(out.len(), 2);
    assert_eq!(out[0].project_id, 5);
    assert_eq!(out[1].project_id, 99);
    assert_eq!(out[1].event.data.title, "Other");
}

#[test]
fn invalid_pattern_gives_no_classifier() {
    let rules = vec![Rule { pattern: "(".into(), project_id: 1, activity_id: 1, label: None }];
    assert!(Classifier::try_from_config(&config_with(rules)).is_none());
}
