use aw_kimai_bridge::admin::api::{collection_url, item_url, listing_url, Entity};
use aw_kimai_bridge::admin::confirms;
use aw_kimai_bridge::admin::bootstrap::{
    answers_yes, blank_blueprint, default_country, default_currency, default_timezone, find_by_name,
};
use aw_kimai_bridge::admin::config::{AdminConfigError, Config, KimaiConfig};
use aw_kimai_bridge::admin::output::{col_width, count_line, header_line, truncate};
use aw_kimai_bridge::admin::setup::{
    bucket_plan, check_kimai_url, classify_buckets, BucketPlan, default_for_host, mask, pick_multi_optional,
    pick_single_optional, render_config, resolve_choice, sort_strings, token_decision,
    TokenDecision, UrlProblem,
};

fn strings(v: &[&str]) -> Vec<String> {
    v.iter().map(|s| s.to_string()).collect()
}

fn admin_config(token: &str) -> Config {
    Config { kimai: KimaiConfig { url: "https://k".into(), token: token.into() } }
}

// ── configuration ───────────────────────────────────────────────────────────

#[test]
fn env_token_takes_precedence() {
    let c = admin_config("file-token").with_env_token(Some("env-token".into())).ok().unwrap();
    assert_eq!(c.kimai.token, "env-token");
    assert_eq!(c.kimai.url, "https://k");
    let c = admin_config("file-token").with_env_token(Some(String::new())).ok().unwrap();
    assert_eq!(c.kimai.token, "file-token");
    let c = admin_config("file-token").with_env_token(None).ok().unwrap();
    assert_eq!(c.kimai.token, "file-token");
    assert!(matches!(admin_config("").with_env_token(None), Err(AdminConfigError::EmptyToken)));
    assert!(matches!(
        admin_config("").with_env_token(Some(String::new())),
        Err(AdminConfigError::EmptyToken)
    ));
}

// ── listings ────────────────────────────────────────────────────────────────

#[test]
fn column_widths() {
    assert_eq!(col_width("ID"), 6);
    assert_eq!(col_width("Name"), 30);
    assert_eq!(col_width("Start"), 12);
    assert_eq!(col_width("End"), 12);
    assert_eq!(col_width("Timezone"), 25);
    assert_eq!(col_width("Email"), 28);
    assert_eq!(col_width("Other"), 15);
}

#[test]
fn header_and_count() {
    assert_eq!(header_line(&["ID", "Project"]), "ID     Project   ");
    assert_eq!(header_line(&[]), "");
    assert_eq!(count_line(1, "project"), "1 project");
    assert_eq!(count_line(0, "customer"), "0 customers");
    assert_eq!(count_line(12, "activity"), "12 activitys");
}

#[test]
fn names_are_cut_for_cells() {
    assert_eq!(truncate("short", 29), "short");
    assert_eq!(truncate("abcdefghij", 5), "abcd…");
}

// ── setup wizard ────────────────────────────────────────────────────────────

#[test]
fn kimai_url_checks() {
    assert_eq!(check_kimai_url("https://kimai.example.com/").ok().unwrap(), "https://kimai.example.com");
    assert_eq!(check_kimai_url("http://k").ok().unwrap(), "http://k");
    assert!(matches!(check_kimai_url(""), Err(UrlProblem::Empty)));
    assert!(matches!(check_kimai_url("//"), Err(UrlProblem::Empty)));
    assert!(matches!(check_kimai_url("kimai.example.com"), Err(UrlProblem::Scheme)));
}

#[test]
fn token_checks() {
    assert!(matches!(token_decision("", true), TokenDecision::UseEnv));
    assert!(matches!(token_decision("", false), TokenDecision::MissingEnv));
    assert!(matches!(token_decision("short", false), TokenDecision::TooShort));
    assert!(matches!(token_decision("0123456789", false), TokenDecision::Accept));
}

#[test]
fn tokens_are_masked() {
    assert_eq!(mask("abcdefghijkl"), "abcd…******");
    assert_eq!(mask("ab"), "ab…******");
    assert_eq!(mask(""), "…******");
}

#[test]
fn buckets_are_split_and_sorted() {
    let buckets = vec![
        ("aw-watcher-window_zed".to_string(), "currentwindow".to_string()),
        ("aw-watcher-afk_host".to_string(), "afkstatus".to_string()),
        ("aw-watcher-window_host".to_string(), "currentwindow".to_string()),
        ("aw-watcher-web".to_string(), "web.tab.current".to_string()),
        ("custom-AFK".to_string(), "x".to_string()),
    ];
    let (window, afk) = classify_buckets(&buckets);
    assert_eq!(window, strings(&["aw-watcher-window_host", "aw-watcher-window_zed"]));
    assert_eq!(afk, strings(&["aw-watcher-afk_host", "custom-AFK"]));
    assert_eq!(sort_strings(strings(&["b", "a", "c", "a"])), strings(&["a", "a", "b", "c"]));
}

#[test]
fn default_bucket_prefers_this_host() {
    let opts = strings(&["aw-watcher-window_other", "AW-Watcher-Window_Host"]);
    assert_eq!(
        default_for_host(&opts, "host", "aw-watcher-window").unwrap(),
        "AW-Watcher-Window_Host"
    );
    assert_eq!(default_for_host(&opts, "nope", "aw-watcher-window").unwrap(), "aw-watcher-window_other");
    assert!(default_for_host(&[], "host", "aw-watcher-window").is_none());
}

#[test]
fn choices() {
    let opts = strings(&["a", "b", "c"]);
    assert_eq!(resolve_choice("", &opts, "b"), "b");
    assert_eq!(resolve_choice("  ", &opts, "b"), "b");
    assert_eq!(resolve_choice(" 3 ", &opts, "b"), "c");
    assert_eq!(resolve_choice("4", &opts, "b"), "4");
    assert_eq!(resolve_choice("0", &opts, "b"), "0");
    assert_eq!(resolve_choice(" pasted-name ", &opts, "b"), "pasted-name");
}

#[test]
fn optional_picks() {
    assert_eq!(pick_single_optional("", "only").unwrap(), "only");
    assert_eq!(pick_single_optional(" Y ", "only").unwrap(), "only");
    assert!(pick_single_optional("N", "only").is_none());
    assert_eq!(pick_single_optional(" other ", "only").unwrap(), "other");
    let opts = strings(&["a", "b"]);
    assert!(pick_multi_optional("  ", &opts, "a").is_none());
    assert_eq!(pick_multi_optional("2", &opts, "a").unwrap(), "b");
    assert_eq!(pick_multi_optional(" x ", &opts, "a").unwrap(), "x");
}

#[test]
fn config_file_text() {
    let text = render_config("https://k", "tok", false, "http://aw", "win_b", Some("afk_b"));
    assert!(text.starts_with("# aw-kimai-bridge configuration\n"));
    assert!(text.contains("[kimai]\nurl   = \"https://k\"\ntoken = \"tok\"\n"));
    assert!(text.contains("[activitywatch]\nurl    = \"http://aw\"\nbucket = \"win_b\"\nafk_bucket = \"afk_b\"\n"));
    assert!(text.contains("sync_interval_secs = 300\n"));
    let text = render_config("https://k", "tok", true, "http://aw", "win_b", None);
    assert!(text.contains("# token left blank — supplied via the KIMAI_TOKEN env var\n# token = \"\""));
    assert!(!text.contains("tok\""));
    assert!(text.contains("# afk_bucket = \"aw-watcher-afk_YOURHOST\""));
}

// ── bootstrap ───────────────────────────────────────────────────────────────

#[test]
fn blueprint_defaults_and_lookup() {
    assert_eq!(default_country(), "US");
    assert_eq!(default_currency(), "USD");
    assert_eq!(default_timezone(), "America/Chicago");
    let names = strings(&["Acme Corp", "Other", "Acme Corp"]);
    assert_eq!(find_by_name(&names, "Acme Corp"), Some(0));
    assert_eq!(find_by_name(&names, "Other"), Some(1));
    assert_eq!(find_by_name(&names, "acme corp"), None);
}

#[test]
fn blank_blueprint_text() {
    let b = blank_blueprint();
    assert!(b.starts_with("# Kimai bootstrap blueprint\n"));
    assert!(b.contains("[[customers]]\nname     = \"Acme Corp\"\n"));
    assert!(b.contains("    name = \"QA and Testing\"\n"));
    assert!(b.ends_with("\n"));
}

#[test]
fn yes_answers() {
    assert!(confirms("y\n"));
    assert!(confirms("  Y "));
    assert!(!confirms("yes"));
    assert!(!confirms(""));
    assert!(answers_yes("Y\n"));
    assert!(answers_yes(" y"));
    assert!(!answers_yes("n"));
    assert!(!answers_yes(""));
}

#[test]
fn bucket_plans() {
    let none: Vec<String> = vec![];
    assert!(matches!(bucket_plan(&none, "host", "aw-watcher-window"),
        BucketPlan::Guess(g) if g == "aw-watcher-window_host"));
    let one = strings(&["aw-watcher-afk_x"]);
    assert!(matches!(bucket_plan(&one, "host", "aw-watcher-afk"),
        BucketPlan::Only(b) if b == "aw-watcher-afk_x"));
    let two = strings(&["aw-watcher-window_a", "aw-watcher-window_HOST"]);
    assert!(matches!(bucket_plan(&two, "host", "aw-watcher-window"),
        BucketPlan::Choose(d) if d == "aw-watcher-window_HOST"));
    assert!(matches!(bucket_plan(&two, "other", "aw-watcher-window"),
        BucketPlan::Choose(d) if d == "aw-watcher-window_a"));
}

#[test]
fn admin_api_urls() {
    assert_eq!(collection_url("https://k", &Entity::Customers), "https://k/api/customers");
    assert_eq!(item_url("https://k", &Entity::Projects, 42), "https://k/api/projects/42");
    assert_eq!(
        listing_url("https://k", &Entity::Customers, Some(3)),
        "https://k/api/customers?visible=1&order=ASC&orderBy=name"
    );
    assert_eq!(
        listing_url("https://k", &Entity::Projects, Some(3)),
        "https://k/api/projects?visible=1&order=ASC&orderBy=name&customer=3"
    );
    assert_eq!(
        listing_url("https://k", &Entity::Activities, Some(7)),
        "https://k/api/activities?visible=1&order=ASC&orderBy=name&project=7"
    );
    assert_eq!(
        listing_url("https://k", &Entity::Activities, None),
        "https://k/api/activities?visible=1&order=ASC&orderBy=name"
    );
}
