//! The daemon's configuration and its validation. Reading and parsing the
//! TOML file is done outside the library; this module holds the values, their
//! defaults and the checks a loaded configuration must pass.

use vstd::prelude::*;
use crate::classifier::{check_pattern, regex_compiles};

verus! {

/// Top-level config loaded from config.toml
pub struct Config {
    pub kimai: KimaiConfig,
    pub activitywatch: ActivityWatchConfig,
    /// How often (seconds) the daemon wakes up to sync
    pub sync_interval_secs: u64,
    /// Gaps shorter than this (seconds) between same-project events are
    /// merged into one continuous block (handles brief alt-tabs, etc.)
    pub idle_threshold_secs: i64,
    /// Minimum duration (seconds) for an event to be pushed to Kimai.
    /// Events shorter than this are silently dropped.
    pub min_duration_secs: i64,
    /// Where to persist the sync cursor (last synced timestamp).
    pub state_path: String,
    /// Ordered list of classification rules. First match wins.
    pub rules: Vec<Rule>,
}

pub struct KimaiConfig {
    pub url: String,
    pub token: String,
    /// Fallback project ID when no rule matches
    pub default_project_id: u32,
    /// Fallback activity ID when no rule matches
    pub default_activity_id: u32,
    /// Kimai user ID to assign time entries to
    pub user_id: Option<u32>,
}

pub struct ActivityWatchConfig {
    pub url: String,
    /// Name of the watcher bucket. Usually "aw-watcher-window_<hostname>".
    pub bucket: String,
    /// Name of the AFK watcher bucket. Without one, away time is billed.
    pub afk_bucket: Option<String>,
}

/// A single classification rule mapping window titles to a Kimai project.
pub struct Rule {
    /// Regex pattern matched against the window title (case-insensitive)
    pub pattern: String,
    pub project_id: u32,
    pub activity_id: u32,
    /// Optional human-readable label shown in logs
    pub label: Option<String>,
}

// ── defaults ──────────────────────────────────────────────────────────────────

/// 5 minutes.
pub fn default_interval() -> (r: u64)
    ensures
        r == 300,
{
    300
}

/// 2 minutes.
pub fn default_idle_threshold() -> (r: i64)
    ensures
        r == 120,
{
    120
}

/// 1 minute.
pub fn default_min_duration() -> (r: i64)
    ensures
        r == 60,
{
    60
}

pub fn default_state_path() -> (r: String)
    ensures
        r@ == "state.json"@,
{
    String::from_str("state.json")
}

pub fn default_aw_url() -> (r: String)
    ensures
        r@ == "http://localhost:5600"@,
{
    String::from_str("http://localhost:5600")
}

// ── the token ───────────────────────────────────────────────────────────────

/// The token in effect: a non-empty `KIMAI_TOKEN` value beats the file's.
pub open spec fn effective_token(file_token: Seq<char>, env_token: Option<Seq<char>>) -> Seq<char> {
    match env_token {
        Some(t) => if t.len() > 0 {
            t
        } else {
            file_token
        },
        None => file_token,
    }
}

pub open spec fn opt_string_view(s: Option<String>) -> Option<Seq<char>> {
    match s {
        Some(t) => Some(t@),
        None => None,
    }
}

impl Config {
    /// The `KIMAI_TOKEN` environment variable, when set and not empty, beats
    /// the token in the file; nothing else changes.
    pub fn with_env_token(self, env_token: Option<String>) -> (r: Config)
        ensures
            r.kimai.token@ == effective_token(self.kimai.token@, opt_string_view(env_token)),
            r == (Config { kimai: KimaiConfig { token: r.kimai.token, ..self.kimai }, ..self }),
    {
        let mut config = self;
        match env_token {
            Some(t) => {
                if !t.as_str().is_empty() {
                    config.kimai.token = t;
                }
            },
            None => {},
        }
        config
    }
}

// ── validation ────────────────────────────────────────────────────────────────

/// Why a configuration was refused.
pub enum ConfigError {
    /// `kimai.url` must not be empty
    EmptyKimaiUrl,
    /// `kimai.token` must not be empty
    EmptyKimaiToken,
    /// `activitywatch.bucket` must not be empty
    EmptyBucket,
    /// A rule's pattern is not a valid regex; the pattern is attached.
    InvalidPattern(String),
}

impl Config {
    /// Index of the first rule whose pattern does not compile, if any.
    pub open spec fn first_bad_rule(&self, i: int) -> bool {
        &&& 0 <= i < self.rules@.len()
        &&& !regex_compiles(self.rules@[i].pattern@)
        &&& forall|j: int| 0 <= j < i ==> regex_compiles(#[trigger] self.rules@[j].pattern@)
    }

    /// Checks in order: the Kimai URL, the Kimai token and the bucket must
    /// not be empty, and every rule's pattern must compile (the first one
    /// that does not is reported).
    pub fn validate(&self) -> (r: Result<(), ConfigError>)
        ensures
            self.kimai.url@.len() == 0 ==> r matches Err(ConfigError::EmptyKimaiUrl),
            self.kimai.url@.len() != 0 && self.kimai.token@.len() == 0 ==> r matches Err(
                ConfigError::EmptyKimaiToken,
            ),
            self.kimai.url@.len() != 0 && self.kimai.token@.len() != 0
                && self.activitywatch.bucket@.len() == 0 ==> r matches Err(ConfigError::EmptyBucket),
            self.kimai.url@.len() != 0 && self.kimai.token@.len() != 0
                && self.activitywatch.bucket@.len() != 0 ==> match r {
                Ok(()) => forall|i: int|
                    0 <= i < self.rules@.len() ==> regex_compiles(#[trigger] self.rules@[i].pattern@),
                Err(ConfigError::InvalidPattern(p)) => exists|i: int|
                    self.first_bad_rule(i) && p@ == self.rules@[i].pattern@,
                Err(_) => false,
            },
    {
        if self.kimai.url.as_str().is_empty() {
            return Err(ConfigError::EmptyKimaiUrl);
        }
        if self.kimai.token.as_str().is_empty() {
            return Err(ConfigError::EmptyKimaiToken);
        }
        if self.activitywatch.bucket.as_str().is_empty() {
            return Err(ConfigError::EmptyBucket);
        }
        // Validate all regex patterns up-front so we fail fast at startup
        let n = self.rules.len();
        let mut i: usize = 0;
        while i < n
            invariant
                n == self.rules@.len(),
                i <= n,
                self.kimai.url@.len() != 0,
                self.kimai.token@.len() != 0,
                self.activitywatch.bucket@.len() != 0,
                forall|j: int| 0 <= j < i ==> regex_compiles(#[trigger] self.rules@[j].pattern@),
            decreases n - i,
        {
            if !check_pattern(self.rules[i].pattern.as_str()) {
                assert(self.first_bad_rule(i as int));
                return Err(ConfigError::InvalidPattern(self.rules[i].pattern.clone()));
            }
            i = i + 1;
        }
        Ok(())
    }
}

} // verus!
