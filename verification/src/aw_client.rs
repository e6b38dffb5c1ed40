//! ActivityWatch data as the library sees it.
//!
//! Times are integers: a timestamp is milliseconds since the Unix epoch (UTC)
//! and a duration is a number of milliseconds. The HTTP side (fetching and
//! decoding the JSON) lives outside the library and converts into these types.

use vstd::prelude::*;
use crate::text::{str_eq, trim_trailing_slashes, strip_trailing_slashes};

verus! {

/// Largest magnitude of a timestamp, in milliseconds. Every instant that
/// `chrono::DateTime<Utc>` can represent (about ±262 000 years) lies well
/// inside `[-MAX_TIME_MS, MAX_TIME_MS]`.
pub open spec fn max_time_ms() -> int {
    9_007_199_254_740_992
}

/// A millisecond instant that a `DateTime<Utc>` can hold.
pub open spec fn time_ok(t: int) -> bool {
    -max_time_ms() <= t <= max_time_ms()
}

/// Whole seconds in a span of `ms` milliseconds, rounded toward zero
/// (`chrono::TimeDelta::num_seconds`).
pub open spec fn trunc_secs(ms: int) -> int {
    if ms >= 0 {
        ms / 1000
    } else {
        -((-ms) / 1000)
    }
}

/// Whole seconds in a span of `ms` milliseconds, rounded down (`f64::floor`).
/// Division by a positive constant in specifications rounds down.
pub open spec fn floor_secs(ms: int) -> int {
    ms / 1000
}

/// `trunc_secs` on machine integers.
pub fn span_secs(ms: i64) -> (r: i64)
    requires
        ms > i64::MIN,
    ensures
        r == trunc_secs(ms as int),
{
    if ms >= 0 {
        ms / 1000
    } else {
        -((-ms) / 1000)
    }
}

/// `floor_secs` on machine integers.
pub fn floor_span_secs(ms: i64) -> (r: i64)
    ensures
        r == floor_secs(ms as int),
{
    if ms >= 0 {
        ms / 1000
    } else {
        -((-(ms + 1)) / 1000) - 1
    }
}

/// The `data` payload of a window-watcher event.
pub struct AwEventData {
    /// Active window title at the time of the event
    pub title: String,
    /// Executable / app name
    pub app: String,
    /// URL (populated by browser watchers)
    pub url: Option<String>,
}

impl Clone for AwEventData {
    fn clone(&self) -> (r: Self)
        ensures
            r == *self,
    {
        let url = match &self.url {
            Some(u) => Some(u.clone()),
            None => None,
        };
        AwEventData { title: self.title.clone(), app: self.app.clone(), url }
    }
}

/// A window-watcher event: what was focused, from when, for how long.
pub struct AwEvent {
    pub id: Option<u64>,
    /// Start of the event, milliseconds since the epoch.
    pub timestamp_ms: i64,
    /// Length of the event in milliseconds.
    pub duration_ms: i64,
    pub data: AwEventData,
}

impl Clone for AwEvent {
    fn clone(&self) -> (r: Self)
        ensures
            r == *self,
    {
        AwEvent {
            id: self.id,
            timestamp_ms: self.timestamp_ms,
            duration_ms: self.duration_ms,
            data: self.data.clone(),
        }
    }
}

impl AwEvent {
    /// End of the event (start plus duration), in milliseconds.
    pub open spec fn end_ms(&self) -> int {
        self.timestamp_ms + self.duration_ms
    }

    /// Start and end are instants a `DateTime<Utc>` can hold.
    pub open spec fn wf(&self) -> bool {
        time_ok(self.timestamp_ms as int) && time_ok(self.end_ms())
    }

    /// Whether start and end are instants a `DateTime<Utc>` can hold.
    pub fn in_range(&self) -> (r: bool)
        ensures
            r == self.wf(),
    {
        let lim: i64 = 9_007_199_254_740_992;
        let t = self.timestamp_ms;
        if t < -lim || t > lim {
            return false;
        }
        -lim - t <= self.duration_ms && self.duration_ms <= lim - t
    }

    /// Duration as whole seconds, floored.
    pub fn duration_secs(&self) -> (r: i64)
        ensures
            r == floor_secs(self.duration_ms as int),
    {
        floor_span_secs(self.duration_ms)
    }

    /// End timestamp: start plus duration.
    pub fn end(&self) -> (r: i64)
        requires
            self.wf(),
        ensures
            r == self.end_ms(),
    {
        self.timestamp_ms + self.duration_ms
    }
}

/// Metadata for an ActivityWatch bucket.
pub struct AwBucket {
    pub id: String,
    pub kind: String,
    pub client: String,
    pub hostname: String,
}

/// The `data` payload of an AFK-watcher event.
pub struct AfkEventData {
    /// `"afk"` or `"not-afk"`.
    pub status: String,
}

/// An AFK-watcher event: whether the user was away, from when, for how long.
pub struct AfkEvent {
    /// Start of the event, milliseconds since the epoch.
    pub timestamp_ms: i64,
    /// Length of the event in milliseconds.
    pub duration_ms: i64,
    pub data: AfkEventData,
}

impl AfkEvent {
    pub open spec fn end_ms(&self) -> int {
        self.timestamp_ms + self.duration_ms
    }

    pub open spec fn wf(&self) -> bool {
        time_ok(self.timestamp_ms as int) && time_ok(self.end_ms())
    }

    /// Whether start and end are instants a `DateTime<Utc>` can hold.
    pub fn in_range(&self) -> (r: bool)
        ensures
            r == self.wf(),
    {
        let lim: i64 = 9_007_199_254_740_992;
        let t = self.timestamp_ms;
        if t < -lim || t > lim {
            return false;
        }
        -lim - t <= self.duration_ms && self.duration_ms <= lim - t
    }

    /// The event reports the user as away.
    pub open spec fn spec_is_afk(&self) -> bool {
        self.data.status@ == "afk"@
    }

    /// Whether `data.status` is exactly `"afk"`.
    pub fn is_afk(&self) -> (r: bool)
        ensures
            r == self.spec_is_afk(),
    {
        str_eq(self.data.status.as_str(), "afk")
    }

    /// End timestamp: start plus duration.
    pub fn end(&self) -> (r: i64)
        requires
            self.wf(),
        ensures
            r == self.end_ms(),
    {
        self.timestamp_ms + self.duration_ms
    }
}

/// The base URL an ActivityWatch client talks to: the configured URL without
/// trailing slashes.
pub fn aw_base_url(url: &str) -> (r: String)
    ensures
        r@ == strip_trailing_slashes(url@),
{
    trim_trailing_slashes(url)
}

/// Path of the events of one bucket: `{base}/api/0/buckets/{bucket}/events`.
pub fn events_url(base: &str, bucket: &str) -> (r: String)
    ensures
        r@ == base@ + "/api/0/buckets/"@ + bucket@ + "/events"@,
{
    let mut s = String::from_str(base);
    s.append("/api/0/buckets/");
    s.append(bucket);
    s.append("/events");
    s
}

/// Path of the bucket list: `{base}/api/0/buckets/`.
pub fn buckets_url(base: &str) -> (r: String)
    ensures
        r@ == base@ + "/api/0/buckets/"@,
{
    let mut s = String::from_str(base);
    s.append("/api/0/buckets/");
    s
}

/// Path of the server information used as a liveness check: `{base}/api/0/info`.
pub fn info_url(base: &str) -> (r: String)
    ensures
        r@ == base@ + "/api/0/info"@,
{
    let mut s = String::from_str(base);
    s.append("/api/0/info");
    s
}

} // verus!
