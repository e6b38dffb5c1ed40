//! What the library sends to Kimai: the body of a timesheet entry built from a
//! merged time block, the API paths, and what a liveness check's HTTP status
//! means. Sending the requests is done outside the library.

use vstd::prelude::*;
use crate::merger::TimeBlock;
use crate::text::{truncate_chars, truncated, decimal, decimal_string};
use vstd::arithmetic::div_mod::{lemma_fundamental_div_mod, lemma_fundamental_div_mod_converse, lemma_mod_bound};

verus! {

/// The text `chrono` gives for the instant `ms` (epoch milliseconds) under the
/// format `%Y-%m-%dT%H:%M:%S%:z` in UTC, or nothing when `chrono` cannot
/// represent the instant.
pub uninterp spec fn kimai_time_text(ms: i64) -> Option<Seq<char>>;

/// Instants a `chrono::DateTime<Utc>` represents, in epoch milliseconds:
/// from `DateTime::<Utc>::MIN_UTC` (early in year -262143) to
/// `MAX_UTC` (December 31 of year 262142, 23:59:59.999).
pub open spec fn chrono_time_ok(ms: int) -> bool {
    -8_334_601_228_800_000 <= ms <= 8_210_266_876_799_999
}

/// Instants in years 0 to 9999, where `%Y` writes exactly four digits:
/// from 0000-01-01T00:00:00.000 to 9999-12-31T23:59:59.999 UTC.
pub open spec fn four_digit_year(ms: int) -> bool {
    -62_167_219_200_000 <= ms <= 253_402_300_799_999
}

/// The decimal digit of `n` (0 to 9).
pub open spec fn digit(n: int) -> char {
    (48 + n) as char
}

/// `n` in two digits, zero-padded.
pub open spec fn pad2(n: int) -> Seq<char> {
    seq![digit(n / 10), digit(n % 10)]
}

/// `n` in four digits, zero-padded.
pub open spec fn pad4(n: int) -> Seq<char> {
    seq![digit(n / 1000), digit((n / 100) % 10), digit((n / 10) % 10), digit(n % 10)]
}

/// The proleptic Gregorian date (year, month, day) of day `z` counted from
/// 1970-01-01 (which is day 0), by 400-year eras of 146 097 days with each
/// year taken to start on March 1.
pub open spec fn civil_from_days(z: int) -> (int, int, int) {
    let zz = z + 719_468;
    let era = zz / 146_097;
    let doe = zz - era * 146_097;
    let yoe = (doe - doe / 1460 + doe / 36_524 - doe / 146_096) / 365;
    let y = yoe + era * 400;
    let doy = doe - (365 * yoe + yoe / 4 - yoe / 100);
    let mp = (5 * doy + 2) / 153;
    let d = doy - (153 * mp + 2) / 5 + 1;
    let m = if mp < 10 {
        mp + 3
    } else {
        mp - 9
    };
    (if m <= 2 {
        y + 1
    } else {
        y
    }, m, d)
}

/// `YYYY-MM-DDTHH:MM:SS+00:00` for the instant `ms` in UTC, on a 24-hour
/// clock: the date of day `ms / 86 400 000` and the time of day of the
/// remaining milliseconds, fractions of a second dropped.
pub open spec fn utc_text(ms: int) -> Seq<char> {
    let day = ms / 86_400_000;
    let sod = ms % 86_400_000;
    let ymd = civil_from_days(day);
    pad4(ymd.0) + seq!['-'] + pad2(ymd.1) + seq!['-'] + pad2(ymd.2) + seq!['T'] + pad2(sod / 3_600_000)
        + seq![':'] + pad2((sod / 60_000) % 60) + seq![':'] + pad2((sod / 1000) % 60) + "+00:00"@
}

/// Within a day of `day_ms` milliseconds split into units of `unit`
/// milliseconds, `n` units to the day: the unit of the time of day is the
/// count of units since the epoch taken modulo `n`.
proof fn lemma_time_of_day(ms: int, unit: int, n: int, day_ms: int)
    requires
        unit > 0,
        n > 0,
        day_ms == unit * n,
    ensures
        (ms % day_ms) / unit == (ms / unit) % n,
        0 <= (ms / unit) % n < n,
{
    assert(day_ms > 0) by (nonlinear_arith)
        requires
            unit > 0,
            n > 0,
            day_ms == unit * n,
    ;
    let q = ms / day_ms;
    let r = ms % day_ms;
    lemma_fundamental_div_mod(ms, day_ms);
    lemma_mod_bound(ms, day_ms);
    lemma_mod_bound(r, unit);
    lemma_mod_bound(ms / unit, n);
    let a = r / unit;
    let b = r % unit;
    lemma_fundamental_div_mod(r, unit);
    assert(0 <= r < day_ms);
    assert(0 <= a < n) by (nonlinear_arith)
        requires
            r == unit * a + b,
            0 <= b < unit,
            0 <= r < unit * n,
            unit > 0,
    ;
    assert(ms == (q * n + a) * unit + b) by (nonlinear_arith)
        requires
            ms == day_ms * q + r,
            r == unit * a + b,
            day_ms == unit * n,
    ;
    lemma_fundamental_div_mod_converse(ms, unit, q * n + a, b);
    assert(q * n + a == a + q * n);
    lemma_fundamental_div_mod_converse(q * n + a, n, q, a);
}

/// The text Kimai receives is on a 24-hour clock in UTC: it is 25 characters
/// `YYYY-MM-DDTHH:MM:SS+00:00`, whose hour is the number of whole hours since
/// the epoch modulo 24, whose minute is the number of whole minutes modulo
/// 60 and whose second the number of whole seconds modulo 60, each in two
/// digits.
pub proof fn law_utc_text_fields(ms: int)
    requires
        four_digit_year(ms),
    ensures
        ({
            let t = utc_text(ms);
            let h = (ms / 3_600_000) % 24;
            let mi = (ms / 60_000) % 60;
            let se = (ms / 1000) % 60;
            &&& t.len() == 25
            &&& t[4] == '-' && t[7] == '-' && t[10] == 'T' && t[13] == ':' && t[16] == ':'
            &&& t.subrange(19, 25) == "+00:00"@
            &&& 0 <= h < 24 && 0 <= mi < 60 && 0 <= se < 60
            &&& t[11] as int == 48 + h / 10 && t[12] as int == 48 + h % 10
            &&& t[14] as int == 48 + mi / 10 && t[15] as int == 48 + mi % 10
            &&& t[17] as int == 48 + se / 10 && t[18] as int == 48 + se % 10
        }),
{
    reveal_strlit("+00:00");
    lemma_time_of_day(ms, 3_600_000, 24, 86_400_000);
    lemma_time_of_day(ms, 60_000, 1440, 86_400_000);
    lemma_time_of_day(ms, 1000, 86_400, 86_400_000);
    let sod = ms % 86_400_000;
    lemma_fundamental_div_mod(ms, 86_400_000);
    // minutes and seconds of the day, modulo 60
    assert((sod / 60_000) % 60 == (ms / 60_000) % 60) by {
        lemma_time_of_day(ms / 60_000, 1, 60, 60);
        lemma_time_of_day(sod / 60_000, 1, 60, 60);
        let u = ms / 60_000;
        let v = sod / 60_000;
        assert(v == u % 1440);
        lemma_fundamental_div_mod(u, 1440);
        lemma_fundamental_div_mod(u % 1440, 60);
        lemma_fundamental_div_mod(u, 60);
        let q1 = u / 1440;
        assert(u == 1440 * q1 + v);
        assert(u == 60 * (24 * q1 + v / 60) + v % 60) by (nonlinear_arith)
            requires
                u == 1440 * q1 + v,
                v == 60 * (v / 60) + v % 60,
        ;
        assert(0 <= v % 60 < 60);
        lemma_fundamental_div_mod_converse(u, 60, 24 * q1 + v / 60, v % 60);
    }
    assert((sod / 1000) % 60 == (ms / 1000) % 60) by {
        let u = ms / 1000;
        let v = sod / 1000;
        assert(v == u % 86_400);
        lemma_fundamental_div_mod(u, 86_400);
        lemma_fundamental_div_mod(v, 60);
        let q1 = u / 86_400;
        assert(u == 86_400 * q1 + v);
        assert(u == 60 * (1440 * q1 + v / 60) + v % 60) by (nonlinear_arith)
            requires
                u == 86_400 * q1 + v,
                v == 60 * (v / 60) + v % 60,
        ;
        assert(0 <= v % 60 < 60);
        lemma_fundamental_div_mod_converse(u, 60, 1440 * q1 + v / 60, v % 60);
    }
    let t = utc_text(ms);
    assert(t.subrange(19, 25) =~= "+00:00"@);
}

/// `chrono::DateTime::from_timestamp_millis(ms)` formatted with/// `chrono::DateTime::from_timestamp_millis(ms)` formatted with
/// `"%Y-%m-%dT%H:%M:%S%:z"` (ISO-8601 with an explicit `+00:00` offset).
/// The contract names the text and says when it exists: exactly inside
/// `chrono`'s range (`from_timestamp_millis` returns `None` only out of range,
/// and this format cannot fail). For years 0 to 9999 it states the text:
/// chrono's calendar is the proleptic Gregorian one, `%Y` is the year in four
/// zero-padded digits, `%m %d %H %M %S` are two-digit month, day, 24-hour
/// hour, minute and second, and `%:z` of UTC is `+00:00`. Other years (which
/// `%Y` writes with a sign) are left named.
#[verifier::external_body]
fn kimai_time(ms: i64) -> (r: Option<String>)
    ensures
        match r {
            Some(s) => kimai_time_text(ms) == Some(s@),
            None => kimai_time_text(ms) is None,
        },
        r is Some <==> chrono_time_ok(ms as int),
        r matches Some(s) ==> (four_digit_year(ms as int) ==> s@ == utc_text(ms as int)),
{
    match chrono::DateTime::from_timestamp_millis(ms) {
        Some(d) => Some(d.format("%Y-%m-%dT%H:%M:%S%:z").to_string()),
        None => None,
    }
}

/// Kimai keeps at most this many characters of a description.
pub open spec fn max_description_chars() -> nat {
    255
}

/// Payload sent to POST /api/timesheets
pub struct TimesheetRequest {
    /// ISO-8601
    pub begin: String,
    /// ISO-8601
    pub end: String,
    pub project: u32,
    pub activity: u32,
    pub description: String,
    pub user: Option<u32>,
}

/// At most `max_chars` characters of `s`, the last one an ellipsis when
/// something was cut.
pub fn truncate(s: &str, max_chars: usize) -> (r: String)
    requires
        s@.len() <= max_chars || max_chars >= 1,
    ensures
        r@ == truncated(s@, max_chars as nat),
        r@.len() <= max_chars,
{
    truncate_chars(s, max_chars)
}

/// The timesheet entry for a block: its start and end as ISO-8601 text with an
/// explicit offset (without one Kimai reads the time in the server's zone),
/// its project and activity, its description cut to Kimai's limit, and the
/// configured user. Nothing when a time cannot be written.
pub fn timesheet_request(block: &TimeBlock, user_id: Option<u32>) -> (r: Option<TimesheetRequest>)
    ensures
        match r {
            Some(req) => {
                &&& kimai_time_text(block.start) == Some(req.begin@)
                &&& kimai_time_text(block.end) == Some(req.end@)
                &&& req.project == block.project_id
                &&& req.activity == block.activity_id
                &&& req.description@ == truncated(block.description@, max_description_chars())
                &&& req.description@.len() <= max_description_chars()
                &&& req.user == user_id
            },
            None => kimai_time_text(block.start) is None || kimai_time_text(block.end) is None,
        },
        r is Some <==> chrono_time_ok(block.start as int) && chrono_time_ok(block.end as int),
        four_digit_year(block.start as int) && four_digit_year(block.end as int) ==> (r matches Some(req)
            && req.begin@ == utc_text(block.start as int) && req.end@ == utc_text(block.end as int)),
{
    let begin = match kimai_time(block.start) {
        Some(b) => b,
        None => {
            return None;
        },
    };
    let end = match kimai_time(block.end) {
        Some(e) => e,
        None => {
            return None;
        },
    };
    Some(
        TimesheetRequest {
            begin,
            end,
            project: block.project_id,
            activity: block.activity_id,
            description: truncate(block.description.as_str(), 255),
            user: user_id,
        },
    )
}

/// `{base}/api/timesheets`, where entries are created and listed.
pub fn timesheets_url(base: &str) -> (r: String)
    ensures
        r@ == base@ + "/api/timesheets"@,
{
    let mut s = String::from_str(base);
    s.append("/api/timesheets");
    s
}

/// The query of the timesheet listing (`GET {base}/api/timesheets`): the page
/// size, then, when a start is given, `begin` as ISO-8601 text. Nothing when
/// that start cannot be written.
pub fn recent_entries_query(since: Option<i64>, limit: u32) -> (r: Option<Vec<(String, String)>>)
    ensures
        match since {
            None => r matches Some(q) && q@.len() == 1 && q@[0].0@ == "size"@ && q@[0].1@ == decimal(
                limit as nat,
            ),
            Some(t) => match kimai_time_text(t) {
                None => r is None,
                Some(text) => r matches Some(q) && q@.len() == 2 && q@[0].0@ == "size"@ && q@[0].1@
                    == decimal(limit as nat) && q@[1].0@ == "begin"@ && q@[1].1@ == text,
            },
        },
        r is Some <==> (since matches Some(t) ==> chrono_time_ok(t as int)),
        since matches Some(t) ==> (four_digit_year(t as int) ==> (r matches Some(q) && q@[1].1@
            == utc_text(t as int))),
{
    let mut q: Vec<(String, String)> = Vec::new();
    q.push((String::from_str("size"), decimal_string(limit as u64)));
    match since {
        Some(t) => {
            match kimai_time(t) {
                Some(text) => {
                    q.push((String::from_str("begin"), text));
                },
                None => {
                    return None;
                },
            }
        },
        None => {},
    }
    proof {
        reveal_strlit("size");
        reveal_strlit("begin");
    }
    Some(q)
}

/// `{base}/api/version`, used to check that Kimai answers and the token works.
pub fn version_url(base: &str) -> (r: String)
    ensures
        r@ == base@ + "/api/version"@,
{
    let mut s = String::from_str(base);
    s.append("/api/version");
    s
}

/// Why Kimai's liveness check failed.
pub enum PingError {
    /// HTTP 401: the API token is invalid or expired.
    InvalidToken,
    /// Any other status outside 200–299.
    Status(u16),
}

/// What the HTTP status of the liveness check means: success for 2xx, a bad
/// token for 401, a failure with the status otherwise.
pub fn ping_outcome(status: u16) -> (r: Result<(), PingError>)
    ensures
        200 <= status <= 299 ==> r is Ok,
        status == 401 ==> r matches Err(PingError::InvalidToken),
        !(200 <= status <= 299) && status != 401 ==> (r matches Err(PingError::Status(s)) && s == status),
{
    if status == 401 {
        return Err(PingError::InvalidToken);
    }
    if !(200 <= status && status <= 299) {
        return Err(PingError::Status(status));
    }
    Ok(())
}

} // verus!
