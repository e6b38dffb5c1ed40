//! The setup wizard's logic: checking what the user typed, choosing among the
//! ActivityWatch buckets found, and the config file it writes. The prompts,
//! the HTTP call that lists the buckets and the file write are done outside
//! the library.

use vstd::prelude::*;
use vstd::utf8::{decode_utf8, encode_utf8_decode_utf8};
use vstd::string::StringSliceAdditionalSpecFns;
use crate::text::{
    str_lt, seq_lt, lemma_seq_lt_total, lemma_seq_lt_transitive, lemma_seq_lt_irreflexive,
    starts_with, contains, seq_contains, trim_trailing_slashes, strip_trailing_slashes, trim_ws,
    trimmed, to_lower, lowercased, eq_ignore_ascii_case, eq_ignore_ascii_case_spec, parse_usize,
    parsed_usize,
};
use crate::afk::lemma_insert_contains;

verus! {

broadcast use vstd::seq_lib::group_to_multiset_ensures;

// ── the Kimai URL and token ────────────────────────────────────────────────

/// Why a typed Kimai URL is refused.
pub enum UrlProblem {
    /// URL cannot be empty
    Empty,
    /// URL must start with http:// or https://
    Scheme,
}

/// `url` starts with `http://` or `https://`.
pub open spec fn has_http_scheme(url: Seq<char>) -> bool {
    (url.len() >= 7 && url.take(7) == "http://"@) || (url.len() >= 8 && url.take(8) == "https://"@)
}

/// The Kimai URL the wizard accepts from what was typed: trailing slashes
/// dropped; it must not be empty and must start with `http://` or
/// `https://`.
pub fn check_kimai_url(raw: &str) -> (r: Result<String, UrlProblem>)
    ensures
        strip_trailing_slashes(raw@).len() == 0 ==> (r matches Err(UrlProblem::Empty)),
        strip_trailing_slashes(raw@).len() != 0 && !has_http_scheme(strip_trailing_slashes(raw@))
            ==> (r matches Err(UrlProblem::Scheme)),
        strip_trailing_slashes(raw@).len() != 0 && has_http_scheme(strip_trailing_slashes(raw@))
            ==> (r matches Ok(u) && u@ == strip_trailing_slashes(raw@)),
{
    let url = trim_trailing_slashes(raw);
    if url.as_str().is_empty() {
        return Err(UrlProblem::Empty);
    }
    proof {
        reveal_strlit("http://");
        reveal_strlit("https://");
    }
    if !starts_with(url.as_str(), "http://") && !starts_with(url.as_str(), "https://") {
        return Err(UrlProblem::Scheme);
    }
    Ok(url)
}

/// What to do with the token that was typed.
pub enum TokenDecision {
    /// Nothing typed and `KIMAI_TOKEN` is set: leave the file blank.
    UseEnv,
    /// Nothing typed and `KIMAI_TOKEN` is not set: ask again.
    MissingEnv,
    /// Fewer than 10 bytes: too short for a valid token, ask again.
    TooShort,
    /// Store it.
    Accept,
}

pub fn token_decision(token: &str, env_token_set: bool) -> (r: TokenDecision)
    ensures
        token@.len() == 0 && env_token_set ==> r is UseEnv,
        token@.len() == 0 && !env_token_set ==> r is MissingEnv,
        token@.len() != 0 && token.len() < 10 ==> r is TooShort,
        token@.len() != 0 && token.len() >= 10 ==> r is Accept,
{
    if token.is_empty() {
        if env_token_set {
            return TokenDecision::UseEnv;
        }
        return TokenDecision::MissingEnv;
    }
    if token.len() < 10 {
        return TokenDecision::TooShort;
    }
    TokenDecision::Accept
}

/// The first four bytes of the token (fewer for a shorter one) followed by
/// `…******`.
pub fn mask(s: &str) -> (r: String)
    requires
        s.is_char_boundary(
            if s.len() < 4 {
                s.len()
            } else {
                4
            },
        ),
    ensures
        r@ == decode_utf8(
            s.spec_bytes().subrange(
                0,
                if s.len() < 4 {
                    s.len() as int
                } else {
                    4
                },
            ),
        ) + "\u{2026}"@ + "******"@,
{
    let visible = if s.len() < 4 {
        s.len()
    } else {
        4
    };
    let (head, _) = s.split_at(visible);
    proof {
        encode_utf8_decode_utf8(head@);
    }
    let mut out = String::from_str(head);
    out.append("\u{2026}");
    out.append("******");
    out
}

// ── buckets ─────────────────────────────────────────────────────────────────

/// A bucket is taken for the window watcher when its id or type mentions
/// "window" (ignoring case).
pub open spec fn is_window_bucket(id: Seq<char>, kind: Seq<char>) -> bool {
    seq_contains(lowercased(id), "window"@) || seq_contains(lowercased(kind), "window"@)
}

/// Otherwise it is taken for the AFK watcher when its id or type mentions
/// "afk" (ignoring case).
pub open spec fn is_afk_bucket(id: Seq<char>, kind: Seq<char>) -> bool {
    !is_window_bucket(id, kind) && (seq_contains(lowercased(id), "afk"@) || seq_contains(
        lowercased(kind),
        "afk"@,
    ))
}

/// Ids of the buckets that satisfy `window` (or, with `window` false, the AFK
/// test), in input order.
pub open spec fn bucket_ids(bs: Seq<(Seq<char>, Seq<char>)>, window: bool) -> Seq<Seq<char>>
    decreases bs.len(),
{
    if bs.len() == 0 {
        seq![]
    } else {
        let rest = bucket_ids(bs.drop_last(), window);
        let b = bs.last();
        if (window && is_window_bucket(b.0, b.1)) || (!window && is_afk_bucket(b.0, b.1)) {
            rest.push(b.0)
        } else {
            rest
        }
    }
}

proof fn lemma_bucket_ids_from(bs: Seq<(Seq<char>, Seq<char>)>, window: bool, x: Seq<char>)
    requires
        bucket_ids(bs, window).contains(x),
    ensures
        exists|i: int|
            0 <= i < bs.len() && (#[trigger] bs[i]).0 == x && ((window && is_window_bucket(bs[i].0, bs[i].1))
                || (!window && is_afk_bucket(bs[i].0, bs[i].1))),
    decreases bs.len(),
{
    let p = bs.drop_last();
    let rest = bucket_ids(p, window);
    let b = bs.last();
    let r = bucket_ids(bs, window);
    let k = choose|k: int| 0 <= k < r.len() && r[k] == x;
    if k < rest.len() {
        assert(r[k] == rest[k]);
        assert(rest.contains(x));
        lemma_bucket_ids_from(p, window, x);
        let i = choose|i: int|
            0 <= i < p.len() && (#[trigger] p[i]).0 == x && ((window && is_window_bucket(p[i].0, p[i].1))
                || (!window && is_afk_bucket(p[i].0, p[i].1)));
        assert(bs[i] == p[i]);
    } else {
        assert(bs[bs.len() - 1] == b);
    }
}

/// A bucket is never listed as both a window and an AFK bucket: with the
/// bucket ids all different (as in the server's JSON map), no id is in both
/// lists.
pub proof fn law_bucket_kinds_disjoint(bs: Seq<(Seq<char>, Seq<char>)>, x: Seq<char>)
    requires
        forall|i: int, j: int| 0 <= i < j < bs.len() ==> (#[trigger] bs[i]).0 != (#[trigger] bs[j]).0,
    ensures
        !(bucket_ids(bs, true).contains(x) && bucket_ids(bs, false).contains(x)),
{
    if bucket_ids(bs, true).contains(x) && bucket_ids(bs, false).contains(x) {
        lemma_bucket_ids_from(bs, true, x);
        lemma_bucket_ids_from(bs, false, x);
        let i = choose|i: int|
            0 <= i < bs.len() && (#[trigger] bs[i]).0 == x && is_window_bucket(bs[i].0, bs[i].1);
        let j = choose|j: int|
            0 <= j < bs.len() && (#[trigger] bs[j]).0 == x && is_afk_bucket(bs[j].0, bs[j].1);
        if i < j {
            assert(bs[i].0 != bs[j].0);
        } else if j < i {
            assert(bs[j].0 != bs[i].0);
        }
    }
}

pub open spec fn string_views(v: Seq<String>) -> Seq<Seq<char>> {
    v.map_values(|s: String| s@)
}

pub open spec fn pair_views(v: Seq<(String, String)>) -> Seq<(Seq<char>, Seq<char>)> {
    v.map_values(|p: (String, String)| (p.0@, p.1@))
}

/// In ascending code-point order.
pub open spec fn ascending(v: Seq<Seq<char>>) -> bool {
    forall|i: int, j: int| 0 <= i < j < v.len() ==> !seq_lt(#[trigger] v[j], #[trigger] v[i])
}

/// Sort strings ascending (insertion sort).
pub fn sort_strings(v: Vec<String>) -> (r: Vec<String>)
    ensures
        ascending(string_views(r@)),
        string_views(r@).to_multiset() == string_views(v@).to_multiset(),
{
    let ghost src = string_views(v@);
    let n = v.len();
    let mut rest = v;
    let mut out: Vec<String> = Vec::new();
    assert(src.skip(n as int) =~= Seq::<Seq<char>>::empty());
    assert(string_views(out@) =~= Seq::<Seq<char>>::empty());
    while rest.len() > 0
        invariant
            src.len() == n,
            rest@.len() <= n,
            string_views(rest@) == src.take(rest@.len() as int),
            ascending(string_views(out@)),
            string_views(out@).to_multiset() == src.skip(rest@.len() as int).to_multiset(),
        decreases rest@.len(),
    {
        let ghost m = rest@.len() as int;
        let ghost old_rest = rest@;
        let x = rest.pop().unwrap();
        assert(string_views(old_rest)[m - 1] == old_rest[m - 1]@);
        assert(string_views(rest@) =~= src.take(m - 1));
        let ghost ov = string_views(out@);
        let mut j: usize = out.len();
        while j > 0 && str_lt(x.as_str(), out[j - 1].as_str())
            invariant
                j <= out@.len(),
                ov == string_views(out@),
                forall|k: int| j <= k < out@.len() ==> seq_lt(x@, #[trigger] ov[k]),
            decreases j,
        {
            j = j - 1;
        }
        let ghost old_out = out@;
        out.insert(j, x);
        proof {
            let nv = string_views(out@);
            assert(nv =~= ov.insert(j as int, x@));
            assert forall|a: int, b: int| 0 <= a < b < nv.len() implies !seq_lt(#[trigger] nv[b], #[trigger] nv[a]) by {
                let jj = j as int;
                if b < jj {
                    assert(nv[a] == ov[a] && nv[b] == ov[b]);
                } else if b == jj {
                    // ov[j-1] is not above x, and everything before it is not above ov[j-1]
                    assert(!seq_lt(x@, ov[jj - 1]));
                    if a < jj - 1 {
                        assert(!seq_lt(ov[jj - 1], ov[a]));
                        lemma_not_lt_trans(ov[a], ov[jj - 1], x@);
                    }
                } else if a < jj {
                    assert(nv[b] == ov[b - 1]);
                    assert(seq_lt(x@, ov[b - 1]));
                    if a < jj - 1 {
                        assert(!seq_lt(ov[jj - 1], ov[a]));
                        lemma_not_lt_trans(ov[a], ov[jj - 1], x@);
                    }
                    assert(!seq_lt(x@, ov[a]) || a == jj - 1 || true);
                    lemma_not_lt_lt(ov[a], x@, ov[b - 1]);
                } else if a == jj {
                    assert(nv[b] == ov[b - 1]);
                    lemma_seq_lt_asym(x@, ov[b - 1]);
                } else {
                    assert(nv[a] == ov[a - 1] && nv[b] == ov[b - 1]);
                }
            }
            assert(src.skip(m - 1) =~= seq![src[m - 1]] + src.skip(m));
            assert(src.skip(m - 1) =~= src.skip(m).insert(0, src[m - 1]));
        }
    }
    assert(src.skip(0) =~= src);
    out
}

proof fn lemma_seq_lt_asym(a: Seq<char>, b: Seq<char>)
    requires
        seq_lt(a, b),
    ensures
        !seq_lt(b, a),
{
    if seq_lt(b, a) {
        lemma_seq_lt_transitive(a, b, a);
        lemma_seq_lt_irreflexive(a);
    }
}

/// `a <= b` and `b <= c` give `a <= c`, where `<=` is "not above".
proof fn lemma_not_lt_trans(a: Seq<char>, b: Seq<char>, c: Seq<char>)
    requires
        !seq_lt(b, a),
        !seq_lt(c, b),
    ensures
        !seq_lt(c, a),
{
    if a != b {
        lemma_seq_lt_total(a, b);
    }
    if b != c {
        lemma_seq_lt_total(b, c);
    }
    if seq_lt(c, a) {
        if a != b && b != c {
            lemma_seq_lt_transitive(a, b, c);
            lemma_seq_lt_asym(a, c);
        }
    }
}

/// `a <= b` and `b < c` give `!(c < a)`.
proof fn lemma_not_lt_lt(a: Seq<char>, b: Seq<char>, c: Seq<char>)
    requires
        !seq_lt(b, a),
        seq_lt(b, c),
    ensures
        !seq_lt(c, a),
{
    if a != b {
        lemma_seq_lt_total(a, b);
        lemma_seq_lt_transitive(a, b, c);
        lemma_seq_lt_asym(a, c);
    } else {
        lemma_seq_lt_asym(b, c);
    }
}

/// Split discovered buckets (id and type) into window-watcher and AFK-watcher
/// bucket ids, each list sorted.
pub fn classify_buckets(buckets: &[(String, String)]) -> (r: (Vec<String>, Vec<String>))
    ensures
        ascending(string_views(r.0@)),
        ascending(string_views(r.1@)),
        string_views(r.0@).to_multiset() == bucket_ids(pair_views(buckets@), true).to_multiset(),
        string_views(r.1@).to_multiset() == bucket_ids(pair_views(buckets@), false).to_multiset(),
{
    let ghost bv = pair_views(buckets@);
    let n = buckets.len();
    let mut window: Vec<String> = Vec::new();
    let mut afk: Vec<String> = Vec::new();
    let mut i: usize = 0;
    proof {
        reveal_strlit("window");
        reveal_strlit("afk");
    }
    while i < n
        invariant
            n == buckets@.len(),
            bv == pair_views(buckets@),
            i <= n,
            string_views(window@) == bucket_ids(bv.take(i as int), true),
            string_views(afk@) == bucket_ids(bv.take(i as int), false),
        decreases n - i,
    {
        let (id, kind) = (&buckets[i].0, &buckets[i].1);
        assert(bv[i as int] == (id@, kind@));
        assert(bv.take(i + 1).drop_last() =~= bv.take(i as int));
        assert(bv.take(i + 1).last() == bv[i as int]);
        let id_lower = to_lower(id.as_str());
        let kind_lower = to_lower(kind.as_str());
        if contains(id_lower.as_str(), "window") || contains(kind_lower.as_str(), "window") {
            window.push(id.clone());
            assert(string_views(window@) =~= string_views(window@).drop_last().push(id@));
        } else if contains(id_lower.as_str(), "afk") || contains(kind_lower.as_str(), "afk") {
            afk.push(id.clone());
            assert(string_views(afk@) =~= string_views(afk@).drop_last().push(id@));
        }
        i = i + 1;
    }
    assert(bv.take(n as int) =~= bv);
    (sort_strings(window), sort_strings(afk))
}

// ── picking a bucket ────────────────────────────────────────────────────────

/// `s` is the bucket chosen by default among `options`: the first one named
/// `expected` (ignoring ASCII case), else the first one.
pub open spec fn host_default(options: Seq<Seq<char>>, expected: Seq<char>, s: Seq<char>) -> bool {
    (exists|i: int|
        0 <= i < options.len() && eq_ignore_ascii_case_spec(options[i], expected) && s == options[i]
            && forall|k: int| 0 <= k < i ==> !eq_ignore_ascii_case_spec(#[trigger] options[k], expected))
        || ((forall|k: int| 0 <= k < options.len() ==> !eq_ignore_ascii_case_spec(#[trigger] options[k], expected))
        && options.len() > 0 && s == options[0])
}

/// The bucket chosen by default: the one named `{prefix}_{host}` (ignoring
/// ASCII case), else the first one.
pub fn default_for_host(options: &[String], host: &str, prefix: &str) -> (r: Option<String>)
    ensures
        match r {
            None => options@.len() == 0,
            Some(s) => host_default(string_views(options@), prefix@ + "_"@ + host@, s@),
        },
{
    let mut expected = String::from_str(prefix);
    expected.append("_");
    expected.append(host);
    let n = options.len();
    let mut i: usize = 0;
    while i < n
        invariant
            n == options@.len(),
            i <= n,
            expected@ == prefix@ + "_"@ + host@,
            forall|k: int|
                0 <= k < i ==> !eq_ignore_ascii_case_spec(#[trigger] options@[k]@, expected@),
        decreases n - i,
    {
        if eq_ignore_ascii_case(options[i].as_str(), expected.as_str()) {
            proof {
                let ov = string_views(options@);
                assert(ov[i as int] == options@[i as int]@);
                assert forall|k: int| 0 <= k < i implies !eq_ignore_ascii_case_spec(#[trigger] ov[k], expected@) by {
                    assert(ov[k] == options@[k]@);
                }
            }
            return Some(options[i].clone());
        }
        i = i + 1;
    }
    proof {
        let ov = string_views(options@);
        assert forall|k: int| 0 <= k < ov.len() implies !eq_ignore_ascii_case_spec(#[trigger] ov[k], expected@) by {
            assert(ov[k] == options@[k]@);
        }
        if n > 0 {
            assert(ov[0] == options@[0]@);
        }
    }
    if n > 0 {
        Some(options[0].clone())
    } else {
        None
    }
}

/// What the wizard does for one kind of bucket, given the buckets of that
/// kind found on the ActivityWatch server.
pub enum BucketPlan {
    /// Exactly one was found: take it (or, for an optional bucket, offer it).
    Only(String),
    /// Several were found: list them and ask, with this default.
    Choose(String),
    /// None was found (or the server could not be reached): ask, offering
    /// this guess built from the host name.
    Guess(String),
}

/// The plan for a bucket kind: the only one found, a choice among several
/// with the host's bucket (or else the first) as default, or the guess
/// `{prefix}_{host}` when none was found.
pub fn bucket_plan(options: &[String], host: &str, prefix: &str) -> (r: BucketPlan)
    ensures
        options@.len() == 0 ==> (r matches BucketPlan::Guess(g) && g@ == prefix@ + "_"@ + host@),
        options@.len() == 1 ==> (r matches BucketPlan::Only(b) && b@ == options@[0]@),
        options@.len() > 1 ==> (r matches BucketPlan::Choose(d) && host_default(
            string_views(options@),
            prefix@ + "_"@ + host@,
            d@,
        )),
{
    if options.len() == 0 {
        let mut g = String::from_str(prefix);
        g.append("_");
        g.append(host);
        return BucketPlan::Guess(g);
    }
    if options.len() == 1 {
        return BucketPlan::Only(options[0].clone());
    }
    match default_for_host(options, host, prefix) {
        Some(d) => BucketPlan::Choose(d),
        None => BucketPlan::Choose(options[0].clone()),
    }
}

/// The option numbered `raw` (counting from 1) when `raw` is such a number,
/// the default when nothing was typed, and otherwise what was typed (a bucket
/// name pasted in).
pub open spec fn choice(raw: Seq<char>, options: Seq<Seq<char>>, default_label: Seq<char>) -> Seq<char> {
    let t = trimmed(raw);
    if t.len() == 0 {
        default_label
    } else {
        match parsed_usize(t) {
            Some(n) => if 1 <= n <= options.len() {
                options[n - 1]
            } else {
                t
            },
            None => t,
        }
    }
}

pub fn resolve_choice(raw: &str, options: &[String], default_label: &str) -> (r: String)
    ensures
        r@ == choice(raw@, string_views(options@), default_label@),
{
    let trimmed_raw = trim_ws(raw);
    if trimmed_raw.is_empty() {
        return String::from_str(default_label);
    }
    match parse_usize(trimmed_raw) {
        Some(n) => {
            if n >= 1 && n <= options.len() {
                assert(string_views(options@)[n - 1] == options@[n - 1]@);
                return options[n - 1].clone();
            }
        },
        None => {},
    }
    String::from_str(trimmed_raw)
}

/// Answer to "use the one discovered AFK bucket?": blank or `y` takes it,
/// `n` skips AFK filtering, anything else is a bucket name.
/// Blank or `y` (ignoring ASCII case).
pub open spec fn takes_offer(t: Seq<char>) -> bool {
    t.len() == 0 || eq_ignore_ascii_case_spec(t, "y"@)
}

pub fn pick_single_optional(raw: &str, only: &str) -> (r: Option<String>)
    ensures
        takes_offer(trimmed(raw@)) ==> (r matches Some(s) && s@ == only@),
        !takes_offer(trimmed(raw@)) && eq_ignore_ascii_case_spec(trimmed(raw@), "n"@) ==> r is None,
        !takes_offer(trimmed(raw@)) && !eq_ignore_ascii_case_spec(trimmed(raw@), "n"@) ==> (r matches Some(
            s,
        ) && s@ == trimmed(raw@)),
{
    let t = trim_ws(raw);
    if t.is_empty() || eq_ignore_ascii_case(t, "y") {
        return Some(String::from_str(only));
    }
    if eq_ignore_ascii_case(t, "n") {
        return None;
    }
    Some(String::from_str(t))
}

/// Answer to "pick an AFK bucket among several": blank skips, anything else
/// is resolved as a choice.
pub fn pick_multi_optional(raw: &str, options: &[String], default_label: &str) -> (r: Option<String>)
    ensures
        trimmed(raw@).len() == 0 ==> r is None,
        trimmed(raw@).len() != 0 ==> (r matches Some(s) && s@ == choice(
            trimmed(raw@),
            string_views(options@),
            default_label@,
        )),
{
    let t = trim_ws(raw);
    if t.is_empty() {
        return None;
    }
    Some(resolve_choice(t, options, default_label))
}

// ── the config file ─────────────────────────────────────────────────────────

/// The `token` line: the token, or a comment when it comes from `KIMAI_TOKEN`.
pub open spec fn token_line(token: Seq<char>, token_in_env: bool) -> Seq<char> {
    if token_in_env {
        "# token left blank \u{2014} supplied via the KIMAI_TOKEN env var\n# token = \"\""@
    } else {
        "token = \""@ + token + "\""@
    }
}

/// The `afk_bucket` line, commented out when there is none.
pub open spec fn afk_line(afk_bucket: Option<Seq<char>>) -> Seq<char> {
    match afk_bucket {
        Some(b) => "afk_bucket = \""@ + b + "\""@,
        None => "# afk_bucket = \"aw-watcher-afk_YOURHOST\"  # uncomment to ignore away-from-keyboard time"@,
    }
}

pub open spec fn config_head() -> Seq<char> {
    "# aw-kimai-bridge configuration\n# Generated by `aw-kimai-admin setup`\n\n[kimai]\nurl   = \""@
}

pub open spec fn config_middle() -> Seq<char> {
    "\n\n# Fallback project/activity used when no [[rules]] pattern matches.\n# Run `aw-kimai-admin project list` to find your IDs.\ndefault_project_id  = 0   # \u{2190} fill in\ndefault_activity_id = 0   # \u{2190} fill in\n\n# Optional: pin entries to a specific Kimai user (omit to use the token owner)\n# user_id = 1\n\n[activitywatch]\nurl    = \""@
}

pub open spec fn config_tail() -> Seq<char> {
    "\n\n# How often the daemon wakes up to sync (seconds). Default: 300 (5 min).\nsync_interval_secs = 300\n\n# Gaps shorter than this between same-project events are bridged (seconds).\nidle_threshold_secs = 120\n\n# Events shorter than this after merging are silently dropped (seconds).\nmin_duration_secs = 60\n\n# Where the sync cursor is persisted between runs.\nstate_path = \"state.json\"\n\n# \u{2500}\u{2500} Classification rules \u{2500}\u{2500}\u{2500}\u{2500}\u{2500}\u{2500}\u{2500}\u{2500}\u{2500}\u{2500}\u{2500}\u{2500}\u{2500}\u{2500}\u{2500}\u{2500}\u{2500}\u{2500}\u{2500}\u{2500}\u{2500}\u{2500}\u{2500}\u{2500}\u{2500}\u{2500}\u{2500}\u{2500}\u{2500}\u{2500}\u{2500}\u{2500}\u{2500}\u{2500}\u{2500}\u{2500}\u{2500}\u{2500}\u{2500}\u{2500}\u{2500}\u{2500}\u{2500}\u{2500}\u{2500}\u{2500}\u{2500}\u{2500}\u{2500}\u{2500}\u{2500}\u{2500}\n# Rules are tested top-to-bottom; the first match wins.\n# Pattern is a case-insensitive regex matched against:  title\\napp\\nurl\n# Set project_id = 0 to explicitly ignore matching events.\n#\n# [[rules]]\n# label      = \"My Project\"\n# pattern    = \"myorg/my-project\"\n# project_id  = 42   # \u{2190} from `aw-kimai-admin project list`\n# activity_id = 3\n#\n# [[rules]]\n# label      = \"Ignore social media\"\n# pattern    = \"twitter\\\\.com|reddit\\\\.com|youtube\\\\.com\"\n# project_id  = 0\n# activity_id = 0\n"@
}

/// The config file the wizard writes.
pub open spec fn config_text(
    kimai_url: Seq<char>,
    kimai_token: Seq<char>,
    token_in_env: bool,
    aw_url: Seq<char>,
    bucket: Seq<char>,
    afk_bucket: Option<Seq<char>>,
) -> Seq<char> {
    config_head() + kimai_url + "\"\n"@ + token_line(kimai_token, token_in_env) + config_middle()
        + aw_url + "\"\nbucket = \""@ + bucket + "\"\n"@ + afk_line(afk_bucket) + config_tail()
}

/// No line of `x` (after its first) starts a TOML table.
pub open spec fn opens_no_table(x: Seq<char>) -> bool {
    forall|i: int| 0 <= i < x.len() - 1 ==> !(#[trigger] x[i] == '\n' && x[i + 1] == '[')
}

/// The written file is a config the daemon loads: its `[kimai]` table sets
/// `url` to the Kimai URL, `token` to the token (when it is not left to
/// `KIMAI_TOKEN`), and both `default_project_id` and `default_activity_id`,
/// with no other table opened before `[activitywatch]`, which sets `url` to
/// the ActivityWatch URL and `bucket` to the window bucket.
pub proof fn law_config_has_required_keys(
    kimai_url: Seq<char>,
    kimai_token: Seq<char>,
    token_in_env: bool,
    aw_url: Seq<char>,
    bucket: Seq<char>,
    afk_bucket: Option<Seq<char>>,
)
    ensures
        exists|a: Seq<char>, b: Seq<char>, c: Seq<char>, d: Seq<char>, e: Seq<char>|
            config_text(kimai_url, kimai_token, token_in_env, aw_url, bucket, afk_bucket) == a
                + "\n[kimai]\nurl   = \""@ + kimai_url + "\"\n"@ + b + "\ndefault_project_id  = 0"@ + c
                + "\ndefault_activity_id = 0"@ + d + "\n[activitywatch]\nurl    = \""@ + aw_url
                + "\"\nbucket = \""@ + bucket + "\"\n"@ + e
                && (token_in_env || b.take(kimai_token.len() + 9int) == "token = \""@ + kimai_token)
                && opens_no_table(c) && opens_no_table(d) && !c.contains('\n'),
{
    reveal_strlit("# aw-kimai-bridge configuration\n# Generated by `aw-kimai-admin setup`\n\n[kimai]\nurl   = \"");
    reveal_strlit("\n\n# Fallback project/activity used when no [[rules]] pattern matches.\n# Run `aw-kimai-admin project list` to find your IDs.\ndefault_project_id  = 0   # \u{2190} fill in\ndefault_activity_id = 0   # \u{2190} fill in\n\n# Optional: pin entries to a specific Kimai user (omit to use the token owner)\n# user_id = 1\n\n[activitywatch]\nurl    = \"");
    reveal_strlit("\n[kimai]\nurl   = \"");
    reveal_strlit("\"\n");
    reveal_strlit("\ndefault_project_id  = 0");
    reveal_strlit("\ndefault_activity_id = 0");
    reveal_strlit("\n[activitywatch]\nurl    = \"");
    reveal_strlit("\"\nbucket = \"");
    reveal_strlit("token = \"");
    reveal_strlit("\"");
    reveal_strlit("# aw-kimai-bridge configuration\n# Generated by `aw-kimai-admin setup`\n");
    reveal_strlit("\n\n# Fallback project/activity used when no [[rules]] pattern matches.\n# Run `aw-kimai-admin project list` to find your IDs.");
    reveal_strlit("   # \u{2190} fill in");
    reveal_strlit("   # \u{2190} fill in\n\n# Optional: pin entries to a specific Kimai user (omit to use the token owner)\n# user_id = 1\n");
    let a = "# aw-kimai-bridge configuration\n# Generated by `aw-kimai-admin setup`\n"@;
    let b = token_line(kimai_token, token_in_env)
        + "\n\n# Fallback project/activity used when no [[rules]] pattern matches.\n# Run `aw-kimai-admin project list` to find your IDs."@;
    let c = "   # \u{2190} fill in"@;
    let d = "   # \u{2190} fill in\n\n# Optional: pin entries to a specific Kimai user (omit to use the token owner)\n# user_id = 1\n"@;
    let e = afk_line(afk_bucket) + config_tail();
    assert(config_head() =~= a + "\n[kimai]\nurl   = \""@);
    assert(config_middle() =~= "\n\n# Fallback project/activity used when no [[rules]] pattern matches.\n# Run `aw-kimai-admin project list` to find your IDs."@
        + "\ndefault_project_id  = 0"@ + c + "\ndefault_activity_id = 0"@ + d + "\n[activitywatch]\nurl    = \""@);
    assert(config_text(kimai_url, kimai_token, token_in_env, aw_url, bucket, afk_bucket) =~= a
        + "\n[kimai]\nurl   = \""@ + kimai_url + "\"\n"@ + b + "\ndefault_project_id  = 0"@ + c
        + "\ndefault_activity_id = 0"@ + d + "\n[activitywatch]\nurl    = \""@ + aw_url
        + "\"\nbucket = \""@ + bucket + "\"\n"@ + e);
    if !token_in_env {
        assert(b.take(kimai_token.len() + 9int) =~= "token = \""@ + kimai_token);
    }
    assert(opens_no_table(c));
    assert(opens_no_table(d));
    assert(!c.contains('\n'));
}

pub fn render_config(
    kimai_url: &str,
    kimai_token: &str,
    token_in_env: bool,
    aw_url: &str,
    bucket: &str,
    afk_bucket: Option<&str>,
) -> (r: String)
    ensures
        r@ == config_text(
            kimai_url@,
            kimai_token@,
            token_in_env,
            aw_url@,
            bucket@,
            match afk_bucket {
                Some(b) => Some(b@),
                None => None,
            },
        ),
{
    let mut s = String::from_str(
        "# aw-kimai-bridge configuration\n# Generated by `aw-kimai-admin setup`\n\n[kimai]\nurl   = \"",
    );
    s.append(kimai_url);
    s.append("\"\n");
    if token_in_env {
        s.append("# token left blank \u{2014} supplied via the KIMAI_TOKEN env var\n# token = \"\"");
    } else {
        s.append("token = \"");
        s.append(kimai_token);
        s.append("\"");
    }
    s.append(
        "\n\n# Fallback project/activity used when no [[rules]] pattern matches.\n# Run `aw-kimai-admin project list` to find your IDs.\ndefault_project_id  = 0   # \u{2190} fill in\ndefault_activity_id = 0   # \u{2190} fill in\n\n# Optional: pin entries to a specific Kimai user (omit to use the token owner)\n# user_id = 1\n\n[activitywatch]\nurl    = \"",
    );
    s.append(aw_url);
    s.append("\"\nbucket = \"");
    s.append(bucket);
    s.append("\"\n");
    match afk_bucket {
        Some(b) => {
            s.append("afk_bucket = \"");
            s.append(b);
            s.append("\"");
        },
        None => {
            s.append(
                "# afk_bucket = \"aw-watcher-afk_YOURHOST\"  # uncomment to ignore away-from-keyboard time",
            );
        },
    }
    s.append(
        "\n\n# How often the daemon wakes up to sync (seconds). Default: 300 (5 min).\nsync_interval_secs = 300\n\n# Gaps shorter than this between same-project events are bridged (seconds).\nidle_threshold_secs = 120\n\n# Events shorter than this after merging are silently dropped (seconds).\nmin_duration_secs = 60\n\n# Where the sync cursor is persisted between runs.\nstate_path = \"state.json\"\n\n# \u{2500}\u{2500} Classification rules \u{2500}\u{2500}\u{2500}\u{2500}\u{2500}\u{2500}\u{2500}\u{2500}\u{2500}\u{2500}\u{2500}\u{2500}\u{2500}\u{2500}\u{2500}\u{2500}\u{2500}\u{2500}\u{2500}\u{2500}\u{2500}\u{2500}\u{2500}\u{2500}\u{2500}\u{2500}\u{2500}\u{2500}\u{2500}\u{2500}\u{2500}\u{2500}\u{2500}\u{2500}\u{2500}\u{2500}\u{2500}\u{2500}\u{2500}\u{2500}\u{2500}\u{2500}\u{2500}\u{2500}\u{2500}\u{2500}\u{2500}\u{2500}\u{2500}\u{2500}\u{2500}\u{2500}\n# Rules are tested top-to-bottom; the first match wins.\n# Pattern is a case-insensitive regex matched against:  title\\napp\\nurl\n# Set project_id = 0 to explicitly ignore matching events.\n#\n# [[rules]]\n# label      = \"My Project\"\n# pattern    = \"myorg/my-project\"\n# project_id  = 42   # \u{2190} from `aw-kimai-admin project list`\n# activity_id = 3\n#\n# [[rules]]\n# label      = \"Ignore social media\"\n# pattern    = \"twitter\\\\.com|reddit\\\\.com|youtube\\\\.com\"\n# project_id  = 0\n# activity_id = 0\n",
    );
    s
}

} // verus!
