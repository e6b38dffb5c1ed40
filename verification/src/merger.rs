//! Merging classified events into time blocks.
//!
//! Events are put in chronological order (a stable sort by start), then
//! scanned: an event joins the open block when it has the same project and
//! activity and starts less than `idle_threshold_secs` seconds after the
//! block's end (or overlaps it); otherwise the open block is closed and the
//! event opens a new one. Closed blocks shorter than `min_duration_secs`
//! are dropped. Each block's description lists the (title, app, url)
//! combinations that contributed to it, longest first.

use vstd::prelude::*;
use crate::aw_client::{trunc_secs, floor_secs, time_ok, span_secs, floor_span_secs};
use crate::classifier::{ClassifiedEvent, ClassifiedView};
use crate::text::{seq_lt, str_lt, str_eq, trim_ws, trimmed, decimal, decimal_string,
    lemma_seq_lt_irreflexive, lemma_seq_lt_transitive, lemma_seq_lt_total};
use crate::afk::lemma_insert_contains;

verus! {

// ── the model of events and blocks ──────────────────────────────────────────

/// What identifies a contribution to a block's description: the window title,
/// the app name and the URL.
pub type DetailKey = (Seq<char>, Seq<char>, Option<Seq<char>>);

/// A detail: a key and the whole seconds contributed under it.
pub type DetailEntry = (DetailKey, int);

pub open spec fn opt_view(u: Option<String>) -> Option<Seq<char>> {
    match u {
        Some(s) => Some(s@),
        None => None,
    }
}

pub open spec fn ev_key(c: ClassifiedView) -> DetailKey {
    (c.event.data.title@, c.event.data.app@, opt_view(c.event.data.url))
}

/// Whole seconds an event contributes to its detail: its duration, floored at
/// zero and rounded down.
pub open spec fn ev_secs(c: ClassifiedView) -> int {
    if c.event.duration_ms >= 0 {
        c.event.duration_ms / 1000
    } else {
        0
    }
}

pub open spec fn ev_start(c: ClassifiedView) -> int {
    c.event.timestamp_ms as int
}

pub open spec fn ev_end(c: ClassifiedView) -> int {
    c.event.end_ms()
}

/// A block under construction or finished: its span, project, activity,
/// number of events, and its details in order of first appearance.
pub struct BlockModel {
    pub start: int,
    pub end: int,
    pub project_id: u32,
    pub activity_id: u32,
    pub event_count: nat,
    pub details: Seq<DetailEntry>,
}

/// Index of the detail with key `k`, or -1.
pub open spec fn find_key(s: Seq<DetailEntry>, k: DetailKey) -> int
    decreases s.len(),
{
    if s.len() == 0 {
        -1
    } else if s[0].0 == k {
        0
    } else {
        let r = find_key(s.drop_first(), k);
        if r < 0 {
            -1
        } else {
            r + 1
        }
    }
}

/// Add `secs` seconds under key `k`: to its existing detail, or as a new one
/// at the end.
pub open spec fn add_detail(s: Seq<DetailEntry>, k: DetailKey, secs: int) -> Seq<DetailEntry> {
    let j = find_key(s, k);
    if j >= 0 {
        s.update(j, (k, s[j].1 + secs))
    } else {
        s.push((k, secs))
    }
}

/// The block an event opens.
pub open spec fn start_block(c: ClassifiedView) -> BlockModel {
    BlockModel {
        start: ev_start(c),
        end: ev_end(c),
        project_id: c.project_id,
        activity_id: c.activity_id,
        event_count: 1,
        details: seq![(ev_key(c), ev_secs(c))],
    }
}

/// The block after an event joins it: the end moves out to the event's end
/// when that is later, and the event's seconds are added to its detail.
pub open spec fn add_event(b: BlockModel, c: ClassifiedView) -> BlockModel {
    BlockModel {
        end: if ev_end(c) > b.end {
            ev_end(c)
        } else {
            b.end
        },
        event_count: b.event_count + 1,
        details: add_detail(b.details, ev_key(c), ev_secs(c)),
        ..b
    }
}

/// The event joins the open block: same project and activity, and the gap
/// from the block's end to the event's start is shorter than `idle` seconds
/// (for whole `idle`, `floor(gap / 1000) < idle` exactly when
/// `gap < idle * 1000` milliseconds).
pub open spec fn joins(b: BlockModel, c: ClassifiedView, idle: int) -> bool {
    &&& c.project_id == b.project_id
    &&& c.activity_id == b.activity_id
    &&& floor_secs(ev_start(c) - b.end) < idle
}

/// Scanning events in order: the closed blocks and the open one.
pub open spec fn scan(s: Seq<ClassifiedView>, idle: int) -> (Seq<BlockModel>, BlockModel)
    decreases s.len(),
{
    if s.len() <= 1 {
        (seq![], start_block(s[0]))
    } else {
        let (done, cur) = scan(s.drop_last(), idle);
        let c = s.last();
        if joins(cur, c, idle) {
            (done, add_event(cur, c))
        } else {
            (done.push(cur), start_block(c))
        }
    }
}

/// All blocks a scan produces, the last open one included.
pub open spec fn all_blocks(s: Seq<ClassifiedView>, idle: int) -> Seq<BlockModel> {
    if s.len() == 0 {
        seq![]
    } else {
        scan(s, idle).0.push(scan(s, idle).1)
    }
}

/// Length of a block in whole seconds, rounded toward zero.
pub open spec fn block_secs(b: BlockModel) -> int {
    trunc_secs(b.end - b.start)
}

/// The blocks that last at least `min` seconds, in order.
pub open spec fn keep_long(bs: Seq<BlockModel>, min: int) -> Seq<BlockModel>
    decreases bs.len(),
{
    if bs.len() == 0 {
        seq![]
    } else if block_secs(bs.last()) >= min {
        keep_long(bs.drop_last(), min).push(bs.last())
    } else {
        keep_long(bs.drop_last(), min)
    }
}

/// Index at which an event starting at `t` is placed among `s` by a stable
/// sort: before the first event that does not start earlier.
pub open spec fn front_pos(s: Seq<ClassifiedView>, t: int) -> int
    decreases s.len(),
{
    if s.len() == 0 {
        0
    } else if ev_start(s[0]) >= t {
        0
    } else {
        1 + front_pos(s.drop_first(), t)
    }
}

/// Stable sort by start time (insertion sort, from the last event forward).
pub open spec fn sort_by_start(s: Seq<ClassifiedView>) -> Seq<ClassifiedView>
    decreases s.len(),
{
    if s.len() == 0 {
        seq![]
    } else {
        let r = sort_by_start(s.drop_first());
        r.insert(front_pos(r, ev_start(s[0])), s[0])
    }
}

/// The blocks `merge` returns, as models.
pub open spec fn merged_blocks(s: Seq<ClassifiedView>, idle: int, min: int) -> Seq<BlockModel> {
    keep_long(all_blocks(sort_by_start(s), idle), min)
}

pub open spec fn views(s: Seq<ClassifiedEvent>) -> Seq<ClassifiedView> {
    s.map_values(|c: ClassifiedEvent| c@)
}

pub open spec fn events_ok(s: Seq<ClassifiedView>) -> bool {
    forall|i: int| 0 <= i < s.len() ==> (#[trigger] s[i]).event.wf()
}

/// The seconds of every detail of every block fit the machine integer that
/// holds them.
pub open spec fn details_fit(bs: Seq<BlockModel>) -> bool {
    forall|i: int, k: int|
        0 <= i < bs.len() && 0 <= k < bs[i].details.len() ==> #[trigger] bs[i].details[k].1
            <= i64::MAX
}

// ── the description ─────────────────────────────────────────────────────────

pub open spec fn opt_lt(a: Option<Seq<char>>, b: Option<Seq<char>>) -> bool {
    match (a, b) {
        (None, Some(_)) => true,
        (Some(x), Some(y)) => seq_lt(x, y),
        _ => false,
    }
}

/// Order of detail keys: by title, then app, then URL (no URL first).
pub open spec fn key_lt(a: DetailKey, b: DetailKey) -> bool {
    seq_lt(a.0, b.0) || (a.0 == b.0 && (seq_lt(a.1, b.1) || (a.1 == b.1 && opt_lt(a.2, b.2))))
}

/// `x` is listed before `y`: more seconds first, ties by key.
pub open spec fn ranks_before(x: DetailEntry, y: DetailEntry) -> bool {
    x.1 > y.1 || (x.1 == y.1 && key_lt(x.0, y.0))
}

/// `r` lists exactly the details `d`, most seconds first.
pub open spec fn ranked(d: Seq<DetailEntry>, r: Seq<DetailEntry>) -> bool {
    &&& r.len() == d.len()
    &&& forall|x: DetailEntry| r.contains(x) <==> d.contains(x)
    &&& forall|i: int, j: int| 0 <= i < j < r.len() ==> ranks_before(#[trigger] r[i], #[trigger] r[j])
}

/// Detail keys are pairwise different.
pub open spec fn distinct_keys(d: Seq<DetailEntry>) -> bool {
    forall|i: int, j: int| 0 <= i < j < d.len() ==> #[trigger] d[i].0 != #[trigger] d[j].0
}

/// Maximum distinct title/app/url combos shown in the description before we
/// collapse the rest into a "(+N more)" tail.
pub open spec fn max_details_shown() -> nat {
    5
}

/// `"{title} [{app}]"`, or just the one that is not empty.
pub open spec fn head_text(t: Seq<char>, a: Seq<char>) -> Seq<char> {
    if t.len() == 0 {
        a
    } else if a.len() == 0 {
        t
    } else {
        t + " ["@ + a + "]"@
    }
}

/// One detail as text: trimmed title and app, then `" <{url}>"` when there is
/// a non-empty URL.
pub open spec fn format_entry(k: DetailKey) -> Seq<char> {
    let h = head_text(trimmed(k.0), trimmed(k.1));
    match k.2 {
        Some(u) => if u.len() > 0 {
            h + " <"@ + u + ">"@
        } else {
            h
        },
        None => h,
    }
}

pub open spec fn more_text(n: nat) -> Seq<char> {
    "(+"@ + decimal(n) + " more)"@
}

/// The parts of a description: the first five details, then a
/// `"(+N more)"` tail when there are more.
pub open spec fn description_parts(r: Seq<DetailEntry>) -> Seq<Seq<char>> {
    if r.len() <= max_details_shown() {
        Seq::new(r.len(), |i: int| format_entry(r[i].0))
    } else {
        Seq::new(max_details_shown(), |i: int| format_entry(r[i].0)).push(
            more_text((r.len() - max_details_shown()) as nat),
        )
    }
}

/// The parts joined by `" | "`.
pub open spec fn join_parts(p: Seq<Seq<char>>) -> Seq<char>
    decreases p.len(),
{
    if p.len() == 0 {
        seq![]
    } else if p.len() == 1 {
        p[0]
    } else {
        join_parts(p.drop_last()) + " | "@ + p.last()
    }
}

/// `text` describes the details `d`: the details, most seconds first, as
/// joined parts.
pub open spec fn describes(text: Seq<char>, d: Seq<DetailEntry>) -> bool {
    exists|r: Seq<DetailEntry>| ranked(d, r) && text == join_parts(description_parts(r))
}

// ── lemmas on the orders ────────────────────────────────────────────────────

proof fn lemma_key_order(a: DetailKey, b: DetailKey, c: DetailKey)
    ensures
        !key_lt(a, a),
        key_lt(a, b) && key_lt(b, c) ==> key_lt(a, c),
        a != b ==> key_lt(a, b) || key_lt(b, a),
{
    lemma_seq_lt_irreflexive(a.0);
    lemma_seq_lt_irreflexive(a.1);
    if let Some(x) = a.2 {
        lemma_seq_lt_irreflexive(x);
    }
    if key_lt(a, b) && key_lt(b, c) {
        if seq_lt(a.0, b.0) && seq_lt(b.0, c.0) {
            lemma_seq_lt_transitive(a.0, b.0, c.0);
        }
        if a.0 == b.0 && b.0 == c.0 {
            if seq_lt(a.1, b.1) && seq_lt(b.1, c.1) {
                lemma_seq_lt_transitive(a.1, b.1, c.1);
            }
            if a.1 == b.1 && b.1 == c.1 {
                match (a.2, b.2, c.2) {
                    (Some(x), Some(y), Some(z)) => {
                        lemma_seq_lt_transitive(x, y, z);
                    },
                    _ => {},
                }
            }
        }
    }
    if a != b {
        if a.0 != b.0 {
            lemma_seq_lt_total(a.0, b.0);
        } else if a.1 != b.1 {
            lemma_seq_lt_total(a.1, b.1);
        } else {
            assert(a.2 != b.2);
            match (a.2, b.2) {
                (Some(x), Some(y)) => {
                    lemma_seq_lt_total(x, y);
                },
                _ => {},
            }
        }
    }
}

proof fn lemma_rank_order(x: DetailEntry, y: DetailEntry, z: DetailEntry)
    ensures
        !ranks_before(x, x),
        ranks_before(x, y) && ranks_before(y, z) ==> ranks_before(x, z),
        x.0 != y.0 ==> ranks_before(x, y) || ranks_before(y, x),
{
    lemma_key_order(x.0, y.0, z.0);
    lemma_key_order(y.0, x.0, z.0);
}


// ── sorting events by start ─────────────────────────────────────────────────

proof fn lemma_front_pos(s: Seq<ClassifiedView>, t: int, j: int)
    requires
        0 <= j <= s.len(),
        forall|k: int| 0 <= k < j ==> ev_start(#[trigger] s[k]) < t,
        j == s.len() || ev_start(s[j]) >= t,
    ensures
        front_pos(s, t) == j,
    decreases j,
{
    if j > 0 {
        let r = s.drop_first();
        assert forall|k: int| 0 <= k < j - 1 implies ev_start(#[trigger] r[k]) < t by {
            assert(r[k] == s[k + 1]);
        }
        if j < s.len() {
            assert(r[j - 1] == s[j]);
        }
        lemma_front_pos(r, t, j - 1);
    }
}

proof fn lemma_front_pos_bound(s: Seq<ClassifiedView>, t: int)
    ensures
        0 <= front_pos(s, t) <= s.len(),
    decreases s.len(),
{
    if s.len() > 0 {
        lemma_front_pos_bound(s.drop_first(), t);
    }
}

/// A stable sort by start is sorted and holds the same events.
pub proof fn law_sort_by_start(s: Seq<ClassifiedView>)
    ensures
        sort_by_start(s).len() == s.len(),
        forall|x: ClassifiedView| sort_by_start(s).contains(x) <==> s.contains(x),
        forall|i: int, j: int|
            0 <= i < j < s.len() ==> ev_start(#[trigger] sort_by_start(s)[i]) <= ev_start(
                #[trigger] sort_by_start(s)[j],
            ),
    decreases s.len(),
{
    if s.len() > 0 {
        let t = s.drop_first();
        law_sort_by_start(t);
        let r = sort_by_start(t);
        let x = s[0];
        let p = front_pos(r, ev_start(x));
        lemma_front_pos_bound(r, ev_start(x));
        let out = r.insert(p, x);
        assert forall|y: ClassifiedView| out.contains(y) <==> s.contains(y) by {
            lemma_insert_contains(r, p, x, y);
            assert(s =~= seq![x] + t);
            if s.contains(y) {
                let k = choose|k: int| 0 <= k < s.len() && s[k] == y;
                if k > 0 {
                    assert(t[k - 1] == y);
                }
            }
            if t.contains(y) {
                let k = choose|k: int| 0 <= k < t.len() && t[k] == y;
                assert(s[k + 1] == y);
            }
        }
        lemma_front_pos_facts(r, ev_start(x));
        assert forall|i: int, j: int| 0 <= i < j < out.len() implies ev_start(#[trigger] out[i])
            <= ev_start(#[trigger] out[j]) by {
            if j < p {
            } else if j == p {
                assert(ev_start(r[i]) < ev_start(x));
            } else if i < p {
                assert(ev_start(r[i]) <= ev_start(r[j - 1]));
            } else if i == p {
                assert(ev_start(r[j - 1]) >= ev_start(x));
            } else {
                assert(ev_start(r[i - 1]) <= ev_start(r[j - 1]));
            }
        }
    }
}

proof fn lemma_front_pos_facts(s: Seq<ClassifiedView>, t: int)
    requires
        forall|i: int, j: int|
            0 <= i < j < s.len() ==> ev_start(#[trigger] s[i]) <= ev_start(#[trigger] s[j]),
    ensures
        forall|k: int| 0 <= k < front_pos(s, t) ==> ev_start(#[trigger] s[k]) < t,
        forall|k: int| front_pos(s, t) <= k < s.len() ==> ev_start(#[trigger] s[k]) >= t,
    decreases s.len(),
{
    if s.len() > 0 {
        let r = s.drop_first();
        assert forall|i: int, j: int| 0 <= i < j < r.len() implies ev_start(#[trigger] r[i])
            <= ev_start(#[trigger] r[j]) by {
            assert(ev_start(s[i + 1]) <= ev_start(s[j + 1]));
        }
        lemma_front_pos_facts(r, t);
        if ev_start(s[0]) >= t {
            assert forall|k: int| 0 <= k < s.len() implies ev_start(#[trigger] s[k]) >= t by {
                if k > 0 {
                    assert(ev_start(s[0]) <= ev_start(s[k]));
                }
            }
        } else {
            lemma_front_pos_bound(r, t);
            assert forall|k: int| 0 <= k < front_pos(s, t) implies ev_start(#[trigger] s[k]) < t by {
                if k > 0 {
                    assert(s[k] == r[k - 1]);
                }
            }
            assert forall|k: int| front_pos(s, t) <= k < s.len() implies ev_start(#[trigger] s[k])
                >= t by {
                assert(s[k] == r[k - 1]);
            }
        }
    }
}

/// Sort events by start, keeping the order of events that start together.
fn sort_events(events: Vec<ClassifiedEvent>) -> (r: Vec<ClassifiedEvent>)
    ensures
        views(r@) == sort_by_start(views(events@)),
{
    let ghost src = views(events@);
    let mut rest = events;
    let mut out: Vec<ClassifiedEvent> = Vec::new();
    assert(src.take(src.len() as int) =~= src);
    assert(src.skip(src.len() as int) =~= Seq::<ClassifiedView>::empty());
    assert(views(out@) =~= Seq::<ClassifiedView>::empty());
    while rest.len() > 0
        invariant
            src.len() >= rest@.len(),
            views(rest@) == src.take(rest@.len() as int),
            views(out@) == sort_by_start(src.skip(rest@.len() as int)),
        decreases rest@.len(),
    {
        let ghost m = rest@.len() as int;
        let ghost old_rest = rest@;
        let x = rest.pop().unwrap();
        assert(views(old_rest)[m - 1] == old_rest[m - 1]@);
        assert(views(rest@) =~= src.take(m - 1));
        assert(x@ == src[m - 1]);
        let t = x.event.timestamp_ms;
        let mut j: usize = 0;
        while j < out.len() && out[j].event.timestamp_ms < t
            invariant
                j <= out@.len(),
                forall|k: int| 0 <= k < j ==> ev_start(#[trigger] views(out@)[k]) < t,
            decreases out@.len() - j,
        {
            j = j + 1;
        }
        proof {
            lemma_front_pos(views(out@), t as int, j as int);
            assert(src.skip(m - 1).drop_first() =~= src.skip(m));
            assert(src.skip(m - 1)[0] == src[m - 1]);
        }
        let ghost old_out = out@;
        out.insert(j, x);
        assert(views(out@) =~= views(old_out).insert(j as int, x@));
    }
    out
}

// ── blocks under construction ───────────────────────────────────────────────

/// One (title, app, url) combination of a block and its seconds.
struct Detail {
    title: String,
    app: String,
    url: Option<String>,
    secs: i64,
}

impl Detail {
    spec fn key(&self) -> DetailKey {
        (self.title@, self.app@, opt_view(self.url))
    }

    spec fn entry(&self) -> DetailEntry {
        (self.key(), self.secs as int)
    }
}

spec fn entries(d: Seq<Detail>) -> Seq<DetailEntry> {
    d.map_values(|x: Detail| x.entry())
}

fn clone_opt(u: &Option<String>) -> (r: Option<String>)
    ensures
        r == *u,
{
    match u {
        Some(s) => Some(s.clone()),
        None => None,
    }
}

/// Whether a detail has the key of an event's data.
fn same_key(d: &Detail, c: &ClassifiedEvent) -> (r: bool)
    ensures
        r == (d.key() == ev_key(c@)),
{
    if !str_eq(d.title.as_str(), c.event.data.title.as_str()) {
        return false;
    }
    if !str_eq(d.app.as_str(), c.event.data.app.as_str()) {
        return false;
    }
    match (&d.url, &c.event.data.url) {
        (Some(a), Some(b)) => str_eq(a.as_str(), b.as_str()),
        (None, None) => true,
        _ => false,
    }
}

proof fn lemma_find_key(s: Seq<DetailEntry>, k: DetailKey, j: int)
    requires
        0 <= j <= s.len(),
        forall|q: int| 0 <= q < j ==> (#[trigger] s[q]).0 != k,
        j < s.len() ==> s[j].0 == k,
    ensures
        find_key(s, k) == if j < s.len() {
            j
        } else {
            -1
        },
    decreases j,
{
    if j > 0 {
        let r = s.drop_first();
        assert forall|q: int| 0 <= q < j - 1 implies (#[trigger] r[q]).0 != k by {
            assert(r[q] == s[q + 1]);
        }
        if j < s.len() {
            assert(r[j - 1] == s[j]);
        }
        assert(s[0].0 != k);
        lemma_find_key(r, k, j - 1);
    }
}

proof fn lemma_find_key_range(s: Seq<DetailEntry>, k: DetailKey)
    ensures
        -1 <= find_key(s, k) < s.len(),
        find_key(s, k) >= 0 ==> s[find_key(s, k)].0 == k,
        find_key(s, k) < 0 ==> forall|q: int| 0 <= q < s.len() ==> (#[trigger] s[q]).0 != k,
    decreases s.len(),
{
    if s.len() > 0 {
        let r = s.drop_first();
        lemma_find_key_range(r, k);
        if s[0].0 != k && find_key(r, k) < 0 {
            assert forall|q: int| 0 <= q < s.len() implies (#[trigger] s[q]).0 != k by {
                if q > 0 {
                    assert(s[q] == r[q - 1]);
                }
            }
        }
    }
}

/// A block being built: its span, project, activity, event count and details.
struct BlockBuilder {
    start: i64,
    end: i64,
    project_id: u32,
    activity_id: u32,
    event_count: usize,
    details: Vec<Detail>,
}

impl BlockBuilder {
    spec fn model(&self) -> BlockModel {
        BlockModel {
            start: self.start as int,
            end: self.end as int,
            project_id: self.project_id,
            activity_id: self.activity_id,
            event_count: self.event_count as nat,
            details: entries(self.details@),
        }
    }

    spec fn wf(&self) -> bool {
        &&& time_ok(self.start as int)
        &&& time_ok(self.end as int)
        &&& distinct_keys(entries(self.details@))
    }

    fn from_event(ev: &ClassifiedEvent) -> (b: Self)
        requires
            ev.event.wf(),
        ensures
            b.model() == start_block(ev@),
            b.wf(),
    {
        let mut b = BlockBuilder {
            start: ev.event.timestamp_ms,
            end: ev.event.end(),
            project_id: ev.project_id,
            activity_id: ev.activity_id,
            event_count: 0,
            details: Vec::new(),
        };
        assert(entries(b.details@) =~= Seq::<DetailEntry>::empty());
        b.add_event(ev);
        assert(b.model().details =~= seq![(ev_key(ev@), ev_secs(ev@))]);
        b
    }

    fn add_event(&mut self, ev: &ClassifiedEvent)
        requires
            old(self).wf(),
            ev.event.wf(),
            old(self).event_count < usize::MAX,
            forall|k: int|
                0 <= k < add_event(old(self).model(), ev@).details.len() ==> #[trigger] add_event(
                    old(self).model(),
                    ev@,
                ).details[k].1 <= i64::MAX,
        ensures
            final(self).model() == add_event(old(self).model(), ev@),
            final(self).wf(),
    {
        let ghost old_model = self.model();
        let ev_end = ev.event.end();
        if ev_end > self.end {
            self.end = ev_end;
        }
        self.event_count = self.event_count + 1;
        let d = ev.event.duration_ms;
        let secs: i64 = if d >= 0 {
            d / 1000
        } else {
            0
        };
        let ghost k = ev_key(ev@);
        let ghost es = entries(self.details@);
        let n = self.details.len();
        let mut j: usize = 0;
        while j < n && !same_key(&self.details[j], ev)
            invariant
                n == self.details@.len(),
                es == entries(self.details@),
                k == ev_key(ev@),
                j <= n,
                forall|q: int| 0 <= q < j ==> (#[trigger] es[q]).0 != k,
            decreases n - j,
        {
            assert(es[j as int] == self.details@[j as int].entry());
            j = j + 1;
        }
        proof {
            if j < n {
                assert(es[j as int] == self.details@[j as int].entry());
            }
            lemma_find_key(es, k, j as int);
        }
        if j < n {
            let old_d = &self.details[j];
            assert(add_event(old_model, ev@).details[j as int].1 == es[j as int].1 + secs);
            let nd = Detail {
                title: old_d.title.clone(),
                app: old_d.app.clone(),
                url: clone_opt(&old_d.url),
                secs: old_d.secs + secs,
            };
            self.details.set(j, nd);
            assert(entries(self.details@) =~= es.update(j as int, (k, es[j as int].1 + secs)));
            proof {
                let ne = entries(self.details@);
                assert forall|a: int, b: int| 0 <= a < b < ne.len() implies #[trigger] ne[a].0
                    != #[trigger] ne[b].0 by {
                    assert(ne[a].0 == es[a].0 && ne[b].0 == es[b].0);
                }
            }
        } else {
            let nd = Detail {
                title: ev.event.data.title.clone(),
                app: ev.event.data.app.clone(),
                url: clone_opt(&ev.event.data.url),
                secs,
            };
            self.details.push(nd);
            assert(entries(self.details@) =~= es.push((k, secs as int)));
            proof {
                let ne = entries(self.details@);
                assert forall|a: int, b: int| 0 <= a < b < ne.len() implies #[trigger] ne[a].0
                    != #[trigger] ne[b].0 by {
                    if b == es.len() {
                        assert(es[a].0 != k);
                    } else {
                        assert(ne[a].0 == es[a].0 && ne[b].0 == es[b].0);
                    }
                }
            }
        }
    }

    proof fn lemma_details_fit(&self)
        ensures
            forall|k: int|
                0 <= k < self.model().details.len() ==> #[trigger] self.model().details[k].1 <= i64::MAX,
    {
        assert forall|k: int| 0 <= k < self.model().details.len() implies #[trigger] self.model().details[k].1
            <= i64::MAX by {
            assert(self.model().details[k] == self.details@[k].entry());
        }
    }

    /// Whether adding `ev` keeps every detail's seconds within an `i64`.
    fn fits(&self, ev: &ClassifiedEvent) -> (r: bool)
        requires
            self.wf(),
        ensures
            r == forall|k: int|
                0 <= k < add_event(self.model(), ev@).details.len() ==> #[trigger] add_event(
                    self.model(),
                    ev@,
                ).details[k].1 <= i64::MAX,
    {
        let d = ev.event.duration_ms;
        let secs: i64 = if d >= 0 {
            d / 1000
        } else {
            0
        };
        let ghost k = ev_key(ev@);
        let ghost es = entries(self.details@);
        let ghost nd = add_event(self.model(), ev@).details;
        let n = self.details.len();
        let mut j: usize = 0;
        while j < n && !same_key(&self.details[j], ev)
            invariant
                n == self.details@.len(),
                es == entries(self.details@),
                k == ev_key(ev@),
                j <= n,
                forall|q: int| 0 <= q < j ==> (#[trigger] es[q]).0 != k,
            decreases n - j,
        {
            assert(es[j as int] == self.details@[j as int].entry());
            j = j + 1;
        }
        proof {
            if j < n {
                assert(es[j as int] == self.details@[j as int].entry());
            }
            lemma_find_key(es, k, j as int);
            assert forall|q: int| 0 <= q < es.len() implies #[trigger] es[q].1 <= i64::MAX by {
                assert(es[q] == self.details@[q].entry());
            }
        }
        if j < n {
            let r = self.details[j].secs <= i64::MAX - secs;
            proof {
                assert(es[j as int] == self.details@[j as int].entry());
                assert(nd == es.update(j as int, (k, es[j as int].1 + secs)));
                if r {
                    assert forall|q: int| 0 <= q < nd.len() implies #[trigger] nd[q].1 <= i64::MAX by {
                        if q != j {
                            assert(nd[q] == es[q]);
                        }
                    }
                } else {
                    assert(nd[j as int].1 > i64::MAX);
                }
            }
            r
        } else {
            proof {
                assert(nd == es.push((k, secs as int)));
                assert forall|q: int| 0 <= q < nd.len() implies #[trigger] nd[q].1 <= i64::MAX by {
                    if q < es.len() {
                        assert(nd[q] == es[q]);
                    }
                }
            }
            true
        }
    }

    fn duration_secs(&self) -> (r: i64)
        requires
            self.wf(),
        ensures
            r == block_secs(self.model()),
    {
        span_secs(self.end - self.start)
    }

    fn finish(self) -> (r: TimeBlock)
        requires
            self.wf(),
        ensures
            r.models(self.model()),
    {
        let description = build_description(&self.details);
        TimeBlock {
            start: self.start,
            end: self.end,
            project_id: self.project_id,
            activity_id: self.activity_id,
            description,
            event_count: self.event_count,
        }
    }
}

/// A merged, ready-to-push time block representing contiguous work on one project.
pub struct TimeBlock {
    pub start: i64,
    pub end: i64,
    pub project_id: u32,
    pub activity_id: u32,
    /// Human-readable description for the Kimai timesheet entry. Built from
    /// every event that contributed to this block, not just the first one.
    pub description: String,
    /// Number of raw AW events that were merged into this block
    pub event_count: usize,
}

impl TimeBlock {
    /// This block is the block model `b`, its details described.
    pub open spec fn models(&self, b: BlockModel) -> bool {
        &&& self.start == b.start
        &&& self.end == b.end
        &&& self.project_id == b.project_id
        &&& self.activity_id == b.activity_id
        &&& self.event_count == b.event_count
        &&& describes(self.description@, b.details)
    }

    /// Length in whole seconds, rounded toward zero.
    pub fn duration_secs(&self) -> (r: i64)
        requires
            time_ok(self.start as int),
            time_ok(self.end as int),
        ensures
            r == trunc_secs(self.end - self.start),
    {
        span_secs(self.end - self.start)
    }
}

// ── the description ─────────────────────────────────────────────────────────

fn rank_before(a: &Detail, b: &Detail) -> (r: bool)
    ensures
        r == ranks_before(a.entry(), b.entry()),
{
    if a.secs != b.secs {
        return a.secs > b.secs;
    }
    proof {
        lemma_seq_lt_irreflexive(a.title@);
        lemma_seq_lt_irreflexive(a.app@);
    }
    if !str_eq(a.title.as_str(), b.title.as_str()) {
        return str_lt(a.title.as_str(), b.title.as_str());
    }
    if !str_eq(a.app.as_str(), b.app.as_str()) {
        return str_lt(a.app.as_str(), b.app.as_str());
    }
    match (&a.url, &b.url) {
        (None, Some(_)) => true,
        (Some(x), Some(y)) => str_lt(x.as_str(), y.as_str()),
        _ => false,
    }
}

/// One detail as text.
fn format_one(d: &Detail) -> (r: String)
    ensures
        r@ == format_entry(d.key()),
{
    let title = trim_ws(d.title.as_str());
    let app = trim_ws(d.app.as_str());
    let mut head = if title.is_empty() {
        String::from_str(app)
    } else if app.is_empty() {
        String::from_str(title)
    } else {
        let mut h = String::from_str(title);
        h.append(" [");
        h.append(app);
        h.append("]");
        h
    };
    match &d.url {
        Some(u) => {
            if !u.as_str().is_empty() {
                head.append(" <");
                head.append(u.as_str());
                head.append(">");
            }
        },
        None => {},
    }
    head
}

fn more_string(n: usize) -> (r: String)
    ensures
        r@ == more_text(n as nat),
{
    let mut s = String::from_str("(+");
    let d = decimal_string(n as u64);
    s.append(d.as_str());
    s.append(" more)");
    s
}

fn build_description(details: &Vec<Detail>) -> (r: String)
    requires
        distinct_keys(entries(details@)),
    ensures
        describes(r@, entries(details@)),
{
    let ghost es = entries(details@);
    let n = details.len();
    if n == 0 {
        assert(ranked(es, Seq::<DetailEntry>::empty()));
        assert(description_parts(Seq::<DetailEntry>::empty()) =~= Seq::<Seq<char>>::empty());
        return String::new();
    }

    // Most seconds first; ties in key order.
    let mut idx: Vec<usize> = Vec::with_capacity(n);
    let mut i: usize = 0;
    while i < n
        invariant
            n == details@.len(),
            es == entries(details@),
            distinct_keys(es),
            i <= n,
            idx@.len() == i,
            forall|a: int| 0 <= a < idx@.len() ==> #[trigger] idx@[a] < i,
            forall|a: int, b: int| 0 <= a < b < idx@.len() ==> #[trigger] idx@[a] != #[trigger] idx@[b],
            forall|m: usize| m < i ==> #[trigger] idx@.contains(m),
            forall|a: int, b: int|
                0 <= a < b < idx@.len() ==> ranks_before(es[#[trigger] idx@[a] as int], es[#[trigger] idx@[b] as int]),
        decreases n - i,
    {
        let mut j: usize = idx.len();
        while j > 0 && rank_before(&details[i], &details[idx[j - 1]])
            invariant
                n == details@.len(),
                es == entries(details@),
                i < n,
                j <= idx@.len(),
                forall|a: int| 0 <= a < idx@.len() ==> #[trigger] idx@[a] < i,
                forall|k: int| j <= k < idx@.len() ==> ranks_before(es[i as int], es[#[trigger] idx@[k] as int]),
            decreases j,
        {
            j = j - 1;
        }
        proof {
            if j > 0 {
                let p = idx@[j - 1] as int;
                assert(es[p].0 != es[i as int].0);
                lemma_rank_order(es[p], es[i as int], es[i as int]);
                assert(ranks_before(es[p], es[i as int]));
            }
        }
        let ghost old_idx = idx@;
        idx.insert(j, i);
        proof {
            assert forall|a: int, b: int| 0 <= a < b < idx@.len() implies ranks_before(
                es[#[trigger] idx@[a] as int],
                es[#[trigger] idx@[b] as int],
            ) by {
                let ii = i as int;
                if b < j {
                    assert(idx@[a] == old_idx[a] && idx@[b] == old_idx[b]);
                } else if b == j {
                    if a < j - 1 {
                        lemma_rank_order(es[old_idx[a] as int], es[old_idx[j - 1] as int], es[ii]);
                    }
                } else if a < j {
                    assert(idx@[b] == old_idx[b - 1]);
                } else if a == j {
                    assert(idx@[b] == old_idx[b - 1]);
                } else {
                    assert(idx@[a] == old_idx[a - 1] && idx@[b] == old_idx[b - 1]);
                }
            }
            assert forall|a: int, b: int| 0 <= a < b < idx@.len() implies #[trigger] idx@[a]
                != #[trigger] idx@[b] by {
                if a < j && b < j {
                } else if a < j && b > j {
                    assert(idx@[b] == old_idx[b - 1]);
                } else if a > j {
                    assert(idx@[a] == old_idx[a - 1] && idx@[b] == old_idx[b - 1]);
                }
            }
            assert forall|m: usize| m < i + 1 implies #[trigger] idx@.contains(m) by {
                lemma_insert_contains(old_idx, j as int, i, m);
            }
        }
        i = i + 1;
    }
    let ghost r = Seq::new(n as nat, |a: int| es[idx@[a] as int]);
    proof {
        assert forall|x: DetailEntry| r.contains(x) <==> es.contains(x) by {
            if r.contains(x) {
                let a = choose|a: int| 0 <= a < r.len() && r[a] == x;
                assert(es[idx@[a] as int] == x);
            }
            if es.contains(x) {
                let m = choose|m: int| 0 <= m < es.len() && es[m] == x;
                assert(idx@.contains(m as usize));
                let a = choose|a: int| 0 <= a < idx@.len() && idx@[a] == m as usize;
                assert(r[a] == x);
            }
        }
        assert forall|a: int, b: int| 0 <= a < b < r.len() implies ranks_before(#[trigger] r[a], #[trigger] r[b]) by {
            assert(ranks_before(es[idx@[a] as int], es[idx@[b] as int]));
        }
        assert(ranked(es, r));
    }
    let ghost parts = description_parts(r);

    let shown: usize = if n < 5 {
        n
    } else {
        5
    };
    let mut s = String::new();
    let mut k: usize = 0;
    while k < shown
        invariant
            n == details@.len(),
            es == entries(details@),
            idx@.len() == n,
            forall|a: int| 0 <= a < idx@.len() ==> #[trigger] idx@[a] < n,
            r == Seq::new(n as nat, |a: int| es[idx@[a] as int]),
            parts == description_parts(r),
            shown == if n < 5 { n } else { 5 },
            k <= shown,
            s@ == join_parts(parts.take(k as int)),
        decreases shown - k,
    {
        let part = format_one(&details[idx[k]]);
        assert(parts[k as int] == part@);
        let ghost before = s@;
        if k > 0 {
            s.append(" | ");
        }
        s.append(part.as_str());
        assert(parts.take(k + 1).drop_last() =~= parts.take(k as int));
        if k == 0 {
            assert(s@ =~= parts[0]);
        }
        k = k + 1;
    }
    if n > 5 {
        let more = more_string(n - 5);
        s.append(" | ");
        s.append(more.as_str());
        assert(parts.drop_last() =~= parts.take(5));
        assert(parts.len() == 6);
    } else {
        assert(parts.take(n as int) =~= parts);
    }
    s
}


// ── merging ─────────────────────────────────────────────────────────────────

/// Every detail of `a` has a detail with the same key and at least as many
/// seconds in `b`.
pub open spec fn entries_le(a: Seq<DetailEntry>, b: Seq<DetailEntry>) -> bool {
    forall|x: int| 0 <= x < a.len() ==> dominated_by(#[trigger] a[x], b)
}

/// `b` has a detail with the key of `e` and at least its seconds.
pub open spec fn dominated_by(e: DetailEntry, b: Seq<DetailEntry>) -> bool {
    exists|y: int| 0 <= y < b.len() && (#[trigger] b[y]).0 == e.0 && e.1 <= b[y].1
}

proof fn lemma_add_detail_grows(d: Seq<DetailEntry>, k: DetailKey, secs: int)
    requires
        secs >= 0,
    ensures
        entries_le(d, add_detail(d, k, secs)),
{
    lemma_find_key_range(d, k);
    let r = add_detail(d, k, secs);
    assert forall|x: int| 0 <= x < d.len() implies dominated_by(#[trigger] d[x], r) by {
        assert(r[x].0 == d[x].0 && d[x].1 <= r[x].1);
    }
}

proof fn lemma_entries_le_trans(a: Seq<DetailEntry>, b: Seq<DetailEntry>, c: Seq<DetailEntry>)
    requires
        entries_le(a, b),
        entries_le(b, c),
    ensures
        entries_le(a, c),
{
    assert forall|x: int| 0 <= x < a.len() implies dominated_by(#[trigger] a[x], c) by {
        assert(dominated_by(a[x], b));
        let y = choose|y: int| 0 <= y < b.len() && b[y].0 == a[x].0 && a[x].1 <= #[trigger] b[y].1;
        assert(dominated_by(b[y], c));
        let z = choose|z: int| 0 <= z < c.len() && c[z].0 == b[y].0 && b[y].1 <= #[trigger] c[z].1;
        assert(c[z].0 == a[x].0 && a[x].1 <= c[z].1);
    }
}

proof fn lemma_entries_le_refl(a: Seq<DetailEntry>)
    ensures
        entries_le(a, a),
{
    assert forall|x: int| 0 <= x < a.len() implies dominated_by(#[trigger] a[x], a) by {
        assert(a[x].0 == a[x].0 && a[x].1 <= a[x].1);
    }
}

/// The block open after the first `i` events ends up, with details at least
/// as large, as block number `done.len()` of the whole scan; the blocks
/// closed by then are the first blocks of the whole scan.
proof fn lemma_dominance(s: Seq<ClassifiedView>, i: int, idle: int)
    requires
        1 <= i <= s.len(),
    ensures
        scan(s.take(i), idle).0.len() < all_blocks(s, idle).len(),
        all_blocks(s, idle).take(scan(s.take(i), idle).0.len() as int) == scan(s.take(i), idle).0,
        entries_le(
            scan(s.take(i), idle).1.details,
            all_blocks(s, idle)[scan(s.take(i), idle).0.len() as int].details,
        ),
    decreases s.len() - i,
{
    let (d, c) = scan(s.take(i), idle);
    let all = all_blocks(s, idle);
    if i == s.len() {
        assert(s.take(i) =~= s);
        assert(all.take(d.len() as int) =~= d);
        lemma_entries_le_refl(c.details);
    } else {
        lemma_dominance(s, i + 1, idle);
        assert(s.take(i + 1).drop_last() =~= s.take(i));
        let (d2, c2) = scan(s.take(i + 1), idle);
        let e = s[i];
        assert(s.take(i + 1).last() == e);
        if joins(c, e, idle) {
            lemma_add_detail_grows(c.details, ev_key(e), ev_secs(e));
            lemma_entries_le_trans(c.details, c2.details, all[d.len() as int].details);
        } else {
            assert(all.take(d2.len() as int)[d.len() as int] == c);
            assert(all.take(d.len() as int) =~= all.take(d2.len() as int).take(d.len() as int));
            lemma_entries_le_refl(c.details);
        }
    }
}

proof fn lemma_count(s: Seq<ClassifiedView>, i: int, idle: int)
    requires
        1 <= i <= s.len(),
    ensures
        scan(s.take(i), idle).1.event_count <= i,
    decreases i,
{
    if i > 1 {
        lemma_count(s, i - 1, idle);
        assert(s.take(i).drop_last() =~= s.take(i - 1));
    }
}

pub struct Merger {
    /// Gaps shorter than this (seconds) between same-project events are bridged
    idle_threshold_secs: i64,
    /// Blocks shorter than this (seconds) after merging are discarded
    min_duration_secs: i64,
}

impl Merger {
    pub closed spec fn idle(&self) -> int {
        self.idle_threshold_secs as int
    }

    pub closed spec fn min_duration(&self) -> int {
        self.min_duration_secs as int
    }

    pub fn new(idle_threshold_secs: i64, min_duration_secs: i64) -> (m: Self)
        ensures
            m.idle() == idle_threshold_secs,
            m.min_duration() == min_duration_secs,
    {
        Self { idle_threshold_secs, min_duration_secs }
    }

    /// Takes a list of classified events and returns merged TimeBlocks: the
    /// events in chronological order, consecutive joining events merged,
    /// blocks shorter than the minimum duration dropped.
    ///
    /// Every event must span instants a `DateTime<Utc>` can hold, and the
    /// seconds summed per detail must fit in an `i64` (`try_merge` tells
    /// whether they do).
    pub fn merge(&self, events: Vec<ClassifiedEvent>) -> (r: Vec<TimeBlock>)
        requires
            events_ok(views(events@)),
            details_fit(all_blocks(sort_by_start(views(events@)), self.idle())),
        ensures
            r@.len() == merged_blocks(views(events@), self.idle(), self.min_duration()).len(),
            forall|i: int|
                0 <= i < r@.len() ==> (#[trigger] r@[i]).models(
                    merged_blocks(views(events@), self.idle(), self.min_duration())[i],
                ),
    {
        self.try_merge(events).unwrap()
    }

    /// `merge`, or nothing when some detail's summed seconds would not fit in
    /// an `i64`.
    pub fn try_merge(&self, events: Vec<ClassifiedEvent>) -> (r: Option<Vec<TimeBlock>>)
        requires
            events_ok(views(events@)),
        ensures
            r is None <==> !details_fit(all_blocks(sort_by_start(views(events@)), self.idle())),
            r matches Some(bs) ==> {
                &&& bs@.len() == merged_blocks(views(events@), self.idle(), self.min_duration()).len()
                &&& forall|i: int|
                    0 <= i < bs@.len() ==> (#[trigger] bs@[i]).models(
                        merged_blocks(views(events@), self.idle(), self.min_duration())[i],
                    )
            },
    {
        let ghost idle = self.idle();
        let ghost min = self.min_duration();
        if events.len() == 0 {
            assert(views(events@) =~= Seq::<ClassifiedView>::empty());
            assert(sort_by_start(views(events@)) =~= Seq::<ClassifiedView>::empty());
            return Some(Vec::new());
        }
        let ghost input = views(events@);

        // Sort by timestamp ascending (AW usually returns them this way but
        // don't rely on it)
        let sorted = sort_events(events);
        let ghost s = views(sorted@);
        proof {
            law_sort_by_start(input);
            assert forall|k: int| 0 <= k < s.len() implies (#[trigger] s[k]).event.wf() by {
                assert(s.contains(s[k]));
                assert(sort_by_start(input).contains(s[k]));
                assert(input.contains(s[k]));
                let q = choose|q: int| 0 <= q < input.len() && input[q] == s[k];
                assert(input[q].event.wf());
            }
        }
        let n = sorted.len();
        assert(sorted@[0]@ == s[0]);
        let mut blocks: Vec<TimeBlock> = Vec::new();
        let mut current = BlockBuilder::from_event(&sorted[0]);
        let ghost mut done: Seq<BlockModel> = seq![];
        assert(s.take(1).len() == 1);
        assert(s.take(1)[0] == s[0]);
        let mut i: usize = 1;
        while i < n
            invariant
                n == sorted@.len(),
                s == views(sorted@),
                s == sort_by_start(input),
                input == views(events@),
                events_ok(s),
                idle == self.idle(),
                min == self.min_duration(),
                details_fit(done),
                1 <= i <= n,
                done == scan(s.take(i as int), idle).0,
                current.model() == scan(s.take(i as int), idle).1,
                current.wf(),
                blocks@.len() == keep_long(done, min).len(),
                forall|k: int|
                    0 <= k < blocks@.len() ==> (#[trigger] blocks@[k]).models(keep_long(done, min)[k]),
            decreases n - i,
        {
            let ev = &sorted[i];
            assert(ev@ == s[i as int]);
            assert(ev.event.wf());
            assert(s.take(i + 1).drop_last() =~= s.take(i as int));
            assert(s.take(i + 1).last() == s[i as int]);
            let gap_secs = floor_span_secs(ev.event.timestamp_ms - current.end);
            let same_project = ev.project_id == current.project_id && ev.activity_id
                == current.activity_id;

            if same_project && gap_secs < self.idle_threshold_secs {
                if !current.fits(ev) {
                    proof {
                        lemma_dominance(s, i + 1, idle);
                        let nb = add_event(current.model(), ev@);
                        let all = all_blocks(s, idle);
                        let bi = done.len() as int;
                        let k = choose|k: int|
                            0 <= k < nb.details.len() && !(#[trigger] nb.details[k].1 <= i64::MAX);
                        let ad = all[bi].details;
                        assert(dominated_by(nb.details[k], ad));
                        let y = choose|y: int|
                            0 <= y < ad.len() && ad[y].0 == nb.details[k].0 && nb.details[k].1
                                <= #[trigger] ad[y].1;
                        assert(!(all[bi].details[y].1 <= i64::MAX));
                    }
                    return None;
                }
                proof {
                    lemma_count(s, i as int, idle);
                }
                current.add_event(ev);
            } else {
                let ghost cur_model = current.model();
                proof {
                    current.lemma_details_fit();
                }
                // Flush current block and start a new one
                if current.duration_secs() >= self.min_duration_secs {
                    blocks.push(current.finish());
                }
                proof {
                    assert(done.push(cur_model).drop_last() =~= done);
                    assert forall|a: int, k: int|
                        0 <= a < done.push(cur_model).len() && 0 <= k < done.push(cur_model)[a].details.len()
                        implies #[trigger] done.push(cur_model)[a].details[k].1 <= i64::MAX by {
                        if a < done.len() {
                            assert(done.push(cur_model)[a] == done[a]);
                        }
                    }
                    done = done.push(cur_model);
                }
                current = BlockBuilder::from_event(ev);
            }
            i = i + 1;
        }

        // Don't forget the last open block
        let ghost cur_model = current.model();
        proof {
            current.lemma_details_fit();
        }
        if current.duration_secs() >= self.min_duration_secs {
            blocks.push(current.finish());
        }
        proof {
            assert(s.take(n as int) =~= s);
            assert(done.push(cur_model).drop_last() =~= done);
            let all = all_blocks(s, idle);
            assert(all == done.push(cur_model));
            assert forall|a: int, k: int| 0 <= a < all.len() && 0 <= k < all[a].details.len()
                implies #[trigger] all[a].details[k].1 <= i64::MAX by {
                if a < done.len() {
                    assert(all[a] == done[a]);
                }
            }
        }
        Some(blocks)
    }
}

// ── laws of merging ─────────────────────────────────────────────────────────

proof fn lemma_keep_long(bs: Seq<BlockModel>, min: int)
    ensures
        forall|i: int| 0 <= i < keep_long(bs, min).len() ==> block_secs(#[trigger] keep_long(bs, min)[i]) >= min,
        forall|x: BlockModel| keep_long(bs, min).contains(x) ==> bs.contains(x),
    decreases bs.len(),
{
    if bs.len() > 0 {
        let p = bs.drop_last();
        lemma_keep_long(p, min);
        let k = keep_long(bs, min);
        let kp = keep_long(p, min);
        assert forall|x: BlockModel| k.contains(x) implies bs.contains(x) by {
            let i = choose|i: int| 0 <= i < k.len() && k[i] == x;
            if i < kp.len() {
                assert(kp[i] == x);
                assert(kp.contains(x));
                assert(p.contains(x));
                let j = choose|j: int| 0 <= j < p.len() && p[j] == x;
                assert(p[j] == bs[j]);
                assert(bs[j] == x);
            } else {
                assert(bs[bs.len() - 1] == x);
            }
        }
        assert forall|i: int| 0 <= i < k.len() implies block_secs(#[trigger] k[i]) >= min by {
            if i < kp.len() {
                assert(k[i] == kp[i]);
            }
        }
    }
}

/// No block shorter than the minimum duration is returned.
pub proof fn law_blocks_meet_minimum(s: Seq<ClassifiedView>, idle: int, min: int)
    ensures
        forall|i: int|
            0 <= i < merged_blocks(s, idle, min).len() ==> block_secs(
                #[trigger] merged_blocks(s, idle, min)[i],
            ) >= min,
{
    lemma_keep_long(all_blocks(sort_by_start(s), idle), min);
}

proof fn lemma_keep_long_exact(bs: Seq<BlockModel>, min: int)
    ensures
        forall|x: BlockModel|
            #[trigger] keep_long(bs, min).contains(x) <==> (bs.contains(x) && block_secs(x) >= min),
    decreases bs.len(),
{
    if bs.len() > 0 {
        let p = bs.drop_last();
        lemma_keep_long_exact(p, min);
        let k = keep_long(bs, min);
        let kp = keep_long(p, min);
        let l = bs.last();
        assert forall|x: BlockModel| #[trigger] k.contains(x) <==> (bs.contains(x) && block_secs(x) >= min) by {
            if k.contains(x) {
                let i = choose|i: int| 0 <= i < k.len() && k[i] == x;
                if i < kp.len() {
                    assert(kp[i] == k[i]);
                    assert(kp.contains(x));
                    let j = choose|j: int| 0 <= j < p.len() && p[j] == x;
                    assert(bs[j] == x);
                } else {
                    assert(bs[bs.len() - 1] == x);
                }
            }
            if bs.contains(x) && block_secs(x) >= min {
                let j = choose|j: int| 0 <= j < bs.len() && bs[j] == x;
                if j < p.len() {
                    assert(p[j] == x);
                    assert(p.contains(x));
                    assert(kp.contains(x));
                    let i = choose|i: int| 0 <= i < kp.len() && kp[i] == x;
                    assert(k[i] == x);
                } else {
                    assert(x == l);
                    assert(k[k.len() - 1] == x);
                }
            }
        }
    }
}

/// A block is returned exactly when it lasts long enough: among the blocks
/// that merging forms, those whose span (end minus start, in whole seconds
/// rounded toward zero) is at least `min` are returned and the others are
/// dropped.
pub proof fn law_long_blocks_kept(s: Seq<ClassifiedView>, idle: int, min: int)
    ensures
        forall|b: BlockModel|
            #[trigger] merged_blocks(s, idle, min).contains(b) <==> (all_blocks(sort_by_start(s), idle).contains(b)
                && trunc_secs(b.end - b.start) >= min),
{
    lemma_keep_long_exact(all_blocks(sort_by_start(s), idle), min);
}

proof fn lemma_scan_starts(s: Seq<ClassifiedView>, idle: int)
    requires
        s.len() >= 1,
        forall|i: int, j: int| 0 <= i < j < s.len() ==> ev_start(#[trigger] s[i]) <= ev_start(#[trigger] s[j]),
    ensures
        forall|i: int, j: int|
            0 <= i < j < scan(s, idle).0.len() ==> (#[trigger] scan(s, idle).0[i]).start
                <= (#[trigger] scan(s, idle).0[j]).start,
        forall|i: int| 0 <= i < scan(s, idle).0.len() ==> (#[trigger] scan(s, idle).0[i]).start <= scan(s, idle).1.start,
        scan(s, idle).1.start <= ev_start(s.last()),
        (scan(s, idle).0.len() as int) + 1 <= s.len(),
    decreases s.len(),
{
    if s.len() > 1 {
        let p = s.drop_last();
        assert forall|i: int, j: int| 0 <= i < j < p.len() implies ev_start(#[trigger] p[i]) <= ev_start(#[trigger] p[j]) by {
            assert(p[i] == s[i] && p[j] == s[j]);
        }
        lemma_scan_starts(p, idle);
        assert(ev_start(p.last()) <= ev_start(s.last()));
    }
}

/// Blocks come out in chronological order of their start.
pub proof fn law_blocks_chronological(s: Seq<ClassifiedView>, idle: int, min: int)
    ensures
        forall|i: int, j: int|
            0 <= i < j < merged_blocks(s, idle, min).len() ==> (#[trigger] merged_blocks(s, idle, min)[i]).start
                <= (#[trigger] merged_blocks(s, idle, min)[j]).start,
{
    let t = sort_by_start(s);
    law_sort_by_start(s);
    let all = all_blocks(t, idle);
    if t.len() > 0 {
        lemma_scan_starts(t, idle);
    }
    assert forall|i: int, j: int| 0 <= i < j < all.len() implies (#[trigger] all[i]).start <= (#[trigger] all[j]).start by {
        if j == all.len() - 1 {
            assert(all[i] == scan(t, idle).0[i]);
        } else {
            assert(all[i] == scan(t, idle).0[i] && all[j] == scan(t, idle).0[j]);
        }
    }
    lemma_keep_sorted(all, min);
}

proof fn lemma_keep_sorted(bs: Seq<BlockModel>, min: int)
    requires
        forall|i: int, j: int| 0 <= i < j < bs.len() ==> (#[trigger] bs[i]).start <= (#[trigger] bs[j]).start,
    ensures
        forall|i: int, j: int|
            0 <= i < j < keep_long(bs, min).len() ==> (#[trigger] keep_long(bs, min)[i]).start
                <= (#[trigger] keep_long(bs, min)[j]).start,
    decreases bs.len(),
{
    if bs.len() > 0 {
        let p = bs.drop_last();
        assert forall|i: int, j: int| 0 <= i < j < p.len() implies (#[trigger] p[i]).start <= (#[trigger] p[j]).start by {
            assert(p[i] == bs[i] && p[j] == bs[j]);
        }
        lemma_keep_sorted(p, min);
        lemma_keep_long(p, min);
        let k = keep_long(bs, min);
        let kp = keep_long(p, min);
        assert forall|i: int, j: int| 0 <= i < j < k.len() implies (#[trigger] k[i]).start <= (#[trigger] k[j]).start by {
            if j >= kp.len() {
                assert(kp.contains(k[i]));
                assert(p.contains(k[i]));
                let q = choose|q: int| 0 <= q < p.len() && p[q] == k[i];
                assert(p[q] == bs[q]);
                assert(bs[q] == k[i]);
                assert(k[j] == bs[bs.len() - 1]);
            } else {
                assert(k[i] == kp[i] && k[j] == kp[j]);
            }
        }
    }
}

/// Gaps shorter than the idle threshold are bridged: an event joins the open
/// block exactly when it has the block's project and activity and starts less
/// than `idle` seconds (`idle * 1000` milliseconds) after the block's end.
pub proof fn law_short_gaps_join(b: BlockModel, c: ClassifiedView, idle: int)
    ensures
        joins(b, c, idle) <==> (c.project_id == b.project_id && c.activity_id == b.activity_id
            && ev_start(c) - b.end < idle * 1000),
{
    let g = ev_start(c) - b.end;
    assert(floor_secs(g) < idle <==> g < idle * 1000) by (nonlinear_arith);
}

/// No two events start at the same instant.
pub open spec fn distinct_starts(s: Seq<ClassifiedView>) -> bool {
    forall|i: int, j: int| 0 <= i < j < s.len() ==> ev_start(#[trigger] s[i]) != ev_start(#[trigger] s[j])
}

proof fn lemma_sort_distinct(s: Seq<ClassifiedView>)
    requires
        distinct_starts(s),
    ensures
        distinct_starts(sort_by_start(s)),
    decreases s.len(),
{
    if s.len() > 0 {
        let t = s.drop_first();
        assert forall|i: int, j: int| 0 <= i < j < t.len() implies ev_start(#[trigger] t[i]) != ev_start(
            #[trigger] t[j],
        ) by {
            assert(t[i] == s[i + 1] && t[j] == s[j + 1]);
        }
        lemma_sort_distinct(t);
        law_sort_by_start(t);
        let r = sort_by_start(t);
        let x = s[0];
        let p = front_pos(r, ev_start(x));
        lemma_front_pos_bound(r, ev_start(x));
        let out = r.insert(p, x);
        assert forall|k: int| 0 <= k < r.len() implies ev_start(#[trigger] r[k]) != ev_start(x) by {
            assert(r.contains(r[k]));
            assert(t.contains(r[k]));
            let m = choose|m: int| 0 <= m < t.len() && t[m] == r[k];
            assert(s[m + 1] == r[k]);
        }
        assert forall|i: int, j: int| 0 <= i < j < out.len() implies ev_start(#[trigger] out[i])
            != ev_start(#[trigger] out[j]) by {
            if j < p {
            } else if j == p {
                assert(out[i] == r[i]);
            } else if i < p {
                assert(out[i] == r[i] && out[j] == r[j - 1]);
            } else if i == p {
                assert(out[j] == r[j - 1]);
            } else {
                assert(out[i] == r[i - 1] && out[j] == r[j - 1]);
            }
        }
    }
}

proof fn lemma_sorted_unique(r1: Seq<ClassifiedView>, r2: Seq<ClassifiedView>)
    requires
        forall|x: ClassifiedView| r1.contains(x) <==> r2.contains(x),
        forall|i: int, j: int| 0 <= i < j < r1.len() ==> ev_start(#[trigger] r1[i]) < ev_start(#[trigger] r1[j]),
        forall|i: int, j: int| 0 <= i < j < r2.len() ==> ev_start(#[trigger] r2[i]) < ev_start(#[trigger] r2[j]),
    ensures
        r1 == r2,
    decreases r1.len(),
{
    if r1.len() == 0 {
        if r2.len() > 0 {
            assert(r2.contains(r2[0]));
        }
        assert(r1 =~= r2);
    } else {
        assert(r1.contains(r1[0]));
        assert(r2.len() > 0);
        assert(r2.contains(r2[0]));
        if r1[0] != r2[0] {
            let a = choose|a: int| 0 <= a < r1.len() && r1[a] == r2[0];
            let b = choose|b: int| 0 <= b < r2.len() && r2[b] == r1[0];
            assert(a > 0 && b > 0);
            assert(ev_start(r1[0]) < ev_start(r1[a]));
            assert(ev_start(r2[0]) < ev_start(r2[b]));
        }
        let t1 = r1.drop_first();
        let t2 = r2.drop_first();
        assert forall|x: ClassifiedView| t1.contains(x) <==> t2.contains(x) by {
            if t1.contains(x) {
                let a = choose|a: int| 0 <= a < t1.len() && t1[a] == x;
                assert(r1[a + 1] == x);
                assert(ev_start(r1[0]) < ev_start(r1[a + 1]));
                assert(r2.contains(x));
                let b = choose|b: int| 0 <= b < r2.len() && r2[b] == x;
                assert(b != 0);
                assert(t2[b - 1] == x);
            }
            if t2.contains(x) {
                let a = choose|a: int| 0 <= a < t2.len() && t2[a] == x;
                assert(r2[a + 1] == x);
                assert(ev_start(r2[0]) < ev_start(r2[a + 1]));
                assert(r1.contains(x));
                let b = choose|b: int| 0 <= b < r1.len() && r1[b] == x;
                assert(b != 0);
                assert(t1[b - 1] == x);
            }
        }
        assert forall|i: int, j: int| 0 <= i < j < t1.len() implies ev_start(#[trigger] t1[i]) < ev_start(
            #[trigger] t1[j],
        ) by {
            assert(t1[i] == r1[i + 1] && t1[j] == r1[j + 1]);
        }
        assert forall|i: int, j: int| 0 <= i < j < t2.len() implies ev_start(#[trigger] t2[i]) < ev_start(
            #[trigger] t2[j],
        ) by {
            assert(t2[i] == r2[i + 1] && t2[j] == r2[j + 1]);
        }
        lemma_sorted_unique(t1, t2);
        assert(r1 =~= seq![r1[0]] + t1);
        assert(r2 =~= seq![r2[0]] + t2);
    }
}

/// The order in which events arrive does not matter: two lists of the same
/// events, in which no two events start at the same instant, merge into the
/// same blocks.
pub proof fn law_merge_ignores_order(a: Seq<ClassifiedView>, b: Seq<ClassifiedView>, idle: int, min: int)
    requires
        forall|x: ClassifiedView| a.contains(x) <==> b.contains(x),
        distinct_starts(a),
        distinct_starts(b),
    ensures
        merged_blocks(a, idle, min) == merged_blocks(b, idle, min),
{
    law_sort_by_start(a);
    law_sort_by_start(b);
    lemma_sort_distinct(a);
    lemma_sort_distinct(b);
    let sa = sort_by_start(a);
    let sb = sort_by_start(b);
    assert forall|i: int, j: int| 0 <= i < j < sa.len() implies ev_start(#[trigger] sa[i]) < ev_start(
        #[trigger] sa[j],
    ) by {
        assert(ev_start(sa[i]) <= ev_start(sa[j]));
    }
    assert forall|i: int, j: int| 0 <= i < j < sb.len() implies ev_start(#[trigger] sb[i]) < ev_start(
        #[trigger] sb[j],
    ) by {
        assert(ev_start(sb[i]) <= ev_start(sb[j]));
    }
    assert forall|x: ClassifiedView| sa.contains(x) <==> sb.contains(x) by {
        assert(sa.contains(x) <==> a.contains(x));
        assert(sb.contains(x) <==> b.contains(x));
    }
    lemma_sorted_unique(sa, sb);
}

/// A block model fixes the block: two time blocks that model the same block
/// agree in every field, the description text included.
pub proof fn law_model_fixes_block(x: TimeBlock, y: TimeBlock, b: BlockModel)
    requires
        x.models(b),
        y.models(b),
    ensures
        x.start == y.start,
        x.end == y.end,
        x.project_id == y.project_id,
        x.activity_id == y.activity_id,
        x.event_count == y.event_count,
        x.description@ == y.description@,
{
    let r1 = choose|r: Seq<DetailEntry>| ranked(b.details, r) && x.description@ == join_parts(description_parts(r));
    let r2 = choose|r: Seq<DetailEntry>| ranked(b.details, r) && y.description@ == join_parts(description_parts(r));
    law_ranking_unique(b.details, r1, r2);
}

/// The blocks `merge` returns do not depend on the order of its input: for
/// two lists of the same events, no two starting at the same instant, the
/// returned blocks agree one by one in every field.
pub proof fn law_merge_results_ignore_order(
    a: Seq<ClassifiedView>,
    b: Seq<ClassifiedView>,
    idle: int,
    min: int,
    ra: Seq<TimeBlock>,
    rb: Seq<TimeBlock>,
)
    requires
        forall|x: ClassifiedView| a.contains(x) <==> b.contains(x),
        distinct_starts(a),
        distinct_starts(b),
        ra.len() == merged_blocks(a, idle, min).len(),
        forall|i: int| 0 <= i < ra.len() ==> (#[trigger] ra[i]).models(merged_blocks(a, idle, min)[i]),
        rb.len() == merged_blocks(b, idle, min).len(),
        forall|i: int| 0 <= i < rb.len() ==> (#[trigger] rb[i]).models(merged_blocks(b, idle, min)[i]),
    ensures
        ra.len() == rb.len(),
        forall|i: int|
            0 <= i < ra.len() ==> {
                &&& (#[trigger] ra[i]).start == rb[i].start
                &&& ra[i].end == rb[i].end
                &&& ra[i].project_id == rb[i].project_id
                &&& ra[i].activity_id == rb[i].activity_id
                &&& ra[i].event_count == rb[i].event_count
                &&& ra[i].description@ == rb[i].description@
            },
{
    law_merge_ignores_order(a, b, idle, min);
    assert forall|i: int| 0 <= i < ra.len() implies {
        &&& (#[trigger] ra[i]).start == rb[i].start
        &&& ra[i].end == rb[i].end
        &&& ra[i].project_id == rb[i].project_id
        &&& ra[i].activity_id == rb[i].activity_id
        &&& ra[i].event_count == rb[i].event_count
        &&& ra[i].description@ == rb[i].description@
    } by {
        assert(rb[i].models(merged_blocks(a, idle, min)[i]));
        law_model_fixes_block(ra[i], rb[i], merged_blocks(a, idle, min)[i]);
    }
}

/// Total number of events in a sequence of blocks.
pub open spec fn total_events(bs: Seq<BlockModel>) -> int
    decreases bs.len(),
{
    if bs.len() == 0 {
        0
    } else {
        total_events(bs.drop_last()) + bs.last().event_count
    }
}

proof fn lemma_scan_total(s: Seq<ClassifiedView>, idle: int)
    requires
        s.len() >= 1,
    ensures
        total_events(scan(s, idle).0) + scan(s, idle).1.event_count == s.len(),
    decreases s.len(),
{
    if s.len() > 1 {
        let p = s.drop_last();
        lemma_scan_total(p, idle);
        let (d, c) = scan(p, idle);
        assert(d.push(c).drop_last() =~= d);
    }
}

/// Every event lands in exactly one block: before short blocks are dropped,
/// the blocks' event counts add up to the number of events.
pub proof fn law_every_event_in_one_block(s: Seq<ClassifiedView>, idle: int)
    ensures
        total_events(all_blocks(sort_by_start(s), idle)) == s.len(),
{
    let t = sort_by_start(s);
    law_sort_by_start(s);
    if t.len() > 0 {
        lemma_scan_total(t, idle);
        let (d, c) = scan(t, idle);
        assert(d.push(c).drop_last() =~= d);
    }
}

/// A description is determined by the details: there is only one way to list
/// them most-seconds-first.
pub proof fn law_ranking_unique(d: Seq<DetailEntry>, r1: Seq<DetailEntry>, r2: Seq<DetailEntry>)
    requires
        ranked(d, r1),
        ranked(d, r2),
    ensures
        r1 == r2,
{
    lemma_sorted_same_elements(r1, r2);
}

proof fn lemma_sorted_same_elements(r1: Seq<DetailEntry>, r2: Seq<DetailEntry>)
    requires
        forall|x: DetailEntry| r1.contains(x) <==> r2.contains(x),
        forall|i: int, j: int| 0 <= i < j < r1.len() ==> ranks_before(#[trigger] r1[i], #[trigger] r1[j]),
        forall|i: int, j: int| 0 <= i < j < r2.len() ==> ranks_before(#[trigger] r2[i], #[trigger] r2[j]),
    ensures
        r1 == r2,
    decreases r1.len(),
{
    if r1.len() == 0 {
        if r2.len() > 0 {
            assert(r2.contains(r2[0]));
        }
        assert(r1 =~= r2);
    } else {
        assert(r1.contains(r1[0]));
        assert(r2.len() > 0);
        assert(r2.contains(r2[0]));
        if r1[0] != r2[0] {
            let a = choose|a: int| 0 <= a < r1.len() && r1[a] == r2[0];
            let b = choose|b: int| 0 <= b < r2.len() && r2[b] == r1[0];
            assert(a > 0 && b > 0);
            assert(ranks_before(r1[0], r1[a]));
            assert(ranks_before(r2[0], r2[b]));
            lemma_rank_order(r1[0], r2[0], r1[0]);
        }
        let t1 = r1.drop_first();
        let t2 = r2.drop_first();
        assert forall|x: DetailEntry| t1.contains(x) <==> t2.contains(x) by {
            if t1.contains(x) {
                let a = choose|a: int| 0 <= a < t1.len() && t1[a] == x;
                assert(r1[a + 1] == x);
                assert(ranks_before(r1[0], r1[a + 1]));
                lemma_rank_order(r1[0], r1[0], r1[0]);
                assert(r2.contains(x));
                let b = choose|b: int| 0 <= b < r2.len() && r2[b] == x;
                assert(b != 0);
                assert(t2[b - 1] == x);
            }
            if t2.contains(x) {
                let a = choose|a: int| 0 <= a < t2.len() && t2[a] == x;
                assert(r2[a + 1] == x);
                assert(ranks_before(r2[0], r2[a + 1]));
                lemma_rank_order(r2[0], r2[0], r2[0]);
                assert(r1.contains(x));
                let b = choose|b: int| 0 <= b < r1.len() && r1[b] == x;
                assert(b != 0);
                assert(t1[b - 1] == x);
            }
        }
        assert forall|i: int, j: int| 0 <= i < j < t1.len() implies ranks_before(#[trigger] t1[i], #[trigger] t1[j]) by {
            assert(ranks_before(r1[i + 1], r1[j + 1]));
        }
        assert forall|i: int, j: int| 0 <= i < j < t2.len() implies ranks_before(#[trigger] t2[i], #[trigger] t2[j]) by {
            assert(ranks_before(r2[i + 1], r2[j + 1]));
        }
        lemma_sorted_same_elements(t1, t2);
        assert(r1 =~= seq![r1[0]] + t1);
        assert(r2 =~= seq![r2[0]] + t2);
    }
}

} // verus!
