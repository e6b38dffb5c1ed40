//! AFK overlap handling.
//!
//! ActivityWatch's window watcher keeps emitting events for whatever window
//! has focus, even if the user has stepped away from the machine. To avoid
//! billing time the user wasn't actually working, we subtract the intervals
//! reported by the AFK watcher from each window event.

use vstd::prelude::*;
use crate::aw_client::{AfkEvent, AwEvent, time_ok};

verus! {

/// A half-open AFK interval `[start, end)`, in epoch milliseconds.
pub type AfkInterval = (i64, i64);

/// `t` lies inside the half-open interval.
pub open spec fn in_interval(iv: AfkInterval, t: int) -> bool {
    iv.0 <= t < iv.1
}

/// `t` lies inside one of the intervals.
pub open spec fn covered(ivs: Seq<AfkInterval>, t: int) -> bool {
    exists|i: int| 0 <= i < ivs.len() && #[trigger] in_interval(ivs[i], t)
}

/// An AFK event counts for subtraction: it reports the user away and spans a
/// positive amount of time.
pub open spec fn counts_as_afk(e: AfkEvent) -> bool {
    e.spec_is_afk() && e.end_ms() > e.timestamp_ms
}

/// `t` lies inside an event that reports the user away.
pub open spec fn afk_at(evs: Seq<AfkEvent>, t: int) -> bool {
    exists|i: int|
        0 <= i < evs.len() && #[trigger] counts_as_afk(evs[i]) && evs[i].timestamp_ms <= t
            < evs[i].end_ms()
}

/// Every interval is non-empty and each one ends strictly before the next
/// one starts: sorted, non-overlapping and non-touching.
pub open spec fn separated(ivs: Seq<AfkInterval>) -> bool {
    &&& forall|i: int| 0 <= i < ivs.len() ==> #[trigger] ivs[i].0 < ivs[i].1
    &&& forall|i: int, j: int| 0 <= i < j < ivs.len() ==> #[trigger] ivs[i].1 < #[trigger] ivs[j].0
}

/// Intervals in ascending order of their start.
pub open spec fn sorted_by_start(ivs: Seq<AfkInterval>) -> bool {
    forall|i: int, j: int| 0 <= i < j < ivs.len() ==> #[trigger] ivs[i].0 <= #[trigger] ivs[j].0
}

pub open spec fn all_wf(evs: Seq<AfkEvent>) -> bool {
    forall|i: int| 0 <= i < evs.len() ==> #[trigger] evs[i].wf()
}

proof fn lemma_covered_push(s: Seq<AfkInterval>, x: AfkInterval, t: int)
    ensures
        covered(s.push(x), t) == (covered(s, t) || in_interval(x, t)),
{
    let s2 = s.push(x);
    if covered(s2, t) {
        let i = choose|i: int| 0 <= i < s2.len() && #[trigger] in_interval(s2[i], t);
        if i < s.len() {
            assert(in_interval(s[i], t));
        }
    }
    if covered(s, t) {
        let i = choose|i: int| 0 <= i < s.len() && #[trigger] in_interval(s[i], t);
        assert(in_interval(s2[i], t));
    }
    if in_interval(x, t) {
        assert(in_interval(s2[s.len() as int], t));
    }
}

proof fn lemma_afk_at_take(evs: Seq<AfkEvent>, i: int, t: int)
    requires
        0 <= i < evs.len(),
    ensures
        afk_at(evs.take(i + 1), t) == (afk_at(evs.take(i), t) || (counts_as_afk(evs[i])
            && evs[i].timestamp_ms <= t < evs[i].end_ms())),
{
    let a = evs.take(i + 1);
    let b = evs.take(i);
    if afk_at(a, t) {
        let k = choose|k: int|
            0 <= k < a.len() && #[trigger] counts_as_afk(a[k]) && a[k].timestamp_ms <= t
                < a[k].end_ms();
        if k < i {
            assert(counts_as_afk(b[k]));
        }
    }
    if afk_at(b, t) {
        let k = choose|k: int|
            0 <= k < b.len() && #[trigger] counts_as_afk(b[k]) && b[k].timestamp_ms <= t
                < b[k].end_ms();
        assert(counts_as_afk(a[k]));
    }
    if counts_as_afk(evs[i]) && evs[i].timestamp_ms <= t < evs[i].end_ms() {
        assert(counts_as_afk(a[i]));
    }
}

pub(crate) proof fn lemma_insert_contains<A>(s: Seq<A>, j: int, x: A, y: A)
    requires
        0 <= j <= s.len(),
    ensures
        s.insert(j, x).contains(y) == (s.contains(y) || y == x),
{
    let s2 = s.insert(j, x);
    if s2.contains(y) {
        let k = choose|k: int| 0 <= k < s2.len() && s2[k] == y;
        if k < j {
            assert(s[k] == y);
        } else if k > j {
            assert(s[k - 1] == y);
        }
    }
    if s.contains(y) {
        let k = choose|k: int| 0 <= k < s.len() && s[k] == y;
        if k < j {
            assert(s2[k] == y);
        } else {
            assert(s2[k + 1] == y);
        }
    }
    if y == x {
        assert(s2[j] == y);
    }
}

proof fn lemma_take_contains<A>(s: Seq<A>, i: int, y: A)
    requires
        0 <= i < s.len(),
    ensures
        s.take(i + 1).contains(y) == (s.take(i).contains(y) || y == s[i]),
{
    assert(s.take(i + 1) =~= s.take(i).push(s[i]));
    let a = s.take(i).push(s[i]);
    if a.contains(y) {
        let k = choose|k: int| 0 <= k < a.len() && a[k] == y;
        if k < i {
            assert(s.take(i)[k] == y);
        }
    }
    if s.take(i).contains(y) {
        let k = choose|k: int| 0 <= k < i && s.take(i)[k] == y;
        assert(a[k] == y);
    }
    if y == s[i] {
        assert(a[i] == y);
    }
}

proof fn lemma_covered_same_elements(a: Seq<AfkInterval>, b: Seq<AfkInterval>, t: int)
    requires
        forall|x: AfkInterval| a.contains(x) <==> b.contains(x),
    ensures
        covered(a, t) == covered(b, t),
{
    if covered(a, t) {
        let i = choose|i: int| 0 <= i < a.len() && #[trigger] in_interval(a[i], t);
        assert(a.contains(a[i]));
        let k = choose|k: int| 0 <= k < b.len() && b[k] == a[i];
        assert(in_interval(b[k], t));
    }
    if covered(b, t) {
        let i = choose|i: int| 0 <= i < b.len() && #[trigger] in_interval(b[i], t);
        assert(b.contains(b[i]));
        let k = choose|k: int| 0 <= k < a.len() && a[k] == b[i];
        assert(in_interval(a[k], t));
    }
}

/// Sort intervals by start (insertion sort, stable).
fn sort_by_start(src: Vec<AfkInterval>) -> (r: Vec<AfkInterval>)
    ensures
        sorted_by_start(r@),
        forall|x: AfkInterval| r@.contains(x) <==> src@.contains(x),
{
    let mut v: Vec<AfkInterval> = Vec::with_capacity(src.len());
    let n = src.len();
    let mut i: usize = 0;
    while i < n
        invariant
            n == src@.len(),
            i <= n,
            sorted_by_start(v@),
            forall|x: AfkInterval| v@.contains(x) <==> src@.take(i as int).contains(x),
        decreases n - i,
    {
        let x = src[i];
        let mut j: usize = v.len();
        while j > 0 && v[j - 1].0 > x.0
            invariant
                j <= v@.len(),
                forall|k: int| j <= k < v@.len() ==> v@[k].0 > x.0,
            decreases j,
        {
            j = j - 1;
        }
        let ghost old_v = v@;
        v.insert(j, x);
        proof {
            assert forall|a: int, b: int| 0 <= a < b < v@.len() implies #[trigger] v@[a].0
                <= #[trigger] v@[b].0 by {
                if b < j {
                    assert(old_v[a].0 <= old_v[b].0);
                } else if b == j {
                    if a < j - 1 {
                        assert(old_v[a].0 <= old_v[j - 1].0);
                    }
                } else if a < j {
                    assert(old_v[a].0 <= old_v[b - 1].0);
                } else if a == j {
                } else {
                    assert(old_v[a - 1].0 <= old_v[b - 1].0);
                }
            }
            assert forall|y: AfkInterval| v@.contains(y) <==> src@.take(i + 1).contains(y) by {
                lemma_insert_contains(old_v, j as int, x, y);
                lemma_take_contains(src@, i as int, y);
            }
        }
        i = i + 1;
    }
    assert(src@.take(n as int) =~= src@);
    v
}

/// Convert raw AFK events into the list of intervals we want to subtract.
/// We only care about events whose `data.status == "afk"`.
///
/// The result is the union of the away spans, written as sorted, separated
/// intervals: a time is covered by the result exactly when some AFK event
/// covers it.
pub fn intervals_from_events(events: &[AfkEvent]) -> (r: Vec<AfkInterval>)
    requires
        all_wf(events@),
    ensures
        separated(r@),
        forall|t: int| covered(r@, t) == afk_at(events@, t),
{
    let n = events.len();
    let mut raw: Vec<AfkInterval> = Vec::new();
    let mut i: usize = 0;
    while i < n
        invariant
            n == events@.len(),
            i <= n,
            all_wf(events@),
            forall|k: int| 0 <= k < raw@.len() ==> #[trigger] raw@[k].0 < raw@[k].1,
            forall|t: int| covered(raw@, t) == afk_at(events@.take(i as int), t),
        decreases n - i,
    {
        let e = &events[i];
        assert(e.wf());
        let ghost old_raw = raw@;
        if e.is_afk() {
            let s = e.timestamp_ms;
            let end = e.end();
            if end > s {
                raw.push((s, end));
            }
        }
        proof {
            assert forall|t: int| covered(raw@, t) == afk_at(events@.take(i + 1), t) by {
                lemma_afk_at_take(events@, i as int, t);
                if raw@.len() > old_raw.len() {
                    lemma_covered_push(old_raw, raw@.last(), t);
                    assert(raw@ == old_raw.push(raw@.last()));
                }
            }
        }
        i = i + 1;
    }
    assert(events@.take(n as int) =~= events@);
    let ghost raw_v = raw@;
    let sorted = sort_by_start(raw);
    proof {
        assert forall|k: int| 0 <= k < sorted@.len() implies #[trigger] sorted@[k].0
            < sorted@[k].1 by {
            assert(sorted@.contains(sorted@[k]));
            let m = choose|m: int| 0 <= m < raw_v.len() && raw_v[m] == sorted@[k];
            assert(raw_v[m].0 < raw_v[m].1);
        }
        assert forall|t: int| covered(sorted@, t) == afk_at(events@, t) by {
            lemma_covered_same_elements(sorted@, raw_v, t);
        }
    }

    // Sort + merge touching/overlapping intervals so downstream clipping is O(n).
    let m = sorted.len();
    let mut merged: Vec<AfkInterval> = Vec::with_capacity(m);
    let mut k: usize = 0;
    while k < m
        invariant
            m == sorted@.len(),
            k <= m,
            sorted_by_start(sorted@),
            forall|q: int| 0 <= q < m ==> #[trigger] sorted@[q].0 < sorted@[q].1,
            separated(merged@),
            k == 0 <==> merged@.len() == 0,
            merged@.len() > 0 ==> forall|q: int|
                k <= q < m ==> merged@.last().0 <= #[trigger] sorted@[q].0,
            forall|t: int| covered(merged@, t) == covered(sorted@.take(k as int), t),
        decreases m - k,
    {
        let (s, e) = sorted[k];
        let ghost old_m = merged@;
        proof {
            assert(sorted@[k as int].0 < sorted@[k as int].1);
        }
        if merged.len() > 0 && merged[merged.len() - 1].1 >= s {
            let last_i = merged.len() - 1;
            let last = merged[last_i];
            if e > last.1 {
                merged.set(last_i, (last.0, e));
            }
            proof {
                let nl = merged@.last();
                assert forall|t: int| covered(merged@, t) == covered(sorted@.take(k + 1), t) by {
                    lemma_covered_push(sorted@.take(k as int), (s, e), t);
                    assert(sorted@.take(k + 1) =~= sorted@.take(k as int).push((s, e)));
                    lemma_covered_push(old_m.drop_last(), last, t);
                    lemma_covered_push(old_m.drop_last(), nl, t);
                    assert(old_m =~= old_m.drop_last().push(last));
                    assert(merged@ =~= old_m.drop_last().push(nl));
                }
                assert forall|q: int| k + 1 <= q < m implies merged@.last().0
                    <= #[trigger] sorted@[q].0 by {}
                assert forall|a: int, b: int| 0 <= a < b < merged@.len() implies #[trigger] merged@[a].1
                    < #[trigger] merged@[b].0 by {
                    assert(old_m[a].1 < old_m[b].0);
                }
            }
        } else {
            merged.push((s, e));
            proof {
                assert forall|t: int| covered(merged@, t) == covered(sorted@.take(k + 1), t) by {
                    lemma_covered_push(sorted@.take(k as int), (s, e), t);
                    assert(sorted@.take(k + 1) =~= sorted@.take(k as int).push((s, e)));
                    lemma_covered_push(old_m, (s, e), t);
                }
                assert forall|q: int| k + 1 <= q < m implies merged@.last().0
                    <= #[trigger] sorted@[q].0 by {
                    assert(sorted@[k as int].0 <= sorted@[q].0);
                }
                assert forall|a: int, b: int| 0 <= a < b < merged@.len() implies #[trigger] merged@[a].1
                    < #[trigger] merged@[b].0 by {
                    if b == merged@.len() - 1 {
                        if a < old_m.len() - 1 {
                            assert(old_m[a].1 < old_m.last().0);
                        }
                    } else {
                        assert(old_m[a].1 < old_m[b].0);
                    }
                }
            }
        }
        k = k + 1;
    }
    assert(sorted@.take(m as int) =~= sorted@);
    merged
}


// ── clipping window events against AFK intervals ────────────────────────────

pub open spec fn imax(a: i64, b: i64) -> i64 {
    if a >= b {
        a
    } else {
        b
    }
}

pub open spec fn imin(a: i64, b: i64) -> i64 {
    if a <= b {
        a
    } else {
        b
    }
}

/// The part of `iv` that lies within `[s, e)` (empty when `.1 <= .0`).
pub open spec fn overlap(iv: AfkInterval, s: i64, e: i64) -> AfkInterval {
    (imax(iv.0, s), imin(iv.1, e))
}

/// The non-empty parts of the AFK intervals that fall within `[s, e)`, in the
/// order of the intervals.
pub open spec fn touching(ivs: Seq<AfkInterval>, s: i64, e: i64) -> Seq<AfkInterval>
    decreases ivs.len(),
{
    if ivs.len() == 0 {
        seq![]
    } else {
        let rest = touching(ivs.drop_last(), s, e);
        let c = overlap(ivs.last(), s, e);
        if c.1 > c.0 {
            rest.push(c)
        } else {
            rest
        }
    }
}

/// Fragments shorter than this many milliseconds are not kept.
pub open spec fn min_fragment_ms() -> int {
    1000
}

/// The piece `[start, end)` of `src` as an event of its own, when it lasts at
/// least a second; nothing otherwise.
pub open spec fn fragment(src: AwEvent, start: i64, end: i64) -> Seq<AwEvent> {
    if end - start >= min_fragment_ms() {
        seq![AwEvent { id: src.id, timestamp_ms: start, duration_ms: (end - start) as i64, data: src.data }]
    } else {
        seq![]
    }
}

/// The surviving pieces of `src` between `cursor` and `end` once the
/// (start-ordered) AFK parts `touch` are cut out.
pub open spec fn pieces(src: AwEvent, touch: Seq<AfkInterval>, cursor: i64, end: i64) -> Seq<AwEvent>
    decreases touch.len(),
{
    if touch.len() == 0 {
        fragment(src, cursor, end)
    } else {
        fragment(src, cursor, touch[0].0) + pieces(src, touch.drop_first(), imax(cursor, touch[0].1), end)
    }
}

/// What clipping does to one event: an event that no AFK interval touches is
/// kept as it is; otherwise it is replaced by its surviving pieces.
pub open spec fn clip_one(ev: AwEvent, ivs: Seq<AfkInterval>) -> Seq<AwEvent> {
    let t = touching(ivs, ev.timestamp_ms, ev.end_ms() as i64);
    if t.len() == 0 {
        seq![ev]
    } else {
        pieces(ev, t, ev.timestamp_ms, ev.end_ms() as i64)
    }
}

/// Clipping every event, in order.
pub open spec fn clip_all(evs: Seq<AwEvent>, ivs: Seq<AfkInterval>) -> Seq<AwEvent>
    decreases evs.len(),
{
    if evs.len() == 0 {
        seq![]
    } else {
        clip_all(evs.drop_last(), ivs) + clip_one(evs.last(), ivs)
    }
}

pub open spec fn events_wf(evs: Seq<AwEvent>) -> bool {
    forall|i: int| 0 <= i < evs.len() ==> #[trigger] evs[i].wf()
}

/// Whether every window event spans instants a `DateTime<Utc>` can hold.
pub fn events_in_range(evs: &[AwEvent]) -> (r: bool)
    ensures
        r == events_wf(evs@),
{
    let n = evs.len();
    let mut i: usize = 0;
    while i < n
        invariant
            n == evs@.len(),
            i <= n,
            forall|k: int| 0 <= k < i ==> (#[trigger] evs@[k]).wf(),
        decreases n - i,
    {
        if !evs[i].in_range() {
            return false;
        }
        i = i + 1;
    }
    true
}

/// Whether every AFK event spans instants a `DateTime<Utc>` can hold.
pub fn afk_events_in_range(evs: &[AfkEvent]) -> (r: bool)
    ensures
        r == all_wf(evs@),
{
    let n = evs.len();
    let mut i: usize = 0;
    while i < n
        invariant
            n == evs@.len(),
            i <= n,
            forall|k: int| 0 <= k < i ==> (#[trigger] evs@[k]).wf(),
        decreases n - i,
    {
        if !evs[i].in_range() {
            return false;
        }
        i = i + 1;
    }
    true
}

proof fn lemma_clip_no_intervals(evs: Seq<AwEvent>, ivs: Seq<AfkInterval>)
    requires
        ivs.len() == 0,
    ensures
        clip_all(evs, ivs) == evs,
    decreases evs.len(),
{
    if evs.len() > 0 {
        lemma_clip_no_intervals(evs.drop_last(), ivs);
        assert(evs =~= evs.drop_last().push(evs.last()));
    }
}

/// Append the piece `[start, end)` of `src` when it lasts at least a second.
fn push_fragment(out: &mut Vec<AwEvent>, src: &AwEvent, start: i64, end: i64)
    requires
        time_ok(start as int),
        time_ok(end as int),
    ensures
        final(out)@ == old(out)@ + fragment(*src, start, end),
{
    if end - start < 1000 {
        assert(fragment(*src, start, end) =~= seq![]);
        assert(old(out)@ + seq![] =~= old(out)@);
        return;
    }
    out.push(AwEvent { id: src.id, timestamp_ms: start, duration_ms: end - start, data: src.data.clone() });
}

/// Subtract every AFK interval from `events`, returning the remaining active
/// fragments. An event that's fully covered by AFK is dropped; one that's
/// partially covered is split into the surviving non-AFK pieces, and pieces
/// shorter than a second are dropped.
///
/// `afk_intervals` should be sorted ascending and non-overlapping. Use
/// [`intervals_from_events`] to produce them.
pub fn clip_events(events: Vec<AwEvent>, afk_intervals: &[AfkInterval]) -> (r: Vec<AwEvent>)
    requires
        events_wf(events@),
    ensures
        r@ == clip_all(events@, afk_intervals@),
        afk_intervals@.len() == 0 ==> r@ == events@,
{
    if afk_intervals.len() == 0 {
        proof {
            lemma_clip_no_intervals(events@, afk_intervals@);
        }
        return events;
    }
    let n = events.len();
    let m = afk_intervals.len();
    let mut out: Vec<AwEvent> = Vec::with_capacity(n);
    let mut i: usize = 0;
    while i < n
        invariant
            n == events@.len(),
            m == afk_intervals@.len(),
            i <= n,
            events_wf(events@),
            out@ == clip_all(events@.take(i as int), afk_intervals@),
        decreases n - i,
    {
        let ev = &events[i];
        assert(ev.wf());
        let ev_start = ev.timestamp_ms;
        let ev_end = ev.end();

        // Find the AFK intervals that touch this event.
        let mut touch: Vec<AfkInterval> = Vec::new();
        let mut q: usize = 0;
        while q < m
            invariant
                m == afk_intervals@.len(),
                q <= m,
                touch@ == touching(afk_intervals@.take(q as int), ev_start, ev_end),
                forall|k: int|
                    0 <= k < touch@.len() ==> ev_start <= #[trigger] touch@[k].0 < touch@[k].1
                        <= ev_end,
            decreases m - q,
        {
            let (s, e) = afk_intervals[q];
            let cs = if s >= ev_start {
                s
            } else {
                ev_start
            };
            let ce = if e <= ev_end {
                e
            } else {
                ev_end
            };
            assert(afk_intervals@.take(q + 1).drop_last() =~= afk_intervals@.take(q as int));
            if ce > cs {
                touch.push((cs, ce));
            }
            q = q + 1;
        }
        assert(afk_intervals@.take(m as int) =~= afk_intervals@);
        assert(events@.take(i + 1).drop_last() =~= events@.take(i as int));

        if touch.len() == 0 {
            out.push(ev.clone());
        } else {
            // Walk left-to-right, emitting fragments between AFK windows.
            let ghost base = out@;
            let tn = touch.len();
            let mut cursor = ev_start;
            let mut k: usize = 0;
            assert(touch@.skip(0) =~= touch@);
            assert(ev_start <= touch@[0].0 < touch@[0].1 <= ev_end);
            while k < tn
                invariant
                    tn == touch@.len(),
                    k <= tn,
                    ev.wf(),
                    ev_start == ev.timestamp_ms,
                    ev_end == ev.end_ms(),
                    ev_start <= cursor <= ev_end,
                    forall|j: int|
                        0 <= j < touch@.len() ==> ev_start <= #[trigger] touch@[j].0 < touch@[j].1
                            <= ev_end,
                    out@ + pieces(*ev, touch@.skip(k as int), cursor, ev_end) == base + pieces(
                        *ev,
                        touch@,
                        ev_start,
                        ev_end,
                    ),
                decreases tn - k,
            {
                let (a_start, a_end) = touch[k];
                let ghost old_out = out@;
                let ghost old_cursor = cursor;
                assert(touch@.skip(k as int).drop_first() =~= touch@.skip(k + 1));
                assert(touch@.skip(k as int)[0] == touch@[k as int]);
                if a_start > cursor {
                    push_fragment(&mut out, ev, cursor, a_start);
                } else {
                    assert(fragment(*ev, cursor, a_start) =~= seq![]);
                    assert(out@ + seq![] =~= out@);
                }
                if a_end > cursor {
                    cursor = a_end;
                }
                assert(out@ + pieces(*ev, touch@.skip(k + 1), cursor, ev_end) =~= old_out + (
                fragment(*ev, old_cursor, a_start) + pieces(*ev, touch@.skip(k + 1), cursor, ev_end)));
                k = k + 1;
            }
            assert(touch@.skip(tn as int) =~= seq![]);
            if ev_end > cursor {
                push_fragment(&mut out, ev, cursor, ev_end);
            } else {
                assert(fragment(*ev, cursor, ev_end) =~= seq![]);
                assert(out@ + seq![] =~= out@);
            }
        }
        i = i + 1;
    }
    assert(events@.take(n as int) =~= events@);
    out
}


// ── laws of clipping ────────────────────────────────────────────────────────

/// The event `o` shares no instant with the interval `iv`: one of the two is
/// empty, or one ends before the other begins.
pub open spec fn avoids(o: AwEvent, iv: AfkInterval) -> bool {
    o.end_ms() <= o.timestamp_ms || iv.1 <= iv.0 || o.end_ms() <= iv.0 || iv.1 <= o.timestamp_ms
}

/// `o` is a piece of `ev`: it lies within `ev`'s span and carries its id and data.
pub open spec fn piece_of(o: AwEvent, ev: AwEvent) -> bool {
    &&& ev.timestamp_ms <= o.timestamp_ms
    &&& o.end_ms() <= ev.end_ms()
    &&& o.id == ev.id
    &&& o.data == ev.data
}

proof fn lemma_touching(ivs: Seq<AfkInterval>, s: i64, e: i64)
    ensures
        forall|k: int|
            0 <= k < touching(ivs, s, e).len() ==> s <= #[trigger] touching(ivs, s, e)[k].0
                < touching(ivs, s, e)[k].1 <= e,
        forall|k: int|
            0 <= k < touching(ivs, s, e).len() ==> exists|j: int|
                0 <= j < ivs.len() && #[trigger] touching(ivs, s, e)[k] == overlap(ivs[j], s, e),
        forall|j: int|
            0 <= j < ivs.len() && overlap(#[trigger] ivs[j], s, e).1 > overlap(ivs[j], s, e).0
                ==> touching(ivs, s, e).contains(overlap(ivs[j], s, e)),
        sorted_by_start(ivs) ==> sorted_by_start(touching(ivs, s, e)),
    decreases ivs.len(),
{
    if ivs.len() > 0 {
        let p = ivs.drop_last();
        lemma_touching(p, s, e);
        let rest = touching(p, s, e);
        let t = touching(ivs, s, e);
        let c = overlap(ivs.last(), s, e);
        assert forall|k: int| 0 <= k < t.len() implies exists|j: int|
            0 <= j < ivs.len() && #[trigger] t[k] == overlap(ivs[j], s, e) by {
            if k < rest.len() {
                let j = choose|j: int| 0 <= j < p.len() && #[trigger] rest[k] == overlap(p[j], s, e);
                assert(t[k] == overlap(ivs[j], s, e));
            } else {
                assert(t[k] == overlap(ivs[ivs.len() - 1], s, e));
            }
        }
        assert forall|j: int|
            0 <= j < ivs.len() && overlap(#[trigger] ivs[j], s, e).1 > overlap(ivs[j], s, e).0
                implies t.contains(overlap(ivs[j], s, e)) by {
            if j < p.len() {
                assert(p[j] == ivs[j]);
                let k = choose|k: int| 0 <= k < rest.len() && rest[k] == overlap(p[j], s, e);
                assert(t[k] == rest[k]);
            } else {
                assert(t[t.len() - 1] == c);
            }
        }
        if sorted_by_start(ivs) {
            assert forall|a: int, b: int| 0 <= a < b < t.len() implies #[trigger] t[a].0
                <= #[trigger] t[b].0 by {
                if b < rest.len() {
                    assert(rest[a].0 <= rest[b].0);
                } else {
                    let j = choose|j: int| 0 <= j < p.len() && #[trigger] rest[a] == overlap(p[j], s, e);
                    assert(ivs[j].0 <= ivs[ivs.len() - 1].0);
                }
            }
        }
    }
}

/// Everything `pieces` emits starts at or after `cursor`, ends by `end`, is a
/// piece of `src` lasting at least a second, and shares no instant with the
/// AFK parts it was cut around.
proof fn lemma_pieces(src: AwEvent, t: Seq<AfkInterval>, cursor: i64, end: i64)
    requires
        sorted_by_start(t),
        time_ok(cursor as int),
        time_ok(end as int),
        forall|k: int| 0 <= k < t.len() ==> time_ok(#[trigger] t[k].0 as int) && time_ok(t[k].1 as int) && t[k].0 <= end,
    ensures
        forall|i: int|
            0 <= i < pieces(src, t, cursor, end).len() ==> {
                let o = #[trigger] pieces(src, t, cursor, end)[i];
                &&& cursor <= o.timestamp_ms
                &&& o.end_ms() <= end
                &&& o.end_ms() - o.timestamp_ms >= min_fragment_ms()
                &&& o.id == src.id
                &&& o.data == src.data
                &&& forall|k: int| 0 <= k < t.len() ==> avoids(o, #[trigger] t[k])
            },
    decreases t.len(),
{
    if t.len() > 0 {
        let a = t[0].0;
        let b = t[0].1;
        let c2 = imax(cursor, b);
        let rest = t.drop_first();
        assert forall|x: int, y: int| 0 <= x < y < rest.len() implies #[trigger] rest[x].0
            <= #[trigger] rest[y].0 by {
            assert(t[x + 1].0 <= t[y + 1].0);
        }
        assert(time_ok(t[0].1 as int));
        lemma_pieces(src, rest, c2, end);
        let f = fragment(src, cursor, a);
        let r = pieces(src, rest, c2, end);
        let all = pieces(src, t, cursor, end);
        assert(all == f + r);
        assert forall|i: int| 0 <= i < all.len() implies {
            let o = #[trigger] all[i];
            &&& cursor <= o.timestamp_ms
            &&& o.end_ms() <= end
            &&& o.end_ms() - o.timestamp_ms >= min_fragment_ms()
            &&& o.id == src.id
            &&& o.data == src.data
            &&& forall|k: int| 0 <= k < t.len() ==> avoids(o, #[trigger] t[k])
        } by {
            let o = all[i];
            if i < f.len() {
                assert(o == f[i]);
                assert forall|k: int| 0 <= k < t.len() implies avoids(o, #[trigger] t[k]) by {
                    if k > 0 {
                        assert(t[0].0 <= t[k].0);
                    }
                }
            } else {
                assert(o == r[i - f.len()]);
                assert forall|k: int| 0 <= k < t.len() implies avoids(o, #[trigger] t[k]) by {
                    if k > 0 {
                        assert(rest[k - 1] == t[k]);
                    }
                }
            }
        }
    }
}

/// Every instant of a stretch `[x, y)` between `cursor` and `end` that lasts at
/// least a second and meets none of the AFK parts lies in an emitted piece.
proof fn lemma_pieces_cover(
    src: AwEvent,
    t: Seq<AfkInterval>,
    cursor: i64,
    end: i64,
    x: int,
    y: int,
    w: int,
)
    requires
        time_ok(cursor as int),
        time_ok(end as int),
        forall|k: int| 0 <= k < t.len() ==> time_ok(#[trigger] t[k].0 as int) && time_ok(t[k].1 as int) && t[k].0 < t[k].1,
        cursor <= x <= w < y <= end,
        y - x >= min_fragment_ms(),
        forall|k: int| 0 <= k < t.len() ==> #[trigger] t[k].1 <= x || y <= t[k].0,
    ensures
        exists|i: int|
            0 <= i < pieces(src, t, cursor, end).len() && #[trigger] pieces(src, t, cursor, end)[i].timestamp_ms <= w
                < pieces(src, t, cursor, end)[i].end_ms(),
    decreases t.len(),
{
    let all = pieces(src, t, cursor, end);
    if t.len() == 0 {
        assert(all[0].timestamp_ms <= w < all[0].end_ms());
    } else {
        let a = t[0].0;
        let b = t[0].1;
        let f = fragment(src, cursor, a);
        let rest = t.drop_first();
        let c2 = imax(cursor, b);
        let r = pieces(src, rest, c2, end);
        assert(all == f + r);
        if y <= a {
            assert(all[0] == f[0]);
            assert(all[0].timestamp_ms <= w < all[0].end_ms());
        } else {
            assert(b <= x);
            assert forall|k: int| 0 <= k < rest.len() implies time_ok(#[trigger] rest[k].0 as int)
                && time_ok(rest[k].1 as int) && rest[k].0 < rest[k].1 by {
                assert(rest[k] == t[k + 1]);
            }
            assert forall|k: int| 0 <= k < rest.len() implies #[trigger] rest[k].1 <= x || y
                <= rest[k].0 by {
                assert(rest[k] == t[k + 1]);
            }
            lemma_pieces_cover(src, rest, c2, end, x, y, w);
            let i = choose|i: int| 0 <= i < r.len() && #[trigger] r[i].timestamp_ms <= w < r[i].end_ms();
            assert(all[f.len() + i] == r[i]);
        }
    }
}

proof fn lemma_clip_one(ev: AwEvent, ivs: Seq<AfkInterval>)
    requires
        ev.wf(),
    ensures
        forall|i: int|
            0 <= i < clip_one(ev, ivs).len() ==> piece_of(#[trigger] clip_one(ev, ivs)[i], ev)
                && clip_one(ev, ivs)[i].wf(),
        sorted_by_start(ivs) ==> forall|i: int, j: int|
            0 <= i < clip_one(ev, ivs).len() && 0 <= j < ivs.len() ==> avoids(
                #[trigger] clip_one(ev, ivs)[i],
                #[trigger] ivs[j],
            ),
{
    let s = ev.timestamp_ms;
    let e = ev.end_ms() as i64;
    let t = touching(ivs, s, e);
    lemma_touching(ivs, s, e);
    let out = clip_one(ev, ivs);
    if t.len() == 0 {
        assert forall|i: int, j: int|
            0 <= i < out.len() && 0 <= j < ivs.len() implies avoids(#[trigger] out[i], #[trigger] ivs[j]) by {
            assert(out[i] == ev);
            if overlap(ivs[j], s, e).1 > overlap(ivs[j], s, e).0 {
                assert(t.contains(overlap(ivs[j], s, e)));
            }
        }
    } else {
        assert forall|k: int| 0 <= k < t.len() implies time_ok(#[trigger] t[k].0 as int) && time_ok(
            t[k].1 as int) && t[k].0 <= e by {}
        if sorted_by_start(ivs) {
            lemma_pieces(ev, t, s, e);
            assert forall|i: int, j: int|
                0 <= i < out.len() && 0 <= j < ivs.len() implies avoids(#[trigger] out[i], #[trigger] ivs[j]) by {
                let o = out[i];
                let c = overlap(ivs[j], s, e);
                if c.1 > c.0 {
                    assert(t.contains(c));
                    let k = choose|k: int| 0 <= k < t.len() && t[k] == c;
                    assert(avoids(o, t[k]));
                }
            }
        }
        lemma_pieces_within(ev, t, s, e);
    }
}

proof fn lemma_pieces_within(src: AwEvent, t: Seq<AfkInterval>, cursor: i64, end: i64)
    requires
        time_ok(cursor as int),
        time_ok(end as int),
        forall|k: int| 0 <= k < t.len() ==> time_ok(#[trigger] t[k].0 as int) && time_ok(t[k].1 as int) && t[k].0 <= end,
    ensures
        forall|i: int|
            0 <= i < pieces(src, t, cursor, end).len() ==> {
                let o = #[trigger] pieces(src, t, cursor, end)[i];
                &&& cursor <= o.timestamp_ms
                &&& o.end_ms() <= end
                &&& o.end_ms() - o.timestamp_ms >= min_fragment_ms()
                &&& o.id == src.id
                &&& o.data == src.data
            },
    decreases t.len(),
{
    if t.len() > 0 {
        let rest = t.drop_first();
        let c2 = imax(cursor, t[0].1);
        assert forall|k: int| 0 <= k < rest.len() implies time_ok(#[trigger] rest[k].0 as int)
            && time_ok(rest[k].1 as int) && rest[k].0 <= end by {
            assert(rest[k] == t[k + 1]);
        }
        assert(time_ok(t[0].1 as int));
        lemma_pieces_within(src, rest, c2, end);
        let f = fragment(src, cursor, t[0].0);
        let r = pieces(src, rest, c2, end);
        assert(pieces(src, t, cursor, end) == f + r);
        assert forall|i: int| 0 <= i < (f + r).len() implies {
            let o = #[trigger] (f + r)[i];
            &&& cursor <= o.timestamp_ms
            &&& o.end_ms() <= end
            &&& o.end_ms() - o.timestamp_ms >= min_fragment_ms()
            &&& o.id == src.id
            &&& o.data == src.data
        } by {
            if i >= f.len() {
                assert((f + r)[i] == r[i - f.len()]);
            }
        }
    }
}

/// Every piece `pieces` emits starts at `s` or where one of `ivs` ends, and
/// ends at `end` or where one of `ivs` starts; the pieces come in order and
/// do not overlap.
proof fn lemma_pieces_edges(
    src: AwEvent,
    t: Seq<AfkInterval>,
    cursor: i64,
    end: i64,
    ivs: Seq<AfkInterval>,
    s: i64,
)
    requires
        time_ok(cursor as int),
        time_ok(end as int),
        s <= cursor,
        cursor == s || cursor == end || exists|j: int| 0 <= j < ivs.len() && #[trigger] ivs[j].1 == cursor,
        forall|k: int|
            0 <= k < t.len() ==> time_ok((#[trigger] t[k]).0 as int) && time_ok(t[k].1 as int) && s
                <= t[k].0 < t[k].1 <= end,
        forall|k: int|
            0 <= k < t.len() ==> exists|j: int|
                0 <= j < ivs.len() && #[trigger] t[k] == overlap(ivs[j], s, end),
    ensures
        forall|i: int|
            0 <= i < pieces(src, t, cursor, end).len() ==> {
                let o = #[trigger] pieces(src, t, cursor, end)[i];
                &&& (o.timestamp_ms == s || exists|j: int|
                    0 <= j < ivs.len() && #[trigger] ivs[j].1 == o.timestamp_ms)
                &&& (o.end_ms() == end || exists|j: int|
                    0 <= j < ivs.len() && #[trigger] ivs[j].0 == o.end_ms())
            },
        forall|i: int, k: int|
            0 <= i < k < pieces(src, t, cursor, end).len() ==> (#[trigger] pieces(src, t, cursor, end)[i]).end_ms()
                <= (#[trigger] pieces(src, t, cursor, end)[k]).timestamp_ms,
    decreases t.len(),
{
    assert forall|k: int| 0 <= k < t.len() implies time_ok(#[trigger] t[k].0 as int) && time_ok(
        t[k].1 as int) && t[k].0 <= end by {
        assert(time_ok(t[k].0 as int));
    }
    lemma_pieces_within(src, t, cursor, end);
    if t.len() > 0 {
        let rest = t.drop_first();
        let c2 = imax(cursor, t[0].1);
        assert forall|k: int| 0 <= k < rest.len() implies time_ok((#[trigger] rest[k]).0 as int)
            && time_ok(rest[k].1 as int) && s <= rest[k].0 < rest[k].1 <= end by {
            assert(rest[k] == t[k + 1]);
        }
        assert forall|k: int| 0 <= k < rest.len() implies exists|j: int|
            0 <= j < ivs.len() && #[trigger] rest[k] == overlap(ivs[j], s, end) by {
            assert(rest[k] == t[k + 1]);
        }
        let j0 = choose|j: int| 0 <= j < ivs.len() && #[trigger] t[0] == overlap(ivs[j], s, end);
        if c2 != cursor && c2 != end {
            assert(ivs[j0].1 == c2);
        }
        lemma_pieces_edges(src, rest, c2, end, ivs, s);
        lemma_pieces_within(src, rest, c2, end);
        let f = fragment(src, cursor, t[0].0);
        let r = pieces(src, rest, c2, end);
        assert(pieces(src, t, cursor, end) == f + r);
        if f.len() > 0 {
            assert(t[0].0 > cursor);
            assert(ivs[j0].0 == t[0].0);
            assert(cursor != end);
        }
        assert forall|i: int| 0 <= i < (f + r).len() implies {
            let o = #[trigger] (f + r)[i];
            &&& (o.timestamp_ms == s || exists|j: int|
                0 <= j < ivs.len() && #[trigger] ivs[j].1 == o.timestamp_ms)
            &&& (o.end_ms() == end || exists|j: int|
                0 <= j < ivs.len() && #[trigger] ivs[j].0 == o.end_ms())
        } by {
            if i >= f.len() {
                assert((f + r)[i] == r[i - f.len()]);
            } else {
                assert((f + r)[i] == f[0]);
                assert(ivs[j0].0 == f[0].end_ms());
            }
        }
        assert forall|i: int, k: int| 0 <= i < k < (f + r).len() implies (#[trigger] (f + r)[i]).end_ms()
            <= (#[trigger] (f + r)[k]).timestamp_ms by {
            if i >= f.len() {
                assert((f + r)[i] == r[i - f.len()]);
                assert((f + r)[k] == r[k - f.len()]);
            } else {
                assert((f + r)[i] == f[0]);
                assert((f + r)[k] == r[k - f.len()]);
                assert(c2 <= r[k - f.len()].timestamp_ms);
            }
        }
    }
}

/// Clipping cuts only at AFK edges: every piece of an event starts at the
/// event's start or where an AFK interval ends, and ends at the event's end
/// or where an AFK interval starts; an event's pieces come in order of time
/// and do not overlap. With `law_clip_avoids_afk` and
/// `law_clip_keeps_active_time`, the pieces are the maximal stretches of the
/// event outside the AFK intervals, those shorter than a second left out.
pub proof fn law_clip_cuts_at_afk_edges(ev: AwEvent, ivs: Seq<AfkInterval>)
    requires
        ev.wf(),
    ensures
        forall|i: int|
            0 <= i < clip_one(ev, ivs).len() ==> {
                let o = #[trigger] clip_one(ev, ivs)[i];
                &&& (o.timestamp_ms == ev.timestamp_ms || exists|j: int|
                    0 <= j < ivs.len() && #[trigger] ivs[j].1 == o.timestamp_ms)
                &&& (o.end_ms() == ev.end_ms() || exists|j: int|
                    0 <= j < ivs.len() && #[trigger] ivs[j].0 == o.end_ms())
            },
        forall|i: int, k: int|
            0 <= i < k < clip_one(ev, ivs).len() ==> (#[trigger] clip_one(ev, ivs)[i]).end_ms()
                <= (#[trigger] clip_one(ev, ivs)[k]).timestamp_ms,
{
    let s = ev.timestamp_ms;
    let e = ev.end_ms() as i64;
    let t = touching(ivs, s, e);
    lemma_touching(ivs, s, e);
    if t.len() > 0 {
        assert forall|k: int| 0 <= k < t.len() implies time_ok((#[trigger] t[k]).0 as int) && time_ok(
            t[k].1 as int) && s <= t[k].0 < t[k].1 <= e by {}
        lemma_pieces_edges(ev, t, s, e, ivs, s);
    }
}

/// Clipping only ever cuts events down: every output event is a piece of an
/// input event — inside its time span, with its id and its window data.
pub proof fn law_clip_yields_pieces(evs: Seq<AwEvent>, ivs: Seq<AfkInterval>)
    requires
        events_wf(evs),
    ensures
        forall|k: int|
            0 <= k < clip_all(evs, ivs).len() ==> exists|i: int|
                0 <= i < evs.len() && piece_of(#[trigger] clip_all(evs, ivs)[k], evs[i]),
        events_wf(clip_all(evs, ivs)),
    decreases evs.len(),
{
    if evs.len() > 0 {
        let p = evs.drop_last();
        law_clip_yields_pieces(p, ivs);
        lemma_clip_one(evs.last(), ivs);
        let a = clip_all(p, ivs);
        let b = clip_one(evs.last(), ivs);
        assert forall|k: int| 0 <= k < (a + b).len() implies exists|i: int|
            0 <= i < evs.len() && piece_of(#[trigger] (a + b)[k], evs[i]) by {
            if k < a.len() {
                let i = choose|i: int| 0 <= i < p.len() && piece_of(#[trigger] a[k], p[i]);
                assert(piece_of((a + b)[k], evs[i]));
            } else {
                assert(piece_of(b[k - a.len()], evs[evs.len() - 1]));
                assert(piece_of((a + b)[k], evs[evs.len() - 1]));
            }
        }
        assert forall|k: int| 0 <= k < (a + b).len() implies (#[trigger] (a + b)[k]).wf() by {
            if k < a.len() {
                assert(a[k].wf());
            } else {
                assert(b[k - a.len()].wf());
            }
        }
    }
}

/// No time the user was away is billed: with the AFK intervals in ascending
/// order of their start, no clipped event shares an instant with any AFK
/// interval.
pub proof fn law_clip_avoids_afk(evs: Seq<AwEvent>, ivs: Seq<AfkInterval>)
    requires
        events_wf(evs),
        sorted_by_start(ivs),
    ensures
        forall|k: int, j: int|
            0 <= k < clip_all(evs, ivs).len() && 0 <= j < ivs.len() ==> avoids(
                #[trigger] clip_all(evs, ivs)[k],
                #[trigger] ivs[j],
            ),
    decreases evs.len(),
{
    if evs.len() > 0 {
        let p = evs.drop_last();
        law_clip_avoids_afk(p, ivs);
        lemma_clip_one(evs.last(), ivs);
        let a = clip_all(p, ivs);
        let b = clip_one(evs.last(), ivs);
        assert forall|k: int, j: int| 0 <= k < (a + b).len() && 0 <= j < ivs.len() implies avoids(
            #[trigger] (a + b)[k],
            #[trigger] ivs[j],
        ) by {
            if k < a.len() {
                assert(avoids(a[k], ivs[j]));
            } else {
                assert(avoids(b[k - a.len()], ivs[j]));
            }
        }
    }
}

/// Active time is kept: when a stretch `[x, y)` of an input event lasts at
/// least a second and meets no AFK interval, every instant of it lies in some
/// clipped event.
pub proof fn law_clip_keeps_active_time(
    evs: Seq<AwEvent>,
    ivs: Seq<AfkInterval>,
    i: int,
    x: int,
    y: int,
    w: int,
)
    requires
        events_wf(evs),
        0 <= i < evs.len(),
        evs[i].timestamp_ms <= x <= w < y <= evs[i].end_ms(),
        y - x >= min_fragment_ms(),
        forall|j: int| 0 <= j < ivs.len() ==> #[trigger] ivs[j].1 <= x || y <= ivs[j].0 || ivs[j].1 <= ivs[j].0,
    ensures
        exists|k: int|
            0 <= k < clip_all(evs, ivs).len() && #[trigger] clip_all(evs, ivs)[k].timestamp_ms <= w
                < clip_all(evs, ivs)[k].end_ms(),
    decreases evs.len(),
{
    let p = evs.drop_last();
    let a = clip_all(p, ivs);
    let ev = evs.last();
    let b = clip_one(ev, ivs);
    assert(clip_all(evs, ivs) == a + b);
    if i < evs.len() - 1 {
        assert(p[i] == evs[i]);
        assert(events_wf(p));
        law_clip_keeps_active_time(p, ivs, i, x, y, w);
        let k = choose|k: int| 0 <= k < a.len() && #[trigger] a[k].timestamp_ms <= w < a[k].end_ms();
        assert((a + b)[k] == a[k]);
    } else {
        assert(ev.wf());
        let s = ev.timestamp_ms;
        let e = ev.end_ms() as i64;
        let t = touching(ivs, s, e);
        lemma_touching(ivs, s, e);
        if t.len() == 0 {
            assert((a + b)[a.len() as int] == ev);
        } else {
            assert forall|k: int| 0 <= k < t.len() implies time_ok(#[trigger] t[k].0 as int) && time_ok(
                t[k].1 as int) && t[k].0 < t[k].1 by {}
            assert forall|k: int| 0 <= k < t.len() implies #[trigger] t[k].1 <= x || y <= t[k].0 by {
                let j = choose|j: int| 0 <= j < ivs.len() && #[trigger] t[k] == overlap(ivs[j], s, e);
                assert(ivs[j].1 <= x || y <= ivs[j].0 || ivs[j].1 <= ivs[j].0);
            }
            lemma_pieces_cover(ev, t, s, e, x, y, w);
            let k = choose|k: int| 0 <= k < b.len() && #[trigger] b[k].timestamp_ms <= w < b[k].end_ms();
            assert((a + b)[a.len() + k] == b[k]);
        }
    }
}

/// No AFK interval overlaps the span of `ev` for a positive length.
pub open spec fn untouched(ev: AwEvent, ivs: Seq<AfkInterval>) -> bool {
    forall|j: int|
        0 <= j < ivs.len() ==> overlap(#[trigger] ivs[j], ev.timestamp_ms, ev.end_ms() as i64).1 <= overlap(
            ivs[j],
            ev.timestamp_ms,
            ev.end_ms() as i64,
        ).0
}

/// `[x, y)` lies within the span of `ev`, lasts at least a second, and no
/// instant of it is covered by an AFK interval.
pub open spec fn active_stretch(ev: AwEvent, ivs: Seq<AfkInterval>, x: int, y: int) -> bool {
    &&& ev.timestamp_ms <= x < y <= ev.end_ms()
    &&& y - x >= min_fragment_ms()
    &&& forall|t: int| x <= t < y ==> !#[trigger] covered(ivs, t)
}

pub open spec fn within(x: int, y: int, w: int) -> bool {
    x <= w < y
}

/// Clipping one event against separated AFK intervals (as
/// `intervals_from_events` gives them) keeps exactly the maximal AFK-free
/// pieces of its span that last at least a second:
/// - an event that no interval overlaps for a positive length is kept as it is;
/// - otherwise every piece lies within the event, carries its id and data,
///   lasts at least a second and contains no AFK instant; it starts at the
///   event's start or right after AFK time, and ends at the event's end or
///   right where AFK time begins; the pieces come in order without overlap;
/// - and every instant of an AFK-free stretch of at least a second lies in a
///   piece.
pub proof fn law_clip_maximal_pieces(ev: AwEvent, ivs: Seq<AfkInterval>)
    requires
        ev.wf(),
        separated(ivs),
    ensures
        untouched(ev, ivs) ==> clip_one(ev, ivs) == seq![ev],
        !untouched(ev, ivs) ==> forall|i: int|
            0 <= i < clip_one(ev, ivs).len() ==> {
                let o = #[trigger] clip_one(ev, ivs)[i];
                &&& piece_of(o, ev)
                &&& o.end_ms() - o.timestamp_ms >= min_fragment_ms()
                &&& forall|t: int| o.timestamp_ms <= t < o.end_ms() ==> !#[trigger] covered(ivs, t)
                &&& (o.timestamp_ms == ev.timestamp_ms || covered(ivs, o.timestamp_ms - 1))
                &&& (o.end_ms() == ev.end_ms() || covered(ivs, o.end_ms()))
            },
        forall|i: int, k: int|
            0 <= i < k < clip_one(ev, ivs).len() ==> (#[trigger] clip_one(ev, ivs)[i]).end_ms()
                <= (#[trigger] clip_one(ev, ivs)[k]).timestamp_ms,
        forall|x: int, y: int, w: int|
            #![trigger active_stretch(ev, ivs, x, y), within(x, y, w)]
            active_stretch(ev, ivs, x, y) && within(x, y, w) ==> exists|k: int|
                0 <= k < clip_one(ev, ivs).len() && #[trigger] clip_one(ev, ivs)[k].timestamp_ms <= w
                    < clip_one(ev, ivs)[k].end_ms(),
{
    let s = ev.timestamp_ms;
    let e = ev.end_ms() as i64;
    let t = touching(ivs, s, e);
    let one = seq![ev];
    let out = clip_one(ev, ivs);
    lemma_touching(ivs, s, e);
    law_separated_is_sorted(ivs);
    assert(one.drop_last() =~= Seq::<AwEvent>::empty());
    assert(one.last() == ev);
    assert(clip_all(one.drop_last(), ivs) =~= Seq::<AwEvent>::empty());
    assert(clip_all(one, ivs) == clip_all(one.drop_last(), ivs) + clip_one(one.last(), ivs));
    assert(clip_all(one, ivs) =~= out);
    assert(events_wf(one));
    law_clip_cuts_at_afk_edges(ev, ivs);
    law_clip_avoids_afk(one, ivs);
    lemma_clip_one(ev, ivs);
    if untouched(ev, ivs) {
        if t.len() > 0 {
            let j = choose|j: int| 0 <= j < ivs.len() && #[trigger] t[0] == overlap(ivs[j], s, e);
            assert(overlap(ivs[j], s, e).1 <= overlap(ivs[j], s, e).0);
        }
    } else {
        let j0 = choose|j: int|
            0 <= j < ivs.len() && !(overlap(#[trigger] ivs[j], s, e).1 <= overlap(ivs[j], s, e).0);
        assert(t.contains(overlap(ivs[j0], s, e)));
        assert(t.len() > 0);
        assert forall|k: int| 0 <= k < t.len() implies time_ok(#[trigger] t[k].0 as int) && time_ok(
            t[k].1 as int) && t[k].0 <= e by {}
        lemma_pieces_within(ev, t, s, e);
        assert forall|i: int| 0 <= i < out.len() implies {
            let o = #[trigger] out[i];
            &&& piece_of(o, ev)
            &&& o.end_ms() - o.timestamp_ms >= min_fragment_ms()
            &&& forall|t: int| o.timestamp_ms <= t < o.end_ms() ==> !#[trigger] covered(ivs, t)
            &&& (o.timestamp_ms == ev.timestamp_ms || covered(ivs, o.timestamp_ms - 1))
            &&& (o.end_ms() == ev.end_ms() || covered(ivs, o.end_ms()))
        } by {
            let o = out[i];
            assert(clip_all(one, ivs)[i] == o);
            assert forall|tt: int| o.timestamp_ms <= tt < o.end_ms() implies !#[trigger] covered(ivs, tt) by {
                if covered(ivs, tt) {
                    let j = choose|j: int| 0 <= j < ivs.len() && #[trigger] in_interval(ivs[j], tt);
                    assert(avoids(o, ivs[j]));
                }
            }
            if o.timestamp_ms != ev.timestamp_ms {
                let j = choose|j: int| 0 <= j < ivs.len() && #[trigger] ivs[j].1 == o.timestamp_ms;
                assert(ivs[j].0 < ivs[j].1);
                assert(in_interval(ivs[j], o.timestamp_ms - 1));
            }
            if o.end_ms() != ev.end_ms() {
                let j = choose|j: int| 0 <= j < ivs.len() && #[trigger] ivs[j].0 == o.end_ms();
                assert(ivs[j].0 < ivs[j].1);
                assert(in_interval(ivs[j], o.end_ms()));
            }
        }
    }
    assert forall|x: int, y: int, w: int|
        active_stretch(ev, ivs, x, y) && within(x, y, w) implies exists|k: int|
            0 <= k < out.len() && #[trigger] out[k].timestamp_ms <= w < out[k].end_ms() by {
        assert forall|j: int| 0 <= j < ivs.len() implies #[trigger] ivs[j].1 <= x || y <= ivs[j].0
            || ivs[j].1 <= ivs[j].0 by {
            if !(ivs[j].1 <= x || y <= ivs[j].0 || ivs[j].1 <= ivs[j].0) {
                let tt = if ivs[j].0 >= x {
                    ivs[j].0 as int
                } else {
                    x
                };
                assert(in_interval(ivs[j], tt));
                assert(covered(ivs, tt));
            }
        }
        law_clip_keeps_active_time(one, ivs, 0, x, y, w);
        let k = choose|k: int|
            0 <= k < clip_all(one, ivs).len() && #[trigger] clip_all(one, ivs)[k].timestamp_ms <= w
                < clip_all(one, ivs)[k].end_ms();
        assert(out[k] == clip_all(one, ivs)[k]);
    }
}

/// What `intervals_from_events` produces is a valid argument for clipping:
/// its intervals come in ascending order of their start.
pub proof fn law_separated_is_sorted(ivs: Seq<AfkInterval>)
    requires
        separated(ivs),
    ensures
        sorted_by_start(ivs),
{
    assert forall|i: int, j: int| 0 <= i < j < ivs.len() implies #[trigger] ivs[i].0 <= #[trigger] ivs[j].0 by {
        assert(ivs[i].0 < ivs[i].1);
        assert(ivs[i].1 < ivs[j].0);
    }
}

} // verus!
