//! The decisions of one sync cycle. Fetching events, pushing entries and
//! saving the state are done outside the library, in this order:
//!
//! 1. fetch the window events since the cursor (and, with an AFK bucket, the
//!    AFK events since `afk_lookback` of the cursor),
//! 2. `plan_cycle` (or `plan_blocks`, which asks that no sum overflows):
//!    clip away AFK time, classify, merge,
//! 3. push each block,
//! 4. `sync_outcome`: where the cursor goes and how many entries were pushed,
//!    then `StateManager::record_sync` and save.

use vstd::prelude::*;
use crate::afk::{AfkInterval, clip_events, clip_all, events_wf, law_clip_yields_pieces};
use crate::aw_client::AwEvent;
use crate::classifier::{Classifier, ClassifiedEvent, classify_seq, classified, RuleModel, ClassifiedView};
use crate::merger::{
    Merger, TimeBlock, merged_blocks, all_blocks, sort_by_start, details_fit, events_ok, views,
};

verus! {

/// How far before the cursor AFK events are fetched: a day, in milliseconds,
/// so that a long AFK window that started before the cursor still clips.
pub open spec fn afk_lookback_ms() -> int {
    86_400_000
}

/// Start of the AFK fetch for a cursor: a day earlier; no cursor, no start.
pub fn afk_lookback(since: Option<i64>) -> (r: Option<i64>)
    requires
        since matches Some(s) ==> s >= i64::MIN + afk_lookback_ms(),
    ensures
        r == match since {
            Some(s) => Some((s - afk_lookback_ms()) as i64),
            None => None::<i64>,
        },
{
    match since {
        Some(s) => Some(s - 86_400_000),
        None => None,
    }
}

/// The window events that remain once AFK time is taken out (all of them
/// without an AFK bucket).
pub open spec fn active_events(raw: Seq<AwEvent>, afk: Option<Seq<AfkInterval>>) -> Seq<AwEvent> {
    match afk {
        Some(ivs) => clip_all(raw, ivs),
        None => raw,
    }
}

/// The classified events of a cycle.
pub open spec fn cycle_events(
    raw: Seq<AwEvent>,
    afk: Option<Seq<AfkInterval>>,
    rules: Seq<RuleModel>,
    dp: u32,
    da: u32,
) -> Seq<ClassifiedView> {
    classify_seq(rules, dp, da, active_events(raw, afk))
}

pub open spec fn opt_intervals(afk: Option<&[AfkInterval]>) -> Option<Seq<AfkInterval>> {
    match afk {
        Some(s) => Some(s@),
        None => None,
    }
}

proof fn lemma_classify_seq_events(rules: Seq<RuleModel>, dp: u32, da: u32, evs: Seq<AwEvent>)
    requires
        events_wf(evs),
    ensures
        events_ok(classify_seq(rules, dp, da, evs)),
    decreases evs.len(),
{
    if evs.len() > 0 {
        let p = evs.drop_last();
        assert forall|i: int| 0 <= i < p.len() implies (#[trigger] p[i]).wf() by {
            assert(p[i] == evs[i]);
        }
        lemma_classify_seq_events(rules, dp, da, p);
        let r = classify_seq(rules, dp, da, p);
        match classified(rules, dp, da, evs.last()) {
            Some(c) => {
                assert(evs.last().wf());
                assert forall|i: int| 0 <= i < r.push(c).len() implies (#[trigger] r.push(c)[i]).event.wf() by {
                    if i < r.len() {
                        assert(r.push(c)[i] == r[i]);
                    }
                }
            },
            None => {},
        }
    }
}

/// The events of a cycle, classified: AFK time taken out when there is an
/// AFK bucket, then each event classified against the rules.
fn classify_cycle(raw: Vec<AwEvent>, afk: Option<&[AfkInterval]>, classifier: &Classifier) -> (r: Vec<
    ClassifiedEvent,
>)
    requires
        events_wf(raw@),
    ensures
        views(r@) == cycle_events(
            raw@,
            opt_intervals(afk),
            classifier.rules_model(),
            classifier.default_project(),
            classifier.default_activity(),
        ),
        events_ok(views(r@)),
{
    let ghost raw_v = raw@;
    let active = match afk {
        Some(ivs) => {
            proof {
                law_clip_yields_pieces(raw_v, ivs@);
            }
            clip_events(raw, ivs)
        },
        None => raw,
    };
    assert(active@ == active_events(raw_v, opt_intervals(afk)));
    let classified = classifier.classify_all(active.as_slice());
    let ghost cs = classify_seq(
        classifier.rules_model(),
        classifier.default_project(),
        classifier.default_activity(),
        active@,
    );
    assert(views(classified@) =~= cs);
    proof {
        lemma_classify_seq_events(
            classifier.rules_model(),
            classifier.default_project(),
            classifier.default_activity(),
            active@,
        );
    }
    classified
}

/// Step 2 of a cycle: subtract AFK time when there is an AFK bucket, classify
/// against the rules, merge into blocks.
pub fn plan_blocks(
    raw: Vec<AwEvent>,
    afk: Option<&[AfkInterval]>,
    classifier: &Classifier,
    merger: &Merger,
) -> (r: Vec<TimeBlock>)
    requires
        events_wf(raw@),
        details_fit(
            all_blocks(
                sort_by_start(
                    cycle_events(
                        raw@,
                        opt_intervals(afk),
                        classifier.rules_model(),
                        classifier.default_project(),
                        classifier.default_activity(),
                    ),
                ),
                merger.idle(),
            ),
        ),
    ensures
        r@.len() == merged_blocks(
            cycle_events(
                raw@,
                opt_intervals(afk),
                classifier.rules_model(),
                classifier.default_project(),
                classifier.default_activity(),
            ),
            merger.idle(),
            merger.min_duration(),
        ).len(),
        forall|i: int|
            0 <= i < r@.len() ==> (#[trigger] r@[i]).models(
                merged_blocks(
                    cycle_events(
                        raw@,
                        opt_intervals(afk),
                        classifier.rules_model(),
                        classifier.default_project(),
                        classifier.default_activity(),
                    ),
                    merger.idle(),
                    merger.min_duration(),
                )[i],
            ),
{
    let classified = classify_cycle(raw, afk, classifier);
    merger.merge(classified)
}

/// `plan_blocks` for any cycle: the blocks, or nothing when the seconds
/// summed under some detail of some block would not fit in an `i64`.
pub fn plan_cycle(
    raw: Vec<AwEvent>,
    afk: Option<&[AfkInterval]>,
    classifier: &Classifier,
    merger: &Merger,
) -> (r: Option<Vec<TimeBlock>>)
    requires
        events_wf(raw@),
    ensures
        r is None <==> !details_fit(
            all_blocks(
                sort_by_start(
                    cycle_events(
                        raw@,
                        opt_intervals(afk),
                        classifier.rules_model(),
                        classifier.default_project(),
                        classifier.default_activity(),
                    ),
                ),
                merger.idle(),
            ),
        ),
        r matches Some(bs) ==> {
            &&& bs@.len() == merged_blocks(
                cycle_events(
                    raw@,
                    opt_intervals(afk),
                    classifier.rules_model(),
                    classifier.default_project(),
                    classifier.default_activity(),
                ),
                merger.idle(),
                merger.min_duration(),
            ).len()
            &&& forall|i: int|
                0 <= i < bs@.len() ==> (#[trigger] bs@[i]).models(
                    merged_blocks(
                        cycle_events(
                            raw@,
                            opt_intervals(afk),
                            classifier.rules_model(),
                            classifier.default_project(),
                            classifier.default_activity(),
                        ),
                        merger.idle(),
                        merger.min_duration(),
                    )[i],
                )
        },
{
    let classified = classify_cycle(raw, afk, classifier);
    merger.try_merge(classified)
}

// ── after pushing ───────────────────────────────────────────────────────────

/// Index of the first block whose push failed.
pub open spec fn first_failure(oks: Seq<bool>) -> Option<int>
    decreases oks.len(),
{
    if oks.len() == 0 {
        None
    } else {
        match first_failure(oks.drop_last()) {
            Some(j) => Some(j),
            None => if !oks.last() {
                Some(oks.len() - 1)
            } else {
                None
            },
        }
    }
}

/// Number of blocks pushed successfully.
pub open spec fn count_ok(oks: Seq<bool>) -> nat
    decreases oks.len(),
{
    if oks.len() == 0 {
        0
    } else {
        count_ok(oks.drop_last()) + if oks.last() {
            1nat
        } else {
            0nat
        }
    }
}

/// The new cursor: the start of the first block that failed, so the next
/// cycle fetches and retries it; `until` when every push succeeded.
pub open spec fn next_cursor(starts: Seq<i64>, oks: Seq<bool>, until: i64) -> i64 {
    match first_failure(oks) {
        Some(j) => starts[j],
        None => until,
    }
}

pub open spec fn block_starts(blocks: Seq<TimeBlock>) -> Seq<i64> {
    blocks.map_values(|b: TimeBlock| b.start)
}

/// Step 4 of a cycle: given which pushes succeeded (one flag per block, in
/// order) and the end of the fetched window, where the cursor goes and how
/// many entries were pushed.
pub fn sync_outcome(blocks: &[TimeBlock], pushed_ok: &[bool], until: i64) -> (r: (i64, u64))
    requires
        blocks@.len() == pushed_ok@.len(),
    ensures
        r.0 == next_cursor(block_starts(blocks@), pushed_ok@, until),
        r.1 == count_ok(pushed_ok@),
{
    let n = pushed_ok.len();
    let mut pushed: u64 = 0;
    let mut first_failure_start: Option<i64> = None;
    let mut i: usize = 0;
    while i < n
        invariant
            n == pushed_ok@.len(),
            n == blocks@.len(),
            i <= n,
            pushed == count_ok(pushed_ok@.take(i as int)),
            count_ok(pushed_ok@.take(i as int)) <= i,
            first_failure_start == match first_failure(pushed_ok@.take(i as int)) {
                Some(j) => Some(blocks@[j].start),
                None => None::<i64>,
            },
            first_failure(pushed_ok@.take(i as int)) matches Some(j) ==> 0 <= j < i,
        decreases n - i,
    {
        assert(pushed_ok@.take(i + 1).drop_last() =~= pushed_ok@.take(i as int));
        assert(pushed_ok@.take(i + 1).last() == pushed_ok@[i as int]);
        if pushed_ok[i] {
            pushed = pushed + 1;
        } else {
            if first_failure_start.is_none() {
                first_failure_start = Some(blocks[i].start);
            }
        }
        i = i + 1;
    }
    assert(pushed_ok@.take(n as int) =~= pushed_ok@);
    let cursor = match first_failure_start {
        Some(s) => s,
        None => until,
    };
    (cursor, pushed)
}

// ── laws ────────────────────────────────────────────────────────────────────

proof fn lemma_first_failure(oks: Seq<bool>)
    ensures
        first_failure(oks) matches Some(j) ==> 0 <= j < oks.len() && !oks[j] && forall|k: int|
            0 <= k < j ==> #[trigger] oks[k],
        first_failure(oks) is None ==> forall|k: int| 0 <= k < oks.len() ==> #[trigger] oks[k],
    decreases oks.len(),
{
    if oks.len() > 0 {
        let p = oks.drop_last();
        lemma_first_failure(p);
        assert forall|k: int| 0 <= k < p.len() implies p[k] == oks[k] by {}
    }
}

/// A failed push is retried: with blocks in chronological order, the new
/// cursor does not pass the start of any block whose push failed, so the next
/// cycle fetches its events again. When every push succeeded the cursor is
/// the end of the fetched window.
pub proof fn law_failed_blocks_are_refetched(starts: Seq<i64>, oks: Seq<bool>, until: i64)
    requires
        starts.len() == oks.len(),
        forall|i: int, j: int| 0 <= i < j < starts.len() ==> #[trigger] starts[i] <= #[trigger] starts[j],
    ensures
        forall|j: int| 0 <= j < oks.len() && !oks[j] ==> next_cursor(starts, oks, until) <= #[trigger] starts[j],
        (forall|j: int| 0 <= j < oks.len() ==> #[trigger] oks[j]) ==> next_cursor(starts, oks, until) == until,
{
    lemma_first_failure(oks);
    match first_failure(oks) {
        Some(j0) => {
            assert forall|j: int| 0 <= j < oks.len() && !oks[j] implies next_cursor(starts, oks, until)
                <= #[trigger] starts[j] by {
                if j < j0 {
                    assert(oks[j]);
                } else if j > j0 {
                    assert(starts[j0] <= starts[j]);
                }
            }
        },
        None => {},
    }
}

/// Pushed and failed entries account for every block.
pub proof fn law_pushed_count(oks: Seq<bool>)
    ensures
        count_ok(oks) <= oks.len(),
        count_ok(oks) == oks.len() <==> forall|j: int| 0 <= j < oks.len() ==> #[trigger] oks[j],
    decreases oks.len(),
{
    if oks.len() > 0 {
        let p = oks.drop_last();
        law_pushed_count(p);
        assert forall|k: int| 0 <= k < p.len() implies p[k] == oks[k] by {}
        if count_ok(oks) == oks.len() {
            assert forall|j: int| 0 <= j < oks.len() implies #[trigger] oks[j] by {
                if j < p.len() {
                    assert(p[j]);
                }
            }
        }
        if !oks.last() {
            assert(!oks[oks.len() - 1]);
        }
    }
}

} // verus!
