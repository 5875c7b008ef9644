//! The decisions of the history endpoint: from the stored snapshot times and
//! the requested window, what has to be fetched before the answer is built.

use vstd::prelude::*;
use crate::timespan::{
    contains, covered, lemma_missing_spans_exact, lemma_same_time_of_day_equiv,
    lemma_split_all_exact, missing_spans, same_time_of_day, Span, is_leap,
    lemma_same_time_of_day_not_leap,
    get_timespans_to_retrieve, is_retrievable, is_splittable, retrievable, retrieve_spans,
    spans_view, split_all, split_all_timespans_max_days, splittable, TimeSpan,
};

verus! {

/// Days of account snapshots asked for in one exchange request.
pub const SNAPSHOT_WINDOW_DAYS: i64 = 30;

/// Days of price history asked for in one request to the price service.
pub const HISTORY_WINDOW_DAYS: i64 = 45;

/// Snapshots returned at most by one exchange request.
pub const SNAPSHOT_LIMIT: u8 = 30;

/// What the endpoint must fetch before it answers.
#[derive(Debug)]
pub enum RetrievalPlan {
    /// The stored snapshots already cover the request: answer from storage.
    UpToDate,
    /// Fetch snapshots over `snapshot_spans` and prices over `history_spans`,
    /// store them, then answer.
    Fetch { snapshot_spans: Vec<TimeSpan>, history_spans: Vec<TimeSpan> },
}

/// What `plan_retrieval` needs: the missing spans can be computed and cut
/// into both window sizes.
pub open spec fn plannable(times: Seq<i128>, start: int, end: int) -> bool {
    &&& retrievable(times, start, end)
    &&& forall|i: int|
        0 <= i < retrieve_spans(times, start, end).len() ==> {
            &&& splittable(#[trigger] retrieve_spans(times, start, end)[i], SNAPSHOT_WINDOW_DAYS as int)
            &&& splittable(retrieve_spans(times, start, end)[i], HISTORY_WINDOW_DAYS as int)
        }
}

/// `plan` is the one for the stored snapshot times and the requested
/// window: nothing to fetch when no span is missing, else the missing spans
/// cut into snapshot windows and into history windows.
pub open spec fn planned(plan: RetrievalPlan, times: Seq<i128>, start: int, end: int) -> bool {
    let needed = retrieve_spans(times, start, end);
    match plan {
        RetrievalPlan::UpToDate => needed.len() == 0,
        RetrievalPlan::Fetch { snapshot_spans, history_spans } => {
            &&& needed.len() > 0
            &&& spans_view(snapshot_spans@) == split_all(needed, SNAPSHOT_WINDOW_DAYS as int)
            &&& spans_view(history_spans@) == split_all(needed, HISTORY_WINDOW_DAYS as int)
        },
    }
}

/// Decides, from the times of the stored snapshots (oldest first) and the
/// requested window, whether the endpoint can answer at once or which
/// windows it must fetch first.
pub fn plan_retrieval(snapshot_times: &[i128], start: i128, end: i128) -> (plan: RetrievalPlan)
    requires
        plannable(snapshot_times@, start as int, end as int),
    ensures
        planned(plan, snapshot_times@, start as int, end as int),
{
    let needed = get_timespans_to_retrieve(snapshot_times, start, end);
    if needed.len() == 0 {
        return RetrievalPlan::UpToDate;
    }
    proof {
        assert(spans_view(needed@).len() == needed@.len());
        assert forall|i: int| 0 <= i < needed@.len() implies splittable(
            #[trigger] needed@[i]@,
            SNAPSHOT_WINDOW_DAYS as int,
        ) && splittable(needed@[i]@, HISTORY_WINDOW_DAYS as int) by {
            assert(spans_view(needed@)[i] == needed@[i]@);
        }
    }
    let snapshot_spans = split_all_timespans_max_days(needed.as_slice(), SNAPSHOT_WINDOW_DAYS);
    let history_spans = split_all_timespans_max_days(needed.as_slice(), HISTORY_WINDOW_DAYS);
    RetrievalPlan::Fetch { snapshot_spans, history_spans }
}


/// Like `plan_retrieval`, but first checks its inputs: `None` where the
/// request ends before it starts while snapshots are stored, the stored times
/// are out of order, or a shifted or cut edge would fall outside the
/// representable instants.
pub fn checked_plan_retrieval(snapshot_times: &[i128], start: i128, end: i128) -> (plan: Option<
    RetrievalPlan,
>)
    ensures
        plan is Some <==> plannable(snapshot_times@, start as int, end as int),
        plan matches Some(p) ==> planned(p, snapshot_times@, start as int, end as int),
{
    if !is_retrievable(snapshot_times, start, end) {
        return None;
    }
    let needed = get_timespans_to_retrieve(snapshot_times, start, end);
    let ghost spans = retrieve_spans(snapshot_times@, start as int, end as int);
    let n = needed.len();
    for i in 0..n
        invariant
            n == needed@.len(),
            spans == retrieve_spans(snapshot_times@, start as int, end as int),
            retrievable(snapshot_times@, start as int, end as int),
            spans_view(needed@) == spans,
            forall|j: int|
                0 <= j < i ==> {
                    &&& splittable(#[trigger] spans[j], SNAPSHOT_WINDOW_DAYS as int)
                    &&& splittable(spans[j], HISTORY_WINDOW_DAYS as int)
                },
    {
        assert(spans[i as int] == needed@[i as int]@);
        if !is_splittable(&needed[i], SNAPSHOT_WINDOW_DAYS) || !is_splittable(
            &needed[i],
            HISTORY_WINDOW_DAYS,
        ) {
            assert(!plannable(snapshot_times@, start as int, end as int)) by {
                if plannable(snapshot_times@, start as int, end as int) {
                    let k = i as int;
                    assert(splittable(spans[k], SNAPSHOT_WINDOW_DAYS as int) && splittable(
                        spans[k],
                        HISTORY_WINDOW_DAYS as int,
                    ));
                }
            }
            return None;
        }
    }
    Some(plan_retrieval(snapshot_times, start, end))
}


/// Nothing is fetched exactly when snapshots are stored and their range
/// covers the whole request.
pub proof fn lemma_up_to_date_iff_stored(times: Seq<i128>, start: int, end: int)
    ensures
        retrieve_spans(times, start, end).len() == 0 <==> (times.len() > 0 && times[0] <= start
            && end <= times.last()),
{
}

proof fn lemma_missing_spans_aligned(needed: Span, available: Span)
    requires
        same_time_of_day(needed.end, needed.start),
        same_time_of_day(available.start, needed.start),
        same_time_of_day(available.end, needed.start),
        !is_leap(needed.start),
    ensures
        forall|i: int|
            0 <= i < missing_spans(needed, available).len() ==> {
                &&& same_time_of_day(
                    (#[trigger] missing_spans(needed, available)[i]).start,
                    needed.start,
                )
                &&& same_time_of_day(missing_spans(needed, available)[i].end, needed.start)
            },
{
    lemma_same_time_of_day_equiv(needed.start, needed.start, needed.start);
    lemma_same_time_of_day_not_leap(needed.start, needed.start, 1);
    lemma_same_time_of_day_not_leap(needed.end, needed.start, -1);
    lemma_same_time_of_day_not_leap(available.start, needed.start, -1);
    lemma_same_time_of_day_not_leap(available.end, needed.start, 1);
}

/// When the request and the stored range begin and end at one time of day
/// outside a leap second,
/// the windows fetched (of any length) cover exactly the instants at that
/// time of day which the request asks for and the stored snapshots lack.
pub proof fn lemma_fetched_windows_cover_missing_days(
    times: Seq<i128>,
    start: int,
    end: int,
    max_days: int,
)
    requires
        start <= end,
        same_time_of_day(end, start),
        !is_leap(start),
        times.len() > 0 ==> {
            &&& times[0] <= times.last()
            &&& same_time_of_day(times[0] as int, start)
            &&& same_time_of_day(times.last() as int, start)
        },
    ensures
        forall|t: int|
            same_time_of_day(t, start) ==> (covered(
                split_all(retrieve_spans(times, start, end), max_days),
                t,
            ) <==> (contains(Span { start, end }, t) && (times.len() == 0 || !contains(
                Span { start: times[0] as int, end: times.last() as int },
                t,
            )))),
{
    let spans = retrieve_spans(times, start, end);
    lemma_same_time_of_day_equiv(start, end, start);
    if times.len() > 0 {
        let needed = Span { start, end };
        let available = Span { start: times[0] as int, end: times.last() as int };
        lemma_missing_spans_exact(needed, available);
        lemma_missing_spans_aligned(needed, available);
    } else {
        assert(spans[0] == Span { start, end });
    }
    lemma_split_all_exact(spans, max_days, start);
    assert forall|t: int| same_time_of_day(t, start) implies (covered(spans, t) <==> (contains(
        Span { start, end },
        t,
    ) && (times.len() == 0 || !contains(
        Span { start: times[0] as int, end: times.last() as int },
        t,
    )))) by {
        if times.len() == 0 {
            if covered(spans, t) {
                let i = choose|i: int| 0 <= i < spans.len() && contains(#[trigger] spans[i], t);
                assert(i == 0);
            }
            if contains(Span { start, end }, t) {
                assert(contains(spans[0], t));
            }
        }
    }
}

} // verus!
