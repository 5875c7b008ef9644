use crypto_balance::plan::{
    checked_plan_retrieval, plan_retrieval, RetrievalPlan, HISTORY_WINDOW_DAYS,
    SNAPSHOT_WINDOW_DAYS,
};
use crypto_balance::timespan::{
    get_missing_timespans, get_timespans_to_retrieve, is_splittable, split_all_timespans_max_days,
    split_timespan_max_days, TimeSpan, MAX_TICKS, MIN_TICKS, TICKS_PER_DAY,
    days_between,
};

const D: i128 = TICKS_PER_DAY;
const JAN_1_2021: i128 = 3_218_918_400_000_000_000;

fn span(start_day: i128, end_day: i128) -> TimeSpan {
    TimeSpan { start: JAN_1_2021 + start_day * D, end: JAN_1_2021 + end_day * D }
}

fn ticks(d: chrono::DateTime<chrono::Utc>) -> i128 {
    d.timestamp() as i128 * 2_000_000_000 + d.timestamp_subsec_nanos() as i128
}

fn leap(text: &str) -> chrono::DateTime<chrono::Utc> {
    chrono::DateTime::parse_from_rfc3339(text).unwrap().with_timezone(&chrono::Utc)
}

fn covers(spans: &[TimeSpan], t: i128) -> bool {
    spans.iter().any(|s| s.start <= t && t <= s.end)
}

#[test]
fn representable_range_matches_chrono() {
    let max = chrono::DateTime::<chrono::Utc>::MAX_UTC;
    assert_eq!(ticks(chrono::DateTime::<chrono::Utc>::MIN_UTC), MIN_TICKS);
    assert_eq!(max.timestamp() as i128 * 2_000_000_000 + 1_999_999_999, MAX_TICKS);
    assert!(ticks(max) < MAX_TICKS);
}

#[test]
fn missing_nothing_when_contained() {
    assert_eq!(get_missing_timespans(span(2, 5), span(0, 10)), vec![]);
    assert_eq!(get_missing_timespans(span(0, 10), span(0, 10)), vec![]);
}

#[test]
fn missing_after_available() {
    assert_eq!(get_missing_timespans(span(10, 20), span(0, 5)), vec![span(10, 20)]);
    assert_eq!(get_missing_timespans(span(5, 20), span(0, 5)), vec![span(6, 20)]);
}

#[test]
fn missing_before_available() {
    assert_eq!(get_missing_timespans(span(0, 3), span(5, 10)), vec![span(0, 3)]);
    assert_eq!(get_missing_timespans(span(0, 5), span(5, 10)), vec![span(0, 4)]);
}

#[test]
fn missing_overlapping_edges() {
    assert_eq!(get_missing_timespans(span(0, 7), span(5, 10)), vec![span(0, 4)]);
    assert_eq!(get_missing_timespans(span(7, 15), span(5, 10)), vec![span(11, 15)]);
}

#[test]
fn missing_both_sides() {
    assert_eq!(
        get_missing_timespans(span(0, 20), span(5, 10)),
        vec![span(0, 4), span(11, 20)]
    );
}

#[test]
fn missing_days_are_exactly_the_uncovered_days() {
    let needed = span(0, 30);
    let available = span(8, 12);
    let missing = get_missing_timespans(needed, available);
    for day in -5..40 {
        let t = JAN_1_2021 + day * D;
        let expected = (0..=30).contains(&day) && !(8..=12).contains(&day);
        assert_eq!(covers(&missing, t), expected, "day {}", day);
    }
    for s in &missing {
        assert!(s.start <= s.end);
        assert!(s.end < available.start || s.start > available.end);
    }
}

#[test]
fn split_short_span_stays_whole() {
    assert_eq!(split_timespan_max_days(&span(0, 29), 30), vec![span(0, 29)]);
}

#[test]
fn split_long_span_into_windows() {
    assert_eq!(
        split_timespan_max_days(&span(0, 70), 30),
        vec![span(0, 29), span(30, 59), span(60, 70)]
    );
    assert_eq!(
        split_timespan_max_days(&span(0, 59), 30),
        vec![span(0, 29), span(30, 59)]
    );
    assert_eq!(
        split_timespan_max_days(&span(0, 2), 1),
        vec![span(0, 0), span(1, 1), span(2, 2)]
    );
}

#[test]
fn split_pieces_follow_each_other() {
    let whole = span(3, 200);
    let pieces = split_timespan_max_days(&whole, 45);
    assert_eq!(pieces.first().unwrap().start, whole.start);
    assert_eq!(pieces.last().unwrap().end, whole.end);
    for w in pieces.windows(2) {
        assert_eq!(w[0].end, w[0].start + 44 * D);
        assert_eq!(w[1].start, w[0].end + D);
    }
    for day in 0..210 {
        let t = JAN_1_2021 + day * D;
        assert_eq!(covers(&pieces, t), (3..=200).contains(&day));
    }
}

#[test]
fn split_all_keeps_order() {
    let spans = vec![span(0, 40), span(50, 55)];
    assert_eq!(
        split_all_timespans_max_days(&spans, 30),
        vec![span(0, 29), span(30, 40), span(50, 55)]
    );
    assert_eq!(split_all_timespans_max_days(&[], 30), vec![]);
}

#[test]
fn splittable_edge_of_range() {
    let near_end = TimeSpan { start: MAX_TICKS - 40 * D, end: MAX_TICKS };
    assert!(!is_splittable(&near_end, 30));
    assert!(is_splittable(&near_end, 45));
    assert!(!is_splittable(&span(0, 10), 0));
    assert!(is_splittable(&span(0, 10), 11));
}

#[test]
fn retrieve_everything_when_nothing_stored() {
    assert_eq!(get_timespans_to_retrieve(&[], span(0, 9).start, span(0, 9).end), vec![span(0, 9)]);
}

#[test]
fn retrieve_what_storage_lacks() {
    let times = [span(5, 5).start, span(6, 6).start, span(10, 10).start];
    let s = span(0, 20);
    assert_eq!(
        get_timespans_to_retrieve(&times, s.start, s.end),
        vec![span(0, 4), span(11, 20)]
    );
}

#[test]
fn plan_up_to_date() {
    let times = [span(0, 0).start, span(40, 40).start];
    let s = span(3, 30);
    match plan_retrieval(&times, s.start, s.end) {
        RetrievalPlan::UpToDate => {}
        other => panic!("unexpected plan {:?}", other),
    }
}

#[test]
fn plan_fetch_windows() {
    assert_eq!(SNAPSHOT_WINDOW_DAYS, 30);
    assert_eq!(HISTORY_WINDOW_DAYS, 45);
    let s = span(0, 99);
    match plan_retrieval(&[], s.start, s.end) {
        RetrievalPlan::Fetch { snapshot_spans, history_spans } => {
            assert_eq!(
                snapshot_spans,
                vec![span(0, 29), span(30, 59), span(60, 89), span(90, 99)]
            );
            assert_eq!(history_spans, vec![span(0, 44), span(45, 89), span(90, 99)]);
        }
        other => panic!("unexpected plan {:?}", other),
    }
}

#[test]
fn checked_plan_refuses_reversed_request() {
    let times = [span(0, 0).start];
    assert!(checked_plan_retrieval(&times, span(5, 5).start, span(1, 1).start).is_none());
    assert!(checked_plan_retrieval(&[span(3, 3).start, span(1, 1).start], span(0, 0).start, span(5, 5).start).is_none());
    assert!(checked_plan_retrieval(&times, span(1, 1).start, span(5, 5).start).is_some());
}

#[test]
fn checked_plan_refuses_edges_beyond_range() {
    assert!(checked_plan_retrieval(&[], MAX_TICKS - 40 * D, MAX_TICKS).is_none());
    assert!(checked_plan_retrieval(&[], MAX_TICKS - 10 * D, MAX_TICKS).is_some());
    assert!(checked_plan_retrieval(&[MAX_TICKS - 2 * D, MAX_TICKS - 1_000_000], MAX_TICKS - 3 * D, MAX_TICKS).is_none());
}

#[test]
fn fetched_windows_cover_exactly_the_missing_days() {
    let times = [span(20, 20).start, span(25, 25).start, span(31, 31).start];
    let request = span(0, 120);
    match plan_retrieval(&times, request.start, request.end) {
        RetrievalPlan::Fetch { snapshot_spans, history_spans } => {
            for day in -3..130 {
                let t = JAN_1_2021 + day * D;
                let missing = (0..=120).contains(&day) && !(20..=31).contains(&day);
                assert_eq!(covers(&snapshot_spans, t), missing, "day {}", day);
                assert_eq!(covers(&history_spans, t), missing, "day {}", day);
            }
            assert!(snapshot_spans.iter().all(|s| s.end - s.start <= 29 * D));
            assert!(history_spans.iter().all(|s| s.end - s.start <= 44 * D));
        }
        other => panic!("unexpected plan {:?}", other),
    }
}

#[test]
fn up_to_date_only_when_storage_covers_request() {
    let times = [span(0, 0).start, span(10, 10).start];
    assert!(matches!(plan_retrieval(&times, span(0, 0).start, span(10, 10).start), RetrievalPlan::UpToDate));
    assert!(matches!(plan_retrieval(&times, span(0, 0).start, span(11, 11).start), RetrievalPlan::Fetch { .. }));
    assert!(matches!(plan_retrieval(&[], span(0, 0).start, span(0, 0).start), RetrievalPlan::Fetch { .. }));
}

#[test]
fn sub_millisecond_precision_is_kept() {
    let last_stored = span(10, 10).start;
    let needed = TimeSpan { start: last_stored + 500_000, end: span(20, 20).start };
    let available = TimeSpan { start: span(0, 0).start, end: last_stored };
    assert_eq!(get_missing_timespans(needed, available), vec![needed]);
    let touching = TimeSpan { start: last_stored, end: span(20, 20).start };
    assert_eq!(get_missing_timespans(touching, available), vec![span(11, 20)]);
}

#[test]
fn leap_seconds_order_and_move_as_chrono() {
    let leap_start = leap("2016-12-31T23:59:60.5Z");
    let midnight = leap("2017-01-01T00:00:00Z");
    assert!(leap_start < midnight);
    assert!(ticks(leap_start) < ticks(midnight));
    let available = TimeSpan { start: ticks(leap("2016-12-01T00:00:00Z")), end: ticks(leap_start) };
    let needed = TimeSpan { start: ticks(leap_start), end: ticks(leap("2017-01-10T00:00:00Z")) };
    let moved = leap_start + chrono::Duration::days(1);
    assert_eq!(
        get_missing_timespans(needed, available),
        vec![TimeSpan { start: ticks(moved), end: needed.end }]
    );
    let before = TimeSpan { start: ticks(leap("2016-12-20T00:00:00Z")), end: ticks(leap_start) };
    let later = TimeSpan { start: ticks(leap_start), end: ticks(leap("2017-02-01T00:00:00Z")) };
    let back = leap_start - chrono::Duration::days(1);
    assert_eq!(
        get_missing_timespans(before, later),
        vec![TimeSpan { start: before.start, end: ticks(back) }]
    );
}

#[test]
fn whole_days_between_as_chrono() {
    let instants = [
        "2016-12-31T23:59:60.5Z",
        "2016-12-31T23:59:59.7Z",
        "2017-01-01T00:00:00Z",
        "2016-12-30T23:59:60Z",
        "2017-01-30T12:00:00Z",
        "2016-11-30T23:59:59.999999999Z",
    ];
    for a in instants {
        for b in instants {
            let (x, y) = (leap(a), leap(b));
            assert_eq!(days_between(ticks(x), ticks(y)), (x - y).num_days() as i128, "{} {}", a, b);
        }
    }
}

#[test]
fn split_from_a_leap_second() {
    let start = leap("2016-12-31T23:59:60.5Z");
    let end = leap("2017-03-01T00:00:00Z");
    let pieces = split_timespan_max_days(&TimeSpan { start: ticks(start), end: ticks(end) }, 30);
    let first_end = start + chrono::Duration::days(29);
    let second_start = first_end + chrono::Duration::days(1);
    assert_eq!(pieces[0], TimeSpan { start: ticks(start), end: ticks(first_end) });
    assert_eq!(pieces[1].start, ticks(second_start));
}
