//! Time spans as instants in ticks (UTC, since the Unix epoch), and the
//! arithmetic on them that decides which days still have to be retrieved.

use vstd::prelude::*;

verus! {

/// Ticks in one second. An instant is written in ticks: its whole seconds
/// since the Unix epoch (chrono's `timestamp()`) times this, plus chrono's
/// nanoseconds within the second (`timestamp_subsec_nanos()`), which reach
/// 10^9 and beyond only during a leap second. Ticks order instants as chrono
/// orders them, leap seconds included.
pub const TICKS_PER_SECOND: i128 = 2_000_000_000;

/// Ticks in one day, between two instants of a day apart outside leap
/// seconds.
pub const TICKS_PER_DAY: i128 = 172_800_000_000_000;

/// One second in nanoseconds.
pub const NANOS_PER_SECOND: i128 = 1_000_000_000;

/// One day in nanoseconds.
pub const NANOS_PER_DAY: i128 = 86_400_000_000_000;

/// One millisecond in nanoseconds.
pub const NANOS_PER_MILLI: i128 = 1_000_000;

/// The earliest instant a `chrono::DateTime<Utc>` can hold
/// (-262143-01-01T00:00:00Z), in ticks.
pub const MIN_TICKS: i128 = -16_669_202_457_600_000_000_000;

/// The end of the last second a `chrono::DateTime<Utc>` can fall in
/// (+262142-12-31T23:59:59, a leap second included), in ticks.
pub const MAX_TICKS: i128 = 16_420_533_753_599_999_999_999;

/// Ticks whose date `chrono::DateTime<Utc>` can hold.
pub open spec fn in_range(t: int) -> bool {
    MIN_TICKS <= t <= MAX_TICKS
}

/// The whole seconds of an instant: chrono's `timestamp()`.
pub open spec fn seconds_of(t: int) -> int {
    t / (TICKS_PER_SECOND as int)
}

/// The nanoseconds within the second: chrono's `timestamp_subsec_nanos()`.
pub open spec fn fraction_of(t: int) -> int {
    t % (TICKS_PER_SECOND as int)
}

/// The instant lies within a leap second.
pub open spec fn is_leap(t: int) -> bool {
    fraction_of(t) >= NANOS_PER_SECOND
}

/// The instant is one chrono can build: its date is in range, and a leap
/// second only ends a minute.
pub open spec fn valid_instant(t: int) -> bool {
    &&& in_range(t)
    &&& is_leap(t) ==> seconds_of(t) % 60 == 59
}

/// `t` moved by `k` days, as chrono adds `Duration::days(k)`: outside a leap
/// second by whole days; a leap second moved by whole days leaves the leap,
/// to the second it ends when moved forward, and to the second after it when
/// moved back.
pub open spec fn add_days(t: int, k: int) -> int {
    if is_leap(t) && k > 0 {
        t + k * TICKS_PER_DAY - NANOS_PER_SECOND
    } else if is_leap(t) && k < 0 {
        t + k * TICKS_PER_DAY + TICKS_PER_SECOND - NANOS_PER_SECOND
    } else {
        t + k * TICKS_PER_DAY
    }
}

/// `t` moved back by one second, as chrono subtracts `Duration::seconds(1)`:
/// a leap second goes to the same fraction of the second it ends.
pub open spec fn minus_second(t: int) -> int {
    if is_leap(t) {
        t - NANOS_PER_SECOND
    } else {
        t - TICKS_PER_SECOND
    }
}

/// The time of day of a second, in seconds since midnight.
pub open spec fn second_of_day(secs: int) -> int {
    secs % 86_400
}

/// The nanoseconds from `start` to `end`, as chrono's `end - start` counts
/// them: a leap second counts as part of the second it ends when the other
/// instant falls later in the day, and not at all otherwise.
pub open spec fn duration_nanos(end: int, start: int) -> int {
    let (se, fe) = (seconds_of(end), fraction_of(end));
    let (sb, fb) = (seconds_of(start), fraction_of(start));
    let adjust = if second_of_day(se) > second_of_day(sb) && fb >= NANOS_PER_SECOND {
        1int
    } else if second_of_day(se) < second_of_day(sb) && fe >= NANOS_PER_SECOND {
        -1int
    } else {
        0int
    };
    (se - sb + adjust) * NANOS_PER_SECOND + fe - fb
}

/// The mathematical model of a time span: two instants, both ends included.
pub struct Span {
    pub start: int,
    pub end: int,
}

/// A span of time from `start` to `end`, both included, in ticks.
#[derive(Debug, Clone, Copy, PartialEq, Eq, Structural)]
pub struct TimeSpan {
    pub start: i128,
    pub end: i128,
}

impl View for TimeSpan {
    type V = Span;

    open spec fn view(&self) -> Span {
        Span { start: self.start as int, end: self.end as int }
    }
}

/// The models of a sequence of spans.
pub open spec fn spans_view(v: Seq<TimeSpan>) -> Seq<Span> {
    v.map_values(|t: TimeSpan| t@)
}

/// Both ends of the span are representable instants.
pub open spec fn span_in_range(s: Span) -> bool {
    in_range(s.start) && in_range(s.end)
}

pub open spec fn spans_in_range(s: Seq<Span>) -> bool {
    forall|i: int| 0 <= i < s.len() ==> span_in_range(#[trigger] s[i])
}

/// `t` lies in the span, ends included.
pub open spec fn contains(s: Span, t: int) -> bool {
    s.start <= t <= s.end
}

/// The parts of `needed` that `available` does not cover, with a one-day
/// margin at the edges that touch `available`.
pub open spec fn missing_spans(n: Span, a: Span) -> Seq<Span> {
    if n.start >= a.start && n.end <= a.end {
        seq![]
    } else if n.start >= a.end && n.end >= a.end {
        let start = if n.start == a.end { add_days(n.start, 1) } else { n.start };
        seq![Span { start, end: n.end }]
    } else if n.start <= a.start && n.end <= a.start {
        let end = if n.end == a.start { add_days(n.end, -1) } else { n.end };
        seq![Span { start: n.start, end }]
    } else if n.start <= a.start && n.end <= a.end {
        seq![Span { start: n.start, end: add_days(a.start, -1) }]
    } else if n.start >= a.start && n.end >= a.end {
        seq![Span { start: add_days(a.end, 1), end: n.end }]
    } else {
        seq![
            Span { start: n.start, end: add_days(a.start, -1) },
            Span { start: add_days(a.end, 1), end: n.end },
        ]
    }
}

/// The nanoseconds within the second of `t`.
pub fn fraction(t: i128) -> (f: i128)
    requires
        in_range(t as int),
    ensures
        f as int == fraction_of(t as int),
        f as int == t - seconds_of(t as int) * TICKS_PER_SECOND,
        0 <= f < TICKS_PER_SECOND,
{
    let secs = floor_div(t, TICKS_PER_SECOND);
    proof {
        vstd::arithmetic::div_mod::lemma_fundamental_div_mod(t as int, TICKS_PER_SECOND as int);
        assert(0 <= (t as int) % 2_000_000_000 < 2_000_000_000);
        assert((secs as int) * 2_000_000_000 == 2_000_000_000 * (secs as int));
    }
    t - secs * TICKS_PER_SECOND
}

/// Moves `t` by `k` days as chrono adds `Duration::days(k)`.
pub fn shift_days(t: i128, k: i64) -> (moved: i128)
    requires
        in_range(t as int),
        in_range(add_days(t as int, k as int)),
    ensures
        moved as int == add_days(t as int, k as int),
{
    let leap = fraction(t) >= NANOS_PER_SECOND;
    proof {
        assert((k as int) * 172_800_000_000_000 <= 0x7fff_ffff_ffff_ffff * 172_800_000_000_000)
            by (nonlinear_arith)
            requires k <= 0x7fff_ffff_ffff_ffff;
        assert((k as int) * 172_800_000_000_000 >= -0x8000_0000_0000_0000 * 172_800_000_000_000)
            by (nonlinear_arith)
            requires k >= -0x8000_0000_0000_0000;
    }
    let step = k as i128 * TICKS_PER_DAY;
    if leap && k > 0 {
        t + step - NANOS_PER_SECOND
    } else if leap && k < 0 {
        t + step + TICKS_PER_SECOND - NANOS_PER_SECOND
    } else {
        t + step
    }
}

/// The spans of `needed` that are missing from `available`.
///
/// `needed` and `available` must each start no later than they end, and the
/// day shifts at the edges must stay within the representable instants.
pub fn get_missing_timespans(needed: TimeSpan, available: TimeSpan) -> (missing: Vec<TimeSpan>)
    requires
        needed.start <= needed.end,
        available.start <= available.end,
        span_in_range(needed@),
        span_in_range(available@),
        spans_in_range(missing_spans(needed@, available@)),
    ensures
        spans_view(missing@) == missing_spans(needed@, available@),
{
    let ghost m = missing_spans(needed@, available@);
    if needed.start >= available.start && needed.end <= available.end {
        let v: Vec<TimeSpan> = Vec::new();
        assert(spans_view(v@) =~= m);
        return v;
    }
    if needed.start >= available.end && needed.end >= available.end {
        assert(span_in_range(m[0]));
        let start = if needed.start == available.end {
            shift_days(needed.start, 1)
        } else {
            needed.start
        };
        let v = vec![TimeSpan { start, end: needed.end }];
        assert(spans_view(v@) =~= m);
        return v;
    }
    if needed.start <= available.start && needed.end <= available.start {
        assert(span_in_range(m[0]));
        let end = if needed.end == available.start {
            shift_days(needed.end, -1)
        } else {
            needed.end
        };
        let v = vec![TimeSpan { start: needed.start, end }];
        assert(spans_view(v@) =~= m);
        return v;
    }
    if needed.start <= available.start && needed.end <= available.end {
        assert(span_in_range(m[0]));
        let end = shift_days(available.start, -1);
        let v = vec![TimeSpan { start: needed.start, end }];
        assert(spans_view(v@) =~= m);
        return v;
    }
    if needed.start >= available.start && needed.end >= available.end {
        assert(span_in_range(m[0]));
        let start = shift_days(available.end, 1);
        let v = vec![TimeSpan { start, end: needed.end }];
        assert(spans_view(v@) =~= m);
        return v;
    }
    assert(span_in_range(m[0]) && span_in_range(m[1]));
    let end = shift_days(available.start, -1);
    let start = shift_days(available.end, 1);
    let v = vec![TimeSpan { start: needed.start, end }, TimeSpan { start, end: needed.end }];
    assert(spans_view(v@) =~= m);
    v
}

/// Some span of `spans` contains `t`.
pub open spec fn covered(spans: Seq<Span>, t: int) -> bool {
    exists|i: int| 0 <= i < spans.len() && contains(#[trigger] spans[i], t)
}

/// `a` and `b` fall at the same time of day.
#[verifier::opaque]
pub open spec fn same_time_of_day(a: int, b: int) -> bool {
    a % (TICKS_PER_DAY as int) == b % (TICKS_PER_DAY as int)
}

/// Two instants at the same time of day are a whole number of days apart.
pub proof fn lemma_same_time_of_day_gap(x: int, y: int)
    requires
        same_time_of_day(x, y),
        x > y,
    ensures
        x >= y + TICKS_PER_DAY,
{
    reveal(same_time_of_day);
}

/// An instant at the time of day of one outside a leap second is outside a
/// leap second too, and moving it by days is adding whole days.
pub proof fn lemma_same_time_of_day_not_leap(t: int, r: int, k: int)
    requires
        same_time_of_day(t, r),
        !is_leap(r),
    ensures
        !is_leap(t),
        add_days(t, k) == t + k * TICKS_PER_DAY,
        same_time_of_day(t + k * TICKS_PER_DAY, r),
{
    reveal(same_time_of_day);
    let d = TICKS_PER_DAY as int;
    let s = TICKS_PER_SECOND as int;
    vstd::arithmetic::div_mod::lemma_mod_mod(t, s, 86_400);
    vstd::arithmetic::div_mod::lemma_mod_mod(r, s, 86_400);
    assert(s * 86_400 == d);
    vstd::arithmetic::div_mod::lemma_mod_multiples_vanish(k, t, d);
    assert(d * k == k * d) by (nonlinear_arith);
}

/// Falling at the same time of day is an equivalence.
pub proof fn lemma_same_time_of_day_equiv(a: int, b: int, c: int)
    ensures
        same_time_of_day(a, a),
        same_time_of_day(a, b) ==> same_time_of_day(b, a),
        same_time_of_day(a, b) && same_time_of_day(b, c) ==> same_time_of_day(a, c),
{
    reveal(same_time_of_day);
}

/// Every missing span lies inside the needed span and entirely outside the
/// available one: nothing that is already available is fetched again.
pub proof fn lemma_missing_inside_needed_outside_available(needed: Span, available: Span)
    requires
        needed.start <= needed.end,
        available.start <= available.end,
    ensures
        forall|i: int|
            0 <= i < missing_spans(needed, available).len() ==> {
                let s = #[trigger] missing_spans(needed, available)[i];
                &&& needed.start <= s.start
                &&& s.end <= needed.end
                &&& (s.end < available.start || s.start > available.end)
            },
{
}

/// When the four ends fall at the same time of day, outside a leap second,
/// the missing spans are well formed and cover exactly the instants at that
/// time of day which lie in `needed` and not in `available`.
pub proof fn lemma_missing_spans_exact(needed: Span, available: Span)
    requires
        needed.start <= needed.end,
        available.start <= available.end,
        same_time_of_day(needed.end, needed.start),
        same_time_of_day(available.start, needed.start),
        same_time_of_day(available.end, needed.start),
        !is_leap(needed.start),
    ensures
        forall|i: int|
            0 <= i < missing_spans(needed, available).len() ==> (#[trigger] missing_spans(
                needed,
                available,
            )[i]).start <= missing_spans(needed, available)[i].end,
        forall|t: int|
            same_time_of_day(t, needed.start) ==> (covered(missing_spans(needed, available), t)
                <==> (contains(needed, t) && !contains(available, t))),
{
    lemma_same_time_of_day_equiv(needed.start, needed.start, needed.start);
    lemma_same_time_of_day_not_leap(needed.start, needed.start, 1);
    lemma_same_time_of_day_not_leap(needed.end, needed.start, -1);
    lemma_same_time_of_day_not_leap(available.start, needed.start, -1);
    lemma_same_time_of_day_not_leap(available.end, needed.start, 1);
    reveal(same_time_of_day);
    let m = missing_spans(needed, available);
    let (n, a) = (needed, available);
    assert forall|t: int| same_time_of_day(t, needed.start) implies (covered(m, t) <==> (
    contains(n, t) && !contains(a, t))) by {
        if n.start == a.end && n.start < n.end {
            lemma_same_time_of_day_gap(n.end, n.start);
        }
        if n.end == a.start && n.start < n.end {
            lemma_same_time_of_day_gap(n.end, n.start);
        }
        if t > a.end {
            lemma_same_time_of_day_gap(t, a.end);
        }
        if t < a.start {
            lemma_same_time_of_day_gap(a.start, t);
        }
        if contains(n, t) && !contains(a, t) {
            if m.len() == 1 {
                assert(contains(m[0], t));
            } else if m.len() == 2 {
                if t < a.start {
                    assert(contains(m[0], t));
                } else {
                    assert(contains(m[1], t));
                }
            }
        }
    }
    if n.start < a.start && n.end > a.end {
        lemma_same_time_of_day_gap(a.start, n.start);
        lemma_same_time_of_day_gap(n.end, a.end);
    }
    if n.start < a.start && a.start < n.end {
        lemma_same_time_of_day_gap(a.start, n.start);
    }
    if a.end < n.end && n.start < a.end {
        lemma_same_time_of_day_gap(n.end, a.end);
    }
    if n.start == a.end && n.start < n.end {
        lemma_same_time_of_day_gap(n.end, n.start);
    }
    if n.end == a.start && n.start < n.end {
        lemma_same_time_of_day_gap(n.end, n.start);
    }
}


/// Whole days in a duration of `d` nanoseconds, truncated toward zero (as
/// `chrono::Duration::num_days` counts them).
pub open spec fn num_days(d: int) -> int {
    if d >= 0 {
        d / (NANOS_PER_DAY as int)
    } else {
        -((-d) / (NANOS_PER_DAY as int))
    }
}

/// Moving by a non-negative number of days never goes back, and moving by
/// one day goes forward by more than a second.
pub proof fn lemma_window_advances(t: int, k: int)
    requires
        k >= 0,
    ensures
        add_days(t, k) >= t,
        add_days(t, 1) >= t + TICKS_PER_DAY - NANOS_PER_SECOND,
{
    assert(k * 172_800_000_000_000 >= 0) by (nonlinear_arith)
        requires
            k >= 0,
    ;
    if k > 0 {
        assert(k * 172_800_000_000_000 >= 172_800_000_000_000) by (nonlinear_arith)
            requires
                k >= 1,
        ;
    }
}

/// Consecutive windows of `max_days` days from `cur` on, each starting a day
/// after the previous one ends, the last one cut off at `end`.
pub open spec fn windows_from(cur: int, end: int, max_days: int) -> Seq<Span>
    decreases (if cur < end { end - cur } else { 0 }),
{
    let window_end = add_days(cur, max_days - 1);
    if max_days >= 1 && window_end < end {
        proof {
            lemma_window_advances(cur, max_days - 1);
            lemma_window_advances(window_end, 1);
        }
        seq![Span { start: cur, end: window_end }].add(
            windows_from(add_days(window_end, 1), end, max_days),
        )
    } else {
        seq![Span { start: cur, end }]
    }
}

/// The last window end computed while cutting from `cur` to `end`, which may
/// reach past `end`.
pub open spec fn last_window_end(cur: int, end: int, max_days: int) -> int
    decreases (if cur < end { end - cur } else { 0 }),
{
    let window_end = add_days(cur, max_days - 1);
    if max_days >= 1 && window_end < end {
        proof {
            lemma_window_advances(cur, max_days - 1);
            lemma_window_advances(window_end, 1);
        }
        last_window_end(add_days(window_end, 1), end, max_days)
    } else {
        window_end
    }
}

/// A span shorter than `max_days` whole days stays as it is; a longer one is
/// cut into windows of `max_days` days.
pub open spec fn split_span(s: Span, max_days: int) -> Seq<Span> {
    if num_days(duration_nanos(s.end, s.start)) < max_days {
        seq![s]
    } else {
        windows_from(s.start, s.end, max_days)
    }
}

/// The span can be cut into windows of `max_days` days: the cutting ends, and
/// every instant it computes is representable.
pub open spec fn splittable(s: Span, max_days: int) -> bool {
    &&& span_in_range(s)
    &&& (num_days(duration_nanos(s.end, s.start)) < max_days || (1 <= max_days
        && last_window_end(s.start, s.end, max_days) <= MAX_TICKS))
}

proof fn lemma_last_window_end_bounds(cur: int, end: int, max_days: int)
    requires
        max_days >= 1,
    ensures
        add_days(cur, max_days - 1) <= last_window_end(cur, end, max_days),
        end <= last_window_end(cur, end, max_days),
    decreases (if cur < end { end - cur } else { 0 }),
{
    let window_end = add_days(cur, max_days - 1);
    if window_end < end {
        lemma_window_advances(cur, max_days - 1);
        lemma_window_advances(window_end, 1);
        let next = add_days(window_end, 1);
        lemma_last_window_end_bounds(next, end, max_days);
        lemma_window_advances(next, max_days - 1);
    }
}

/// The whole days chrono counts from `start` to `end`.
pub fn days_between(end: i128, start: i128) -> (days: i128)
    requires
        in_range(end as int),
        in_range(start as int),
    ensures
        days as int == num_days(duration_nanos(end as int, start as int)),
{
    let se = floor_div(end, TICKS_PER_SECOND);
    let fe = fraction(end);
    let sb = floor_div(start, TICKS_PER_SECOND);
    let fb = fraction(start);
    let de = se - floor_div(se, 86_400) * 86_400;
    let db = sb - floor_div(sb, 86_400) * 86_400;
    proof {
        vstd::arithmetic::div_mod::lemma_fundamental_div_mod(se as int, 86_400);
        vstd::arithmetic::div_mod::lemma_fundamental_div_mod(sb as int, 86_400);
        assert(de as int == second_of_day(se as int));
        assert(db as int == second_of_day(sb as int));
    }
    let adjust: i128 = if de > db && fb >= NANOS_PER_SECOND {
        1
    } else if de < db && fe >= NANOS_PER_SECOND {
        -1
    } else {
        0
    };
    let total = (se - sb + adjust) * NANOS_PER_SECOND + fe - fb;
    if total >= 0 {
        ((total as u128) / (NANOS_PER_DAY as u128)) as i128
    } else {
        -((((-total) as u128) / (NANOS_PER_DAY as u128)) as i128)
    }
}

/// Cuts `timespan` into consecutive windows of at most `max_days` days.
pub fn split_timespan_max_days(timespan: &TimeSpan, max_days: i64) -> (pieces: Vec<TimeSpan>)
    requires
        splittable(timespan@, max_days as int),
    ensures
        spans_view(pieces@) == split_span(timespan@, max_days as int),
{
    if days_between(timespan.end, timespan.start) < max_days as i128 {
        let v = vec![TimeSpan { start: timespan.start, end: timespan.end }];
        assert(spans_view(v@) =~= split_span(timespan@, max_days as int));
        return v;
    }
    let mut timespans: Vec<TimeSpan> = Vec::new();
    let mut current_start: i128 = timespan.start;
    proof {
        lemma_last_window_end_bounds(timespan.start as int, timespan.end as int, max_days as int);
        lemma_window_advances(timespan.start as int, max_days - 1);
    }
    let mut current_end: i128 = shift_days(timespan.start, max_days - 1);
    while current_end < timespan.end
        invariant
            1 <= max_days,
            span_in_range(timespan@),
            MIN_TICKS <= timespan.start <= current_start,
            current_end == add_days(current_start as int, max_days - 1),
            last_window_end(current_start as int, timespan.end as int, max_days as int)
                == last_window_end(timespan.start as int, timespan.end as int, max_days as int),
            last_window_end(timespan.start as int, timespan.end as int, max_days as int)
                <= MAX_TICKS,
            current_end <= last_window_end(
                current_start as int,
                timespan.end as int,
                max_days as int,
            ),
            spans_view(timespans@) + windows_from(
                current_start as int,
                timespan.end as int,
                max_days as int,
            ) == windows_from(timespan.start as int, timespan.end as int, max_days as int),
        decreases (if current_start < timespan.end { timespan.end - current_start } else { 0 }),
    {
        proof {
            lemma_window_advances(current_start as int, max_days - 1);
            lemma_window_advances(current_end as int, 1);
        }
        let ghost old_view = spans_view(timespans@);
        let ghost old_start = current_start as int;
        let ghost old_end = current_end as int;
        timespans.push(TimeSpan { start: current_start, end: current_end });
        let ghost next = add_days(old_end, 1);
        proof {
            lemma_last_window_end_bounds(next, timespan.end as int, max_days as int);
            lemma_window_advances(next, max_days - 1);
        }
        current_start = shift_days(current_end, 1);
        current_end = shift_days(current_start, max_days - 1);
        assert(spans_view(timespans@) =~= old_view.push(Span { start: old_start, end: old_end }));
        assert(windows_from(old_start, timespan.end as int, max_days as int) =~= seq![
            Span { start: old_start, end: old_end },
        ].add(windows_from(current_start as int, timespan.end as int, max_days as int)));
    }
    let ghost before = spans_view(timespans@);
    timespans.push(TimeSpan { start: current_start, end: timespan.end });
    assert(spans_view(timespans@) =~= before.push(
        Span { start: current_start as int, end: timespan.end as int },
    ));
    timespans
}

/// The pieces follow each other: each starts one day after the previous one
/// ends, and each but the last spans exactly `max_days` days.
pub open spec fn consecutive_windows(w: Seq<Span>, max_days: int) -> bool {
    forall|i: int|
        0 <= i < w.len() - 1 ==> {
            &&& (#[trigger] w[i]).end == add_days(w[i].start, max_days - 1)
            &&& w[i + 1].start == add_days(w[i].end, 1)
        }
}

proof fn lemma_covered_prepend(p: Span, rest: Seq<Span>, t: int)
    ensures
        covered(seq![p].add(rest), t) <==> (contains(p, t) || covered(rest, t)),
{
    let w = seq![p].add(rest);
    if covered(rest, t) {
        let i = choose|i: int| 0 <= i < rest.len() && contains(#[trigger] rest[i], t);
        assert(w[i + 1] == rest[i]);
    }
    if contains(p, t) {
        assert(w[0] == p);
    }
    if covered(w, t) {
        let i = choose|i: int| 0 <= i < w.len() && contains(#[trigger] w[i], t);
        if i > 0 {
            assert(w[i] == rest[i - 1]);
        }
    }
}

proof fn lemma_windows_shape(cur: int, end: int, max_days: int)
    ensures
        windows_from(cur, end, max_days).len() >= 1,
        windows_from(cur, end, max_days)[0].start == cur,
        windows_from(cur, end, max_days).last().end == end,
        consecutive_windows(windows_from(cur, end, max_days), max_days),
    decreases (if cur < end { end - cur } else { 0 }),
{
    let window_end = add_days(cur, max_days - 1);
    if max_days >= 1 && window_end < end {
        lemma_window_advances(cur, max_days - 1);
        lemma_window_advances(window_end, 1);
        let next = add_days(window_end, 1);
        lemma_windows_shape(next, end, max_days);
        let rest = windows_from(next, end, max_days);
        let w = windows_from(cur, end, max_days);
        assert(w == seq![Span { start: cur, end: window_end }].add(rest));
        assert forall|i: int| 0 <= i < w.len() - 1 implies {
            &&& (#[trigger] w[i]).end == add_days(w[i].start, max_days - 1)
            &&& w[i + 1].start == add_days(w[i].end, 1)
        } by {
            if i > 0 {
                assert(w[i] == rest[i - 1]);
                assert(w[i + 1] == rest[i]);
            }
        }
    }
}

proof fn lemma_windows_exact(cur: int, end: int, max_days: int)
    requires
        cur <= end,
        same_time_of_day(end, cur),
        !is_leap(cur),
    ensures
        forall|i: int|
            0 <= i < windows_from(cur, end, max_days).len() ==> (#[trigger] windows_from(
                cur,
                end,
                max_days,
            )[i]).start <= windows_from(cur, end, max_days)[i].end,
        forall|t: int|
            same_time_of_day(t, cur) ==> (covered(windows_from(cur, end, max_days), t) <==> cur
                <= t <= end),
    decreases end - cur,
{
    let w = windows_from(cur, end, max_days);
    lemma_same_time_of_day_equiv(cur, cur, cur);
    lemma_same_time_of_day_not_leap(cur, cur, max_days - 1);
    let window_end = add_days(cur, max_days - 1);
    if max_days >= 1 && window_end < end {
        lemma_window_advances(cur, max_days - 1);
        let k = max_days - 1;
        assert(same_time_of_day(window_end, cur));
        lemma_same_time_of_day_not_leap(window_end, cur, 1);
        let next = add_days(window_end, 1);
        assert(next == window_end + TICKS_PER_DAY);
        lemma_same_time_of_day_equiv(next, window_end, cur);
        lemma_same_time_of_day_equiv(window_end, cur, cur);
        lemma_same_time_of_day_equiv(end, cur, window_end);
        lemma_same_time_of_day_gap(end, window_end);
        lemma_same_time_of_day_equiv(end, cur, next);
        lemma_same_time_of_day_equiv(next, cur, end);
        lemma_same_time_of_day_not_leap(next, cur, 0);
        lemma_windows_exact(next, end, max_days);
        let p = Span { start: cur, end: window_end };
        let rest = windows_from(next, end, max_days);
        assert(w == seq![p].add(rest));
        assert forall|i: int| 0 <= i < w.len() implies (#[trigger] w[i]).start <= w[i].end by {
            if i > 0 {
                assert(w[i] == rest[i - 1]);
            }
        }
        assert forall|t: int| same_time_of_day(t, cur) implies (covered(w, t) <==> cur <= t
            <= end) by {
            lemma_covered_prepend(p, rest, t);
            lemma_same_time_of_day_equiv(t, cur, next);
            lemma_same_time_of_day_equiv(cur, next, next);
            lemma_same_time_of_day_equiv(next, cur, cur);
            lemma_same_time_of_day_equiv(t, cur, next);
            assert(same_time_of_day(t, next));
            assert(covered(rest, t) <==> next <= t <= end);
            if t > window_end {
                lemma_same_time_of_day_equiv(t, cur, window_end);
                lemma_same_time_of_day_equiv(window_end, cur, t);
                lemma_same_time_of_day_gap(t, window_end);
            }
        }
    } else {
        assert forall|t: int| same_time_of_day(t, cur) implies (covered(w, t) <==> cur <= t
            <= end) by {
            if cur <= t <= end {
                assert(contains(w[0], t));
            }
            if covered(w, t) {
                let i = choose|i: int| 0 <= i < w.len() && contains(#[trigger] w[i], t);
                assert(i == 0);
            }
        }
    }
}

/// Cutting a span keeps its ends and leaves no gap: the first piece starts
/// where the span starts, the last ends where it ends, each piece starts one
/// day after the previous one ends, and every piece but the last spans
/// exactly `max_days` days.
pub proof fn lemma_split_shape(s: Span, max_days: int)
    ensures
        split_span(s, max_days).len() >= 1,
        split_span(s, max_days)[0].start == s.start,
        split_span(s, max_days).last().end == s.end,
        consecutive_windows(split_span(s, max_days), max_days),
{
    if num_days(duration_nanos(s.end, s.start)) >= max_days {
        lemma_windows_shape(s.start, s.end, max_days);
    }
}

/// For a span whose ends fall at the same time of day, outside a leap
/// second, the pieces are well formed and cover exactly the instants of the
/// span at that time of day.
pub proof fn lemma_split_exact(s: Span, max_days: int)
    requires
        s.start <= s.end,
        same_time_of_day(s.end, s.start),
        !is_leap(s.start),
    ensures
        forall|i: int|
            0 <= i < split_span(s, max_days).len() ==> (#[trigger] split_span(s, max_days)[i]).start
                <= split_span(s, max_days)[i].end,
        forall|t: int|
            same_time_of_day(t, s.start) ==> (covered(split_span(s, max_days), t) <==> contains(
                s,
                t,
            )),
{
    if num_days(duration_nanos(s.end, s.start)) >= max_days {
        lemma_windows_exact(s.start, s.end, max_days);
    } else {
        assert forall|t: int| same_time_of_day(t, s.start) implies (covered(
            split_span(s, max_days),
            t,
        ) <==> contains(s, t)) by {
            if contains(s, t) {
                assert(contains(split_span(s, max_days)[0], t));
            }
            if covered(split_span(s, max_days), t) {
                let w = split_span(s, max_days);
                let i = choose|i: int| 0 <= i < w.len() && contains(#[trigger] w[i], t);
                assert(i == 0);
            }
        }
    }
}

/// A span shorter than `max_days` whole days is left whole.
pub proof fn lemma_split_short_span_whole(s: Span, max_days: int)
    requires
        num_days(duration_nanos(s.end, s.start)) < max_days,
    ensures
        split_span(s, max_days) == seq![s],
{
}


/// An instant no later than `k` days after `b` (as chrono moves `b`) lies
/// fewer than `k + 1` whole days after it, as chrono counts them.
pub proof fn lemma_within_days(e: int, b: int, k: int)
    requires
        k >= 0,
        e <= add_days(b, k),
    ensures
        duration_nanos(e, b) < (k + 1) * NANOS_PER_DAY,
        num_days(duration_nanos(e, b)) < k + 1,
{
    let t = TICKS_PER_SECOND as int;
    let (se, fe) = (seconds_of(e), fraction_of(e));
    let (sb, fb) = (seconds_of(b), fraction_of(b));
    vstd::arithmetic::div_mod::lemma_fundamental_div_mod(e, t);
    vstd::arithmetic::div_mod::lemma_fundamental_div_mod(b, t);
    assert(0 <= fe < t && 0 <= fb < t);
    let big_k = k * 86_400;
    assert(k * 172_800_000_000_000 == big_k * 2_000_000_000) by (nonlinear_arith)
        requires
            big_k == k * 86_400,
    ;
    assert(big_k * 1_000_000_000 == k * 86_400_000_000_000) by (nonlinear_arith)
        requires
            big_k == k * 86_400,
    ;
    let d = duration_nanos(e, b);
    if !is_leap(b) {
        assert(t * (se - sb - big_k) <= fb - fe);
        assert(se - sb - big_k <= 0);
        if se - sb == big_k {
            assert(fe <= fb);
        }
        assert(d <= big_k * 1_000_000_000 + 1_000_000_000);
    } else if k > 0 {
        assert(t * (se - sb - big_k) <= fb - fe - 1_000_000_000);
        assert(se - sb - big_k <= 0);
        if se - sb == big_k {
            assert(fe <= fb - 1_000_000_000);
        }
        assert(d <= big_k * 1_000_000_000 + 1_000_000_000);
    } else {
        assert(t * (se - sb) <= fb - fe);
        assert(se <= sb);
        if se == sb {
            assert(fe <= fb);
        }
        assert(d <= 1_000_000_000);
    }
    assert(d < (k + 1) * 86_400_000_000_000);
    if d >= 0 {
        assert(d / 86_400_000_000_000 < k + 1) by (nonlinear_arith)
            requires
                0 <= d < (k + 1) * 86_400_000_000_000,
        ;
    }
}

proof fn lemma_windows_short(cur: int, end: int, max_days: int)
    requires
        max_days >= 1,
    ensures
        forall|i: int|
            0 <= i < windows_from(cur, end, max_days).len() ==> num_days(
                duration_nanos(
                    (#[trigger] windows_from(cur, end, max_days)[i]).end,
                    windows_from(cur, end, max_days)[i].start,
                ),
            ) < max_days,
    decreases (if cur < end { end - cur } else { 0 }),
{
    let window_end = add_days(cur, max_days - 1);
    let w = windows_from(cur, end, max_days);
    if window_end < end {
        lemma_window_advances(cur, max_days - 1);
        lemma_window_advances(window_end, 1);
        let next = add_days(window_end, 1);
        lemma_windows_short(next, end, max_days);
        lemma_within_days(window_end, cur, max_days - 1);
        let rest = windows_from(next, end, max_days);
        assert(w == seq![Span { start: cur, end: window_end }].add(rest));
        assert forall|i: int| 0 <= i < w.len() implies num_days(
            duration_nanos((#[trigger] w[i]).end, w[i].start),
        ) < max_days by {
            if i > 0 {
                assert(w[i] == rest[i - 1]);
            }
        }
    } else {
        lemma_within_days(end, cur, max_days - 1);
    }
}

/// Every piece of a cut span lasts fewer than `max_days` whole days, as
/// chrono counts them: a span of `max_days` days or more is never sent in
/// one request.
pub proof fn lemma_split_pieces_shorter_than_max(s: Span, max_days: int)
    requires
        max_days >= 1,
    ensures
        forall|i: int|
            0 <= i < split_span(s, max_days).len() ==> num_days(
                duration_nanos(
                    (#[trigger] split_span(s, max_days)[i]).end,
                    split_span(s, max_days)[i].start,
                ),
            ) < max_days,
        num_days(duration_nanos(s.end, s.start)) >= max_days ==> split_span(s, max_days).len()
            >= 2,
{
    if num_days(duration_nanos(s.end, s.start)) >= max_days {
        lemma_windows_short(s.start, s.end, max_days);
        lemma_windows_shape(s.start, s.end, max_days);
        let w = split_span(s, max_days);
        if w.len() == 1 {
            assert(w[0].start == s.start && w[0].end == s.end);
        }
    } else {
        assert(split_span(s, max_days)[0] == s);
    }
}

/// Every span of `spans` cut into windows of `max_days` days, in order.
pub open spec fn split_all(spans: Seq<Span>, max_days: int) -> Seq<Span>
    decreases spans.len(),
{
    if spans.len() == 0 {
        seq![]
    } else {
        split_all(spans.drop_last(), max_days) + split_span(spans.last(), max_days)
    }
}

/// Cuts every span into windows of at most `max_days` days, keeping their
/// order.
pub fn split_all_timespans_max_days(timespans: &[TimeSpan], max_days: i64) -> (pieces: Vec<
    TimeSpan,
>)
    requires
        forall|i: int| 0 <= i < timespans@.len() ==> splittable(#[trigger] timespans@[i]@, max_days as int),
    ensures
        spans_view(pieces@) == split_all(spans_view(timespans@), max_days as int),
{
    let mut results: Vec<TimeSpan> = Vec::new();
    let n = timespans.len();
    for i in 0..n
        invariant
            n == timespans@.len(),
            forall|j: int| 0 <= j < timespans@.len() ==> splittable(#[trigger] timespans@[j]@, max_days as int),
            spans_view(results@) == split_all(spans_view(timespans@).take(i as int), max_days as int),
    {
        let mut intermediate_results = split_timespan_max_days(&timespans[i], max_days);
        let ghost before = spans_view(results@);
        results.append(&mut intermediate_results);
        proof {
            let all = spans_view(timespans@);
            assert(all.take(i + 1).drop_last() =~= all.take(i as int));
            assert(all.take(i + 1).last() == timespans@[i as int]@);
            assert(spans_view(results@) =~= before + split_span(timespans@[i as int]@, max_days as int));
        }
    }
    assert(spans_view(timespans@).take(n as int) =~= spans_view(timespans@));
    results
}

proof fn lemma_covered_concat(a: Seq<Span>, b: Seq<Span>, t: int)
    ensures
        covered(a + b, t) <==> (covered(a, t) || covered(b, t)),
{
    let w = a + b;
    if covered(a, t) {
        let i = choose|i: int| 0 <= i < a.len() && contains(#[trigger] a[i], t);
        assert(w[i] == a[i]);
    }
    if covered(b, t) {
        let i = choose|i: int| 0 <= i < b.len() && contains(#[trigger] b[i], t);
        assert(w[a.len() + i] == b[i]);
    }
    if covered(w, t) {
        let i = choose|i: int| 0 <= i < w.len() && contains(#[trigger] w[i], t);
        if i < a.len() {
            assert(w[i] == a[i]);
        } else {
            assert(w[i] == b[i - a.len()]);
        }
    }
}

proof fn lemma_covered_single(s: Span, t: int)
    ensures
        covered(seq![s], t) <==> contains(s, t),
{
    if covered(seq![s], t) {
        let i = choose|i: int| 0 <= i < 1 && contains(#[trigger] seq![s][i], t);
        assert(i == 0);
    }
    if contains(s, t) {
        assert(contains(seq![s][0], t));
    }
}

/// Every span is well formed and both its ends fall at `time_of_day`.
pub open spec fn aligned_spans(spans: Seq<Span>, time_of_day: int) -> bool {
    forall|i: int|
        0 <= i < spans.len() ==> {
            &&& (#[trigger] spans[i]).start <= spans[i].end
            &&& same_time_of_day(spans[i].start, time_of_day)
            &&& same_time_of_day(spans[i].end, time_of_day)
        }
}

proof fn lemma_aligned_spans_split(spans: Seq<Span>, time_of_day: int)
    requires
        spans.len() > 0,
        aligned_spans(spans, time_of_day),
    ensures
        aligned_spans(spans.drop_last(), time_of_day),
        spans.last().start <= spans.last().end,
        same_time_of_day(spans.last().end, spans.last().start),
        spans =~= spans.drop_last() + seq![spans.last()],
{
    let init = spans.drop_last();
    assert forall|i: int| 0 <= i < init.len() implies {
        &&& (#[trigger] init[i]).start <= init[i].end
        &&& same_time_of_day(init[i].start, time_of_day)
        &&& same_time_of_day(init[i].end, time_of_day)
    } by {
        assert(init[i] == spans[i]);
    }
    let last = spans.last();
    assert(last == spans[spans.len() - 1]);
    lemma_same_time_of_day_equiv(last.end, time_of_day, last.start);
    lemma_same_time_of_day_equiv(last.start, time_of_day, last.end);
}

/// Cutting several spans whose ends all fall at one time of day, outside a
/// leap second, covers exactly the instants at that time of day that the
/// spans covered.
pub proof fn lemma_split_all_exact(spans: Seq<Span>, max_days: int, time_of_day: int)
    requires
        aligned_spans(spans, time_of_day),
        !is_leap(time_of_day),
    ensures
        forall|t: int|
            same_time_of_day(t, time_of_day) ==> (covered(split_all(spans, max_days), t)
                <==> covered(spans, t)),
    decreases spans.len(),
{
    if spans.len() == 0 {
        return;
    }
    let init = spans.drop_last();
    let last = spans.last();
    lemma_aligned_spans_split(spans, time_of_day);
    lemma_split_all_exact(init, max_days, time_of_day);
    lemma_same_time_of_day_not_leap(last.start, time_of_day, 0);
    lemma_split_exact(last, max_days);
    assert forall|t: int| same_time_of_day(t, time_of_day) implies (covered(
        split_all(spans, max_days),
        t,
    ) <==> covered(spans, t)) by {
        lemma_same_time_of_day_equiv(t, time_of_day, last.start);
        lemma_same_time_of_day_equiv(last.start, time_of_day, t);
        assert(covered(split_span(last, max_days), t) <==> contains(last, t));
        assert(covered(split_all(init, max_days), t) <==> covered(init, t));
        lemma_split_all_step(init, last, max_days, t);
    }
}

proof fn lemma_split_all_step(init: Seq<Span>, last: Span, max_days: int, t: int)
    requires
        covered(split_all(init, max_days), t) <==> covered(init, t),
        covered(split_span(last, max_days), t) <==> contains(last, t),
    ensures
        covered(split_all(init + seq![last], max_days), t) <==> covered(init + seq![last], t),
{
    let spans = init + seq![last];
    assert(spans.drop_last() =~= init);
    assert(split_all(spans, max_days) == split_all(init, max_days) + split_span(last, max_days));
    lemma_covered_concat(split_all(init, max_days), split_span(last, max_days), t);
    lemma_covered_concat(init, seq![last], t);
    lemma_covered_single(last, t);
}

/// The spans still to retrieve for `start..end`, given the times of the
/// snapshots already stored (oldest first): the whole request when nothing is
/// stored, else what the stored range misses.
pub open spec fn retrieve_spans(times: Seq<i128>, start: int, end: int) -> Seq<Span> {
    if times.len() == 0 {
        seq![Span { start, end }]
    } else {
        missing_spans(
            Span { start, end },
            Span { start: times[0] as int, end: times.last() as int },
        )
    }
}

/// What `get_timespans_to_retrieve` needs of its inputs: representable
/// request bounds and, when snapshots are stored, ordered bounds whose
/// shifted edges stay representable.
pub open spec fn retrievable(times: Seq<i128>, start: int, end: int) -> bool {
    &&& in_range(start)
    &&& in_range(end)
    &&& times.len() > 0 ==> {
        &&& start <= end
        &&& times[0] <= times.last()
        &&& in_range(times[0] as int)
        &&& in_range(times.last() as int)
        &&& spans_in_range(retrieve_spans(times, start, end))
    }
}

/// The spans of `start..end` that are not yet stored, given the times of the
/// stored snapshots, oldest first.
pub fn get_timespans_to_retrieve(snapshot_times: &[i128], start: i128, end: i128) -> (spans: Vec<
    TimeSpan,
>)
    requires
        retrievable(snapshot_times@, start as int, end as int),
    ensures
        spans_view(spans@) == retrieve_spans(snapshot_times@, start as int, end as int),
{
    if snapshot_times.len() == 0 {
        let v = vec![TimeSpan { start, end }];
        assert(spans_view(v@) =~= retrieve_spans(snapshot_times@, start as int, end as int));
        return v;
    }
    let database_start = snapshot_times[0];
    let database_end = snapshot_times[snapshot_times.len() - 1];
    let needed = TimeSpan { start, end };
    let available = TimeSpan { start: database_start, end: database_end };
    get_missing_timespans(needed, available)
}


/// `t` is in the range of ticks.
pub fn is_in_range(t: i128) -> (ok: bool)
    ensures
        ok == in_range(t as int),
{
    MIN_TICKS <= t && t <= MAX_TICKS
}

/// `t` is an instant chrono can build.
pub fn is_valid_instant(t: i128) -> (ok: bool)
    ensures
        ok == valid_instant(t as int),
{
    if !is_in_range(t) {
        return false;
    }
    if fraction(t) < NANOS_PER_SECOND {
        return true;
    }
    let secs = floor_div(t, TICKS_PER_SECOND);
    let minute = floor_div(secs, 60);
    proof {
        vstd::arithmetic::div_mod::lemma_fundamental_div_mod(secs as int, 60);
    }
    secs - minute * 60 == 59
}

/// Whether `add_days(t, k)` is in range, for `t` in range and `k` one day
/// either way.
pub fn shifted_in_range(t: i128, k: i64) -> (ok: bool)
    requires
        in_range(t as int),
        k == 1 || k == -1,
    ensures
        ok == in_range(add_days(t as int, k as int)),
{
    let leap = fraction(t) >= NANOS_PER_SECOND;
    let moved = if leap && k > 0 {
        t + TICKS_PER_DAY - NANOS_PER_SECOND
    } else if leap && k < 0 {
        t - TICKS_PER_DAY + TICKS_PER_SECOND - NANOS_PER_SECOND
    } else {
        t + k as i128 * TICKS_PER_DAY
    };
    is_in_range(moved)
}

/// Whether the day shifts of `get_missing_timespans` stay representable.
pub fn missing_spans_fit(needed: TimeSpan, available: TimeSpan) -> (ok: bool)
    requires
        span_in_range(needed@),
        span_in_range(available@),
    ensures
        ok == spans_in_range(missing_spans(needed@, available@)),
{
    let ghost m = missing_spans(needed@, available@);
    let (ns, ne) = (needed.start, needed.end);
    let (a_s, ae) = (available.start, available.end);
    if ns >= a_s && ne <= ae {
        true
    } else if ns >= ae && ne >= ae {
        if ns == ae {
            assert(m[0] == Span { start: add_days(ns as int, 1), end: ne as int });
            shifted_in_range(ns, 1)
        } else {
            assert(m[0] == Span { start: ns as int, end: ne as int });
            true
        }
    } else if ns <= a_s && ne <= a_s {
        if ne == a_s {
            assert(m[0] == Span { start: ns as int, end: add_days(ne as int, -1) });
            shifted_in_range(ne, -1)
        } else {
            assert(m[0] == Span { start: ns as int, end: ne as int });
            true
        }
    } else if ns <= a_s && ne <= ae {
        assert(m[0] == Span { start: ns as int, end: add_days(a_s as int, -1) });
        shifted_in_range(a_s, -1)
    } else if ns >= a_s && ne >= ae {
        assert(m[0] == Span { start: add_days(ae as int, 1), end: ne as int });
        shifted_in_range(ae, 1)
    } else {
        assert(m[0] == Span { start: ns as int, end: add_days(a_s as int, -1) });
        assert(m[1] == Span { start: add_days(ae as int, 1), end: ne as int });
        shifted_in_range(a_s, -1) && shifted_in_range(ae, 1)
    }
}

/// Whether the inputs are ones `get_timespans_to_retrieve` accepts.
pub fn is_retrievable(snapshot_times: &[i128], start: i128, end: i128) -> (ok: bool)
    ensures
        ok == retrievable(snapshot_times@, start as int, end as int),
{
    if !is_in_range(start) || !is_in_range(end) {
        return false;
    }
    if snapshot_times.len() == 0 {
        return true;
    }
    let first = snapshot_times[0];
    let last = snapshot_times[snapshot_times.len() - 1];
    if !(start <= end && first <= last && is_in_range(first) && is_in_range(last)) {
        return false;
    }
    missing_spans_fit(TimeSpan { start, end }, TimeSpan { start: first, end: last })
}

/// Whether `last_window_end(start, end, max_days)`, for a positive
/// `max_days`, stays at or below the last representable instant.
#[verifier::rlimit(60)]
fn last_window_end_fits(start: i128, end: i128, max_days: i64) -> (fits: bool)
    requires
        max_days >= 1,
        in_range(start as int),
        in_range(end as int),
    ensures
        fits == (last_window_end(start as int, end as int, max_days as int) <= MAX_TICKS),
{
    let mut cur: i128 = start;
    proof {
        lemma_last_window_end_bounds(start as int, end as int, max_days as int);
        lemma_window_advances(start as int, max_days - 1);
    }
    let ghost target = last_window_end(start as int, end as int, max_days as int);
    if !in_range_after_days(cur, max_days - 1) {
        assert(add_days(cur as int, max_days - 1) > MAX_TICKS);
        return false;
    }
    let mut window_end = shift_days(cur, max_days - 1);
    while window_end < end
        invariant
            max_days >= 1,
            in_range(end as int),
            MIN_TICKS <= cur,
            in_range(window_end as int),
            window_end == add_days(cur as int, max_days - 1),
            target == last_window_end(start as int, end as int, max_days as int),
            last_window_end(cur as int, end as int, max_days as int) == target,
        decreases (if cur < end { end - cur } else { 0 }),
    {
        let ghost old_cur = cur as int;
        proof {
            lemma_window_advances(cur as int, max_days - 1);
            lemma_window_advances(window_end as int, 1);
            lemma_last_window_end_bounds(cur as int, end as int, max_days as int);
        }
        if !shifted_in_range(window_end, 1) {
            let ghost next = add_days(window_end as int, 1);
            proof {
                lemma_last_window_end_bounds(next, end as int, max_days as int);
                lemma_window_advances(next, max_days - 1);
                assert(last_window_end(old_cur, end as int, max_days as int) == last_window_end(
                    next,
                    end as int,
                    max_days as int,
                ));
            }
            return false;
        }
        cur = shift_days(window_end, 1);
        assert(last_window_end(old_cur, end as int, max_days as int) == last_window_end(
            cur as int,
            end as int,
            max_days as int,
        ));
        proof {
            lemma_last_window_end_bounds(cur as int, end as int, max_days as int);
            lemma_window_advances(cur as int, max_days - 1);
        }
        if !in_range_after_days(cur, max_days - 1) {
            return false;
        }
        window_end = shift_days(cur, max_days - 1);
    }
    assert(last_window_end(cur as int, end as int, max_days as int) == window_end);
    true
}

/// `add_days(t, k)` stays at or below the last representable instant, for a
/// non-negative `k`.
fn in_range_after_days(t: i128, k: i64) -> (ok: bool)
    requires
        in_range(t as int),
        k >= 0,
    ensures
        ok == (add_days(t as int, k as int) <= MAX_TICKS),
{
    proof {
        lemma_window_advances(t as int, k as int);
        assert((k as int) * 172_800_000_000_000 <= 0x7fff_ffff_ffff_ffff * 172_800_000_000_000)
            by (nonlinear_arith)
            requires k <= 0x7fff_ffff_ffff_ffff;
    }
    let leap = fraction(t) >= NANOS_PER_SECOND;
    let step = k as i128 * TICKS_PER_DAY;
    if leap && k > 0 {
        t + step - NANOS_PER_SECOND <= MAX_TICKS
    } else {
        t + step <= MAX_TICKS
    }
}

/// Whether `split_timespan_max_days` accepts the span and window length.
pub fn is_splittable(timespan: &TimeSpan, max_days: i64) -> (ok: bool)
    ensures
        ok == splittable(timespan@, max_days as int),
{
    if !is_in_range(timespan.start) || !is_in_range(timespan.end) {
        return false;
    }
    if days_between(timespan.end, timespan.start) < max_days as i128 {
        return true;
    }
    if max_days < 1 {
        return false;
    }
    last_window_end_fits(timespan.start, timespan.end, max_days)
}

/// Cutting a list of spans is cutting each span, in order: cutting a
/// concatenation gives the concatenation of the cuts, and no spans give no
/// pieces.
pub proof fn lemma_split_all_concat(a: Seq<Span>, b: Seq<Span>, max_days: int)
    ensures
        split_all(a + b, max_days) == split_all(a, max_days) + split_all(b, max_days),
        split_all(Seq::<Span>::empty(), max_days) == Seq::<Span>::empty(),
    decreases b.len(),
{
    if b.len() == 0 {
        assert(a + b =~= a);
        assert(split_all(a, max_days) + split_all(b, max_days) =~= split_all(a, max_days));
    } else {
        lemma_split_all_concat(a, b.drop_last(), max_days);
        assert((a + b).drop_last() =~= a + b.drop_last());
        assert((a + b).last() == b.last());
        assert(split_all(a + b, max_days) =~= split_all(a, max_days) + split_all(b, max_days));
    }
}

/// With snapshots stored, what is retrieved is what the range from the first
/// to the last stored time misses.
pub proof fn lemma_retrieve_is_missing_of_stored_range(times: Seq<i128>, start: int, end: int)
    requires
        times.len() > 0,
    ensures
        retrieve_spans(times, start, end) == missing_spans(
            Span { start, end },
            Span { start: times[0] as int, end: times.last() as int },
        ),
{
}

/// Only the first and the last stored times matter: the gaps between them
/// are never retrieved.
pub proof fn lemma_retrieve_depends_on_ends(
    times1: Seq<i128>,
    times2: Seq<i128>,
    start: int,
    end: int,
)
    requires
        times1.len() > 0,
        times2.len() > 0,
        times1[0] == times2[0],
        times1.last() == times2.last(),
    ensures
        retrieve_spans(times1, start, end) == retrieve_spans(times2, start, end),
{
}

/// `t / d` rounded down, as `i128::div_euclid` computes it for a positive
/// `d`.
pub fn floor_div(t: i128, d: i128) -> (q: i128)
    requires
        d > 0,
    ensures
        q as int == t as int / d as int,
{
    if t >= 0 {
        ((t as u128) / (d as u128)) as i128
    } else {
        let u: u128 = (-(t + 1)) as u128;
        let q1: u128 = u / (d as u128);
        proof {
            vstd::arithmetic::div_mod::lemma_fundamental_div_mod(u as int, d as int);
            let r1 = u as int % d as int;
            assert(t as int == (-(q1 as int) - 1) * d + (d - r1 - 1)) by (nonlinear_arith)
                requires
                    u as int == d * (q1 as int) + r1,
                    u as int == -(t + 1),
            ;
            vstd::arithmetic::div_mod::lemma_fundamental_div_mod_converse_div(
                t as int,
                d as int,
                -(q1 as int) - 1,
                d - r1 - 1,
            );
        }
        -(q1 as i128) - 1
    }
}


} // verus!
