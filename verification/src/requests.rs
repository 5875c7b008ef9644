//! The requests to the exchange and to the price service, and the reading of
//! their answers.

use vstd::prelude::*;
use vstd::utf8::encode_utf8;
use crate::datetime::{get_uri_escaped_datetime, parse_datetime, parsed_ticks, rfc3339_seconds};
use crate::model::{Environment, HistoryEntry, Sparkline};
use crate::signing::{get_mac_sha256, hmac_sha256, lower_hex};
use crate::text::{
    decimal, decimal_string, escape_colons, join, joined, signed_decimal, signed_decimal_string,
    texts,
};
use crate::timespan::{
    add_days, floor_div, fraction, fraction_of, in_range, is_in_range, is_leap, minus_second,
    seconds_of,
    shift_days, shifted_in_range, valid_instant, NANOS_PER_MILLI, NANOS_PER_SECOND, TICKS_PER_SECOND,
};

verus! {

/// The exchange's account snapshot endpoint.
pub const BINANCE_API_BASE_URL: &'static str = "https://api.binance.com/sapi/v1/accountSnapshot";

/// The price service's history endpoint.
pub const NOMICS_API_BASE_URL: &'static str = "https://api.nomics.com/v1/currencies/sparkline";

/// The kind of account whose snapshots are read.
pub const ACCOUNT_TYPE: &'static str = "SPOT";

/// The window the exchange is asked for to get the daily snapshots of
/// `start..end`: a day earlier when the window is a single instant, else a
/// second earlier; and ending a second before `end`.
pub open spec fn binance_window(start: int, end: int) -> (int, int) {
    let shifted_start = if start == end {
        add_days(start, -1)
    } else {
        minus_second(start)
    };
    (shifted_start, minus_second(end))
}

/// The milliseconds of an instant, as chrono's `timestamp_millis` counts
/// them.
pub open spec fn millis_of(t: int) -> int {
    seconds_of(t) * 1000 + fraction_of(t) / NANOS_PER_MILLI as int
}

/// Moves `t` back by one second as chrono subtracts `Duration::seconds(1)`.
fn back_one_second(t: i128) -> (moved: i128)
    requires
        in_range(t as int),
        in_range(minus_second(t as int)),
    ensures
        moved as int == minus_second(t as int),
{
    if fraction(t) >= NANOS_PER_SECOND {
        t - NANOS_PER_SECOND
    } else {
        t - TICKS_PER_SECOND
    }
}

/// Writes the milliseconds of an instant, as chrono's `timestamp_millis`.
fn millis(t: i128) -> (ms: i64)
    requires
        in_range(t as int),
    ensures
        ms as int == millis_of(t as int),
{
    let secs = floor_div(t, TICKS_PER_SECOND);
    let frac = fraction(t);
    (secs * 1000 + ((frac as u128) / (NANOS_PER_MILLI as u128)) as i128) as i64
}

/// Both ends of the shifted window are representable instants.
pub open spec fn binance_window_in_range(start: int, end: int) -> bool {
    &&& in_range(binance_window(start, end).0)
    &&& in_range(binance_window(start, end).1)
}

/// Whether `binance_query_window` accepts `start..end`.
pub fn binance_window_fits(start: i128, end: i128) -> (ok: bool)
    ensures
        ok == (in_range(start as int) && in_range(end as int) && binance_window_in_range(
            start as int,
            end as int,
        )),
{
    if !is_in_range(start) || !is_in_range(end) {
        return false;
    }
    let end_ok = if fraction(end) >= NANOS_PER_SECOND {
        is_in_range(end - NANOS_PER_SECOND)
    } else {
        is_in_range(end - TICKS_PER_SECOND)
    };
    let start_ok = if start == end {
        shifted_in_range(start, -1)
    } else if fraction(start) >= NANOS_PER_SECOND {
        is_in_range(start - NANOS_PER_SECOND)
    } else {
        is_in_range(start - TICKS_PER_SECOND)
    };
    start_ok && end_ok
}

/// Shifts `start..end` to the window the exchange is asked for.
pub fn binance_query_window(start: i128, end: i128) -> (window: (i128, i128))
    requires
        in_range(start as int),
        in_range(end as int),
        binance_window_in_range(start as int, end as int),
    ensures
        (window.0 as int, window.1 as int) == binance_window(start as int, end as int),
{
    let shifted_start = if start == end {
        shift_days(start, -1)
    } else {
        back_one_second(start)
    };
    (shifted_start, back_one_second(end))
}

/// The query of a snapshot request, before it is signed.
pub open spec fn binance_params(
    account_type: Seq<char>,
    limit: u8,
    now: u128,
    start: int,
    end: int,
) -> Seq<char> {
    let (shifted_start, shifted_end) = binance_window(start, end);
    "type="@ + account_type + "&limit="@ + decimal(limit as nat) + "&timestamp="@ + decimal(
        now as nat,
    ) + "&startTime="@ + signed_decimal(millis_of(shifted_start)) + "&endTime="@
        + signed_decimal(millis_of(shifted_end))
}

/// Writes the query of a snapshot request for `account_type`, at most
/// `limit` snapshots, the current time `now` in milliseconds, and the window
/// `start..end` (ticks), whose shifted ends are written in milliseconds as
/// `timestamp_millis` writes them.
pub fn binance_snapshot_params(account_type: &str, limit: u8, now: u128, start: i128, end: i128) -> (params: String)
    requires
        in_range(start as int),
        in_range(end as int),
        binance_window_in_range(start as int, end as int),
    ensures
        params@ == binance_params(account_type@, limit, now, start as int, end as int),
{
    let (shifted_start, shifted_end) = binance_query_window(start, end);
    let mut params = String::from_str("type=");
    params.append(account_type);
    params.append("&limit=");
    params.append(decimal_string(limit as u128).as_str());
    params.append("&timestamp=");
    params.append(decimal_string(now).as_str());
    params.append("&startTime=");
    params.append(signed_decimal_string(millis(shifted_start)).as_str());
    params.append("&endTime=");
    params.append(signed_decimal_string(millis(shifted_end)).as_str());
    params
}

/// The signed URL of a snapshot request.
pub open spec fn binance_url(
    binance_secret: Seq<char>,
    account_type: Seq<char>,
    limit: u8,
    now: u128,
    start: int,
    end: int,
) -> Seq<char> {
    let params = binance_params(account_type, limit, now, start, end);
    BINANCE_API_BASE_URL@ + "?"@ + params + "&signature="@ + lower_hex(
        hmac_sha256(encode_utf8(binance_secret), encode_utf8(params)),
    )
}

/// The URL of a snapshot request, signed with the account's secret.
pub fn binance_snapshot_url(
    auth: &Environment,
    account_type: &str,
    limit: u8,
    now: u128,
    start: i128,
    end: i128,
) -> (url: String)
    requires
        in_range(start as int),
        in_range(end as int),
        binance_window_in_range(start as int, end as int),
    ensures
        url@ == binance_url(auth.binance_secret@, account_type@, limit, now, start as int, end as int),
{
    let params = binance_snapshot_params(account_type, limit, now, start, end);
    let signature = get_mac_sha256(&params, &auth.binance_secret);
    let mut url = String::from_str(BINANCE_API_BASE_URL);
    url.append("?");
    url.append(params.as_str());
    url.append("&signature=");
    url.append(signature.as_str());
    url
}

/// The instant of chrono's `Utc.timestamp_millis(ms)`, in ticks.
pub open spec fn instant_of_millis(ms: int) -> int {
    (ms / 1000) * TICKS_PER_SECOND + (ms % 1000) * NANOS_PER_MILLI
}

/// The instant (ticks) a snapshot stands for: one second after the
/// exchange's update time (milliseconds), which falls a second before the day
/// it closes.
pub fn binance_snapshot_time(update_time: i64) -> (time: i128)
    requires
        in_range(instant_of_millis(update_time as int)),
        in_range(instant_of_millis(update_time as int) + TICKS_PER_SECOND),
    ensures
        time == instant_of_millis(update_time as int) + TICKS_PER_SECOND,
{
    let secs = floor_div(update_time as i128, 1000);
    proof {
        vstd::arithmetic::div_mod::lemma_fundamental_div_mod(update_time as int, 1000);
    }
    let rest = update_time as i128 - secs * 1000;
    secs * TICKS_PER_SECOND + rest * NANOS_PER_MILLI + TICKS_PER_SECOND
}

/// The URL of a price history request.
pub open spec fn nomics_url(
    nomics_key: Seq<char>,
    ids: Seq<Seq<char>>,
    convert: Seq<char>,
    start: int,
    end: int,
) -> Seq<char> {
    NOMICS_API_BASE_URL@ + "?key="@ + nomics_key + "&"@ + "ids="@ + joined(ids, ","@)
        + "&convert="@ + convert + "&start="@ + escape_colons(
        rfc3339_seconds(seconds_of(start) as i64, fraction_of(start) as u32),
    ) + "&end="@ + escape_colons(
        rfc3339_seconds(seconds_of(end) as i64, fraction_of(end) as u32),
    )
}

/// The URL that asks the price service for the prices of `ids` in `convert`
/// from `start` to `end`.
pub fn nomics_history_url(
    auth: &Environment,
    ids: &[String],
    convert: &str,
    start: i128,
    end: i128,
) -> (url: String)
    requires
        valid_instant(start as int),
        valid_instant(end as int),
    ensures
        url@ == nomics_url(auth.nomics_key@, texts(ids@), convert@, start as int, end as int),
{
    let mut url = String::from_str(NOMICS_API_BASE_URL);
    url.append("?key=");
    url.append(auth.nomics_key.as_str());
    url.append("&");
    url.append("ids=");
    url.append(join(ids, ",").as_str());
    url.append("&convert=");
    url.append(convert);
    url.append("&start=");
    url.append(get_uri_escaped_datetime(start).as_str());
    url.append("&end=");
    url.append(get_uri_escaped_datetime(end).as_str());
    url
}

/// A sparkline can be read: a price at each position of a timestamp, and
/// every timestamp in RFC 3339.
pub open spec fn readable_sparkline(sparkline: Sparkline) -> bool {
    &&& sparkline.prices@.len() >= sparkline.timestamps@.len()
    &&& forall|j: int|
        0 <= j < sparkline.timestamps@.len() ==> (#[trigger] parsed_ticks(
            sparkline.timestamps@[j]@,
        )) is Some
}

pub open spec fn readable_sparklines(sparklines: Seq<Sparkline>) -> bool {
    forall|k: int| 0 <= k < sparklines.len() ==> readable_sparkline(#[trigger] sparklines[k])
}

/// The entries of one sparkline: one per timestamp, in order, paired with
/// the price at the same position.
pub open spec fn sparkline_entries(sparkline: Sparkline) -> Seq<(Seq<char>, i128, Seq<char>)> {
    Seq::new(
        sparkline.timestamps@.len(),
        |j: int|
            (
                sparkline.currency@,
                parsed_ticks(sparkline.timestamps@[j]@).unwrap(),
                sparkline.prices@[j]@,
            ),
    )
}

/// The entries of all sparklines, one after the other.
pub open spec fn all_entries(sparklines: Seq<Sparkline>) -> Seq<(Seq<char>, i128, Seq<char>)>
    decreases sparklines.len(),
{
    if sparklines.len() == 0 {
        seq![]
    } else {
        all_entries(sparklines.drop_last()) + sparkline_entries(sparklines.last())
    }
}

pub open spec fn entries_view(v: Seq<HistoryEntry>) -> Seq<(Seq<char>, i128, Seq<char>)> {
    v.map_values(|e: HistoryEntry| e@)
}

/// Reads the answer of the price service into one entry per currency and
/// instant.
pub fn history_entries(sparklines: &[Sparkline]) -> (entries: Vec<HistoryEntry>)
    requires
        readable_sparklines(sparklines@),
    ensures
        entries_view(entries@) == all_entries(sparklines@),
{
    let mut entries: Vec<HistoryEntry> = Vec::new();
    let n = sparklines.len();
    for k in 0..n
        invariant
            n == sparklines@.len(),
            readable_sparklines(sparklines@),
            entries_view(entries@) == all_entries(sparklines@.take(k as int)),
    {
        let sparkline = &sparklines[k];
        assert(readable_sparkline(sparklines@[k as int]));
        let ghost before = entries_view(entries@);
        let m = sparkline.timestamps.len();
        for j in 0..m
            invariant
                m == sparkline.timestamps@.len(),
                readable_sparkline(*sparkline),
                entries_view(entries@) == before + sparkline_entries(*sparkline).take(j as int),
        {
            assert(parsed_ticks(sparkline.timestamps@[j as int]@) is Some);
            let time = match parse_datetime(sparkline.timestamps[j].as_str()) {
                Some(time) => time,
                None => {
                    assert(false);
                    0
                },
            };
            let entry = HistoryEntry {
                asset: sparkline.currency.clone(),
                time,
                price: sparkline.prices[j].clone(),
            };
            let ghost mid = entries_view(entries@);
            entries.push(entry);
            assert(entries_view(entries@) =~= mid.push(entry@));
            assert(sparkline_entries(*sparkline).take(j + 1) =~= sparkline_entries(
                *sparkline,
            ).take(j as int).push(entry@));
        }
        proof {
            let all = sparklines@;
            assert(all.take(k + 1).drop_last() =~= all.take(k as int));
            assert(all.take(k + 1).last() == *sparkline);
            assert(sparkline_entries(*sparkline).take(m as int) =~= sparkline_entries(*sparkline));
        }
    }
    assert(sparklines@.take(n as int) =~= sparklines@);
    entries
}

/// Reads the answer of the price service; `None` where a sparkline has fewer
/// prices than timestamps or a timestamp that is not RFC 3339.
pub fn checked_history_entries(sparklines: &[Sparkline]) -> (entries: Option<Vec<HistoryEntry>>)
    ensures
        entries is Some <==> readable_sparklines(sparklines@),
        entries matches Some(v) ==> entries_view(v@) == all_entries(sparklines@),
{
    let n = sparklines.len();
    for k in 0..n
        invariant
            n == sparklines@.len(),
            forall|i: int| 0 <= i < k ==> readable_sparkline(#[trigger] sparklines@[i]),
    {
        let sparkline = &sparklines[k];
        if sparkline.prices.len() < sparkline.timestamps.len() {
            assert(!readable_sparkline(sparklines@[k as int]));
            return None;
        }
        let m = sparkline.timestamps.len();
        for j in 0..m
            invariant
                m == sparkline.timestamps@.len(),
                k < n,
                n == sparklines@.len(),
                *sparkline == sparklines@[k as int],
                forall|i: int|
                    0 <= i < j ==> (#[trigger] parsed_ticks(sparkline.timestamps@[i]@)) is Some,
        {
            if parse_datetime(sparkline.timestamps[j].as_str()).is_none() {
                assert(parsed_ticks(sparkline.timestamps@[j as int]@) is None);
                assert(!readable_sparkline(sparklines@[k as int]));
                return None;
            }
        }
    }
    Some(history_entries(sparklines))
}


/// The query of a snapshot request asks for the window shifted as chrono
/// shifts it: its start moved back one day when the window is a single
/// instant and one second otherwise, its end moved back one second, both
/// written in milliseconds; outside leap seconds that is 86,400,000 or 1,000
/// milliseconds before the start, and 1,000 before the end.
pub proof fn lemma_binance_params_window(
    account_type: Seq<char>,
    limit: u8,
    now: u128,
    start: int,
    end: int,
)
    ensures
        binance_params(account_type, limit, now, start, end) == "type="@ + account_type
            + "&limit="@ + decimal(limit as nat) + "&timestamp="@ + decimal(now as nat)
            + "&startTime="@ + signed_decimal(
            millis_of(if start == end { add_days(start, -1) } else { minus_second(start) }),
        ) + "&endTime="@ + signed_decimal(millis_of(minus_second(end))),
        !is_leap(start) && !is_leap(end) ==> binance_params(account_type, limit, now, start, end)
            == "type="@ + account_type + "&limit="@ + decimal(limit as nat) + "&timestamp="@
            + decimal(now as nat) + "&startTime="@ + signed_decimal(
            millis_of(start) - if start == end { 86_400_000int } else { 1_000int },
        ) + "&endTime="@ + signed_decimal(millis_of(end) - 1_000),
{
    let t = TICKS_PER_SECOND as int;
    vstd::arithmetic::div_mod::lemma_fundamental_div_mod(start, t);
    vstd::arithmetic::div_mod::lemma_fundamental_div_mod(end, t);
    if !is_leap(start) && !is_leap(end) {
        lemma_millis_shift(end, -1);
        if start == end {
            lemma_millis_shift(start, -86_400);
        } else {
            lemma_millis_shift(start, -1);
        }
    }
}

/// Moving an instant outside a leap second by whole seconds moves its
/// milliseconds by as many thousands.
proof fn lemma_millis_shift(t: int, secs: int)
    requires
        !is_leap(t),
    ensures
        millis_of(t + secs * TICKS_PER_SECOND) == millis_of(t) + secs * 1000,
        secs == -1 ==> minus_second(t) == t + secs * TICKS_PER_SECOND,
        secs == -86_400 ==> add_days(t, -1) == t + secs * TICKS_PER_SECOND,
{
    let m = TICKS_PER_SECOND as int;
    vstd::arithmetic::div_mod::lemma_fundamental_div_mod(t, m);
    let q = t / m;
    let r = t % m;
    assert(t + secs * m == (q + secs) * m + r) by (nonlinear_arith)
        requires
            t == m * q + r,
    ;
    vstd::arithmetic::div_mod::lemma_fundamental_div_mod_converse(t + secs * m, m, q + secs, r);
}

/// The price-history URL always ends with the end bound, right after the
/// start bound: `...&start={start}&end={end}`, whatever the two instants.
pub proof fn lemma_nomics_url_ends_with_bounds(
    nomics_key: Seq<char>,
    ids: Seq<Seq<char>>,
    convert: Seq<char>,
    start: int,
    end: int,
)
    ensures
        ({
            let url = nomics_url(nomics_key, ids, convert, start, end);
            let start_text = escape_colons(
                rfc3339_seconds(seconds_of(start) as i64, fraction_of(start) as u32),
            );
            let end_text = escape_colons(
                rfc3339_seconds(seconds_of(end) as i64, fraction_of(end) as u32),
            );
            let tail = "&start="@ + start_text + "&end="@ + end_text;
            &&& url.len() >= tail.len()
            &&& url.subrange(url.len() - tail.len(), url.len() as int) == tail
            &&& url.subrange(0, url.len() - tail.len()) == NOMICS_API_BASE_URL@ + "?key="@
                + nomics_key + "&"@ + "ids="@ + joined(ids, ","@) + "&convert="@ + convert
        }),
{
    let start_text = escape_colons(
        rfc3339_seconds(seconds_of(start) as i64, fraction_of(start) as u32),
    );
    let end_text = escape_colons(rfc3339_seconds(seconds_of(end) as i64, fraction_of(end) as u32));
    let head = NOMICS_API_BASE_URL@ + "?key="@ + nomics_key + "&"@ + "ids="@ + joined(ids, ","@)
        + "&convert="@ + convert;
    let tail = "&start="@ + start_text + "&end="@ + end_text;
    let url = nomics_url(nomics_key, ids, convert, start, end);
    assert(url =~= head + tail);
    assert(url.subrange(url.len() - tail.len(), url.len() as int) =~= tail);
    assert(url.subrange(0, url.len() - tail.len()) =~= head);
}

/// How many timestamps the sparklines hold in all.
pub open spec fn timestamp_count(sparklines: Seq<Sparkline>) -> nat
    decreases sparklines.len(),
{
    if sparklines.len() == 0 {
        0
    } else {
        timestamp_count(sparklines.drop_last()) + sparklines.last().timestamps@.len()
    }
}

/// Reading the price service's answer keeps one entry per timestamp, and
/// the entries of one sparkline pair each of its timestamps, in order, with
/// the currency and the price at the same position.
pub proof fn lemma_history_entries_one_per_timestamp(sparklines: Seq<Sparkline>)
    ensures
        all_entries(sparklines).len() == timestamp_count(sparklines),
        sparklines.len() == 1 ==> {
            let sp = sparklines[0];
            &&& all_entries(sparklines).len() == sp.timestamps@.len()
            &&& forall|j: int|
                0 <= j < sp.timestamps@.len() ==> #[trigger] all_entries(sparklines)[j] == (
                    sp.currency@,
                    parsed_ticks(sp.timestamps@[j]@).unwrap(),
                    sp.prices@[j]@,
                )
        },
    decreases sparklines.len(),
{
    if sparklines.len() > 0 {
        lemma_history_entries_one_per_timestamp(sparklines.drop_last());
        if sparklines.len() == 1 {
            assert(sparklines.drop_last() =~= Seq::<Sparkline>::empty());
            assert(sparklines.last() == sparklines[0]);
            assert(all_entries(sparklines) =~= sparkline_entries(sparklines[0]));
        }
    }
}

} // verus!
