//! Macro series and the regime they imply.

use vstd::prelude::*;

use crate::calendar;
use crate::calendar::Date;
use crate::data::source::PriceBar;
use crate::data::types::{MacroDataPoint, MacroSnapshot};
use crate::number::Number;
use crate::text;

verus! {

/// The series of the volatility index.
pub const VIX_SERIES: &'static str = "VIXCLS";

/// The series of the daily ten-year yield.
pub const YIELD_10Y_SERIES: &'static str = "DGS10";

/// The symbol of the volatility index at Yahoo.
pub const VIX_YAHOO: &'static str = "^VIX";

/// The symbol of the ten-year yield at Yahoo, in percent.
pub const YIELD_10Y_YAHOO: &'static str = "^TNX";

/// Days of history that a snapshot is read from.
pub const LOOKBACK_DAYS: i64 = 400;

/// Days over which the rise of the yield is measured.
pub const YIELD_WINDOW_DAYS: i64 = 30;

/// Hours for which a series is kept.
pub const MACRO_CACHE_HOURS: i64 = 24;

/// Encoding of 25, the volatility from which the regime is off.
pub const VIX_LIMIT: u64 = 0x4039_0000_0000_0000;

/// Encoding of one half, the rise of the yield above which the regime is off.
pub const YIELD_LIMIT: u64 = 0x3FE0_0000_0000_0000;

/// Whether the regime is on: volatility is below 25 and the yield has not risen by more than
/// half a point. What is not known does not turn it off.
pub open spec fn regime_on(vix: Option<Number>, rise: Option<Number>) -> bool {
    &&& vix matches Some(v) ==> v.lt(Number { bits: VIX_LIMIT })
    &&& rise matches Some(r) ==> r.le(Number { bits: YIELD_LIMIT })
}

/// Whether the regime is on, given the volatility and the rise of the yield over thirty days.
pub fn compute_macro_regime(vix: Option<Number>, rise: Option<Number>) -> (r: bool)
    ensures
        r == regime_on(vix, rise),
{
    let vix_ok: bool = match vix {
        Some(v) => v.is_lt(Number { bits: VIX_LIMIT }),
        None => true,
    };
    let yield_ok: bool = match rise {
        Some(r) => r.is_le(Number { bits: YIELD_LIMIT }),
        None => true,
    };
    vix_ok && yield_ok
}

/// What a macro value says.
pub open spec fn point_view(p: MacroDataPoint) -> (Seq<char>, int, Number) {
    (p.series_id@, p.date.days as int, p.value)
}

/// The closes of bars that are prices, as values of a series.
pub open spec fn points_of(s: Seq<PriceBar>, id: Seq<char>) -> Seq<(Seq<char>, int, Number)>
    decreases s.len(),
{
    if s.len() == 0 {
        seq![]
    } else {
        let rest = points_of(s.drop_last(), id);
        if s.last().close.positive() {
            rest.push((id, s.last().date.days as int, s.last().close))
        } else {
            rest
        }
    }
}

/// Daily closes as values of a series; what is no price is dropped.
pub fn bars_to_macro_points(series_id: &str, bars: &Vec<PriceBar>) -> (r: Vec<MacroDataPoint>)
    ensures
        r@.map_values(|p: MacroDataPoint| point_view(p)) == points_of(bars@, series_id@),
{
    let ghost see = |p: MacroDataPoint| point_view(p);
    let mut out: Vec<MacroDataPoint> = Vec::new();
    let mut i: usize = 0;
    proof {
        assert(bars@.take(0) =~= seq![]);
        assert(out@.map_values(see) =~= seq![]);
    }
    while i < bars.len()
        invariant
            i <= bars@.len(),
            see == (|p: MacroDataPoint| point_view(p)),
            out@.map_values(see) == points_of(bars@.take(i as int), series_id@),
        decreases bars@.len() - i,
    {
        let ghost before = out@;
        proof {
            assert(bars@.take(i + 1).drop_last() =~= bars@.take(i as int));
            assert(bars@.take(i + 1).last() == bars@[i as int]);
        }
        let b: PriceBar = bars[i];
        if b.close.is_positive() {
            out.push(
                MacroDataPoint { series_id: series_id.to_owned(), date: b.date, value: b.close },
            );
            proof {
                assert(out@.map_values(see) =~= before.map_values(see).push(
                    (series_id@, b.date.days as int, b.close),
                ));
            }
        }
        i = i + 1;
    }
    proof {
        assert(bars@.take(bars@.len() as int) =~= bars@);
    }
    out
}

// ── FRED's tables ────────────────────────────────────────────────────────────

/// A row of a table, its value still as text.
#[derive(Debug)]
pub struct FredRow {
    pub date: Date,
    pub value: String,
}

/// What a line of a table holds: a date and a value, apart at the first comma. A missing value is
/// a full stop or nothing.
pub open spec fn row_of(line: Seq<char>) -> Option<(int, Seq<char>)> {
    let t = text::trimmed(line);
    let i = text::next_char(t, ',', 0);
    let date = text::trimmed(t.take(i));
    let value = if i < t.len() {
        text::trimmed(t.skip(i + 1))
    } else {
        text::trimmed(seq![])
    };
    let day = calendar::parsed_day(date, "%Y-%m-%d"@);
    if t.len() == 0 || value.len() == 0 || value == "."@ || day is None {
        None
    } else {
        Some((day->0, value))
    }
}

/// The rows of lines, the first of which is the header.
pub open spec fn rows_of(lines: Seq<Seq<char>>) -> Seq<(int, Seq<char>)>
    decreases lines.len(),
{
    if lines.len() <= 1 {
        seq![]
    } else {
        let rest = rows_of(lines.drop_last());
        match row_of(lines.last()) {
            Some(r) => rest.push(r),
            None => rest,
        }
    }
}

/// What a row says.
pub open spec fn row_view(r: FredRow) -> (int, Seq<char>) {
    (r.date.days as int, r.value@)
}

/// What a line of a table holds.
fn read_row(line: &str) -> (r: Option<FredRow>)
    ensures
        match r {
            Some(x) => row_of(line@) == Some(row_view(x)),
            None => row_of(line@) is None,
        },
{
    let t: String = text::trim(line);
    let v: Vec<char> = text::to_chars(t.as_str());
    let n: usize = v.len();
    if n == 0 {
        return None;
    }
    let i: usize = text::find_char(&v, ',', 0);
    let before: String = text::from_chars(&v, 0, i);
    let after: String = if i < n {
        text::from_chars(&v, i + 1, n)
    } else {
        text::from_chars(&v, n, n)
    };
    let date: String = text::trim(before.as_str());
    let value: String = text::trim(after.as_str());
    proof {
        assert(before@ =~= t@.take(i as int));
        if i < n {
            assert(after@ =~= t@.skip(i + 1));
        } else {
            assert(after@ =~= seq![]);
        }
    }
    if text::to_chars(value.as_str()).len() == 0 || text::same_text(value.as_str(), ".") {
        return None;
    }
    match Date::parse(date.as_str(), "%Y-%m-%d") {
        Some(date) => Some(FredRow { date, value }),
        None => None,
    }
}

/// The rows of a table. Lines without a date or a value are skipped.
pub fn parse_fred_csv(table: &str) -> (r: Vec<FredRow>)
    ensures
        r@.map_values(|x: FredRow| row_view(x)) == rows_of(text::lines_from(table@, 0)),
{
    let lines: Vec<String> = text::lines(table);
    let ghost all = text::texts(lines@);
    let ghost see = |x: FredRow| row_view(x);
    let mut out: Vec<FredRow> = Vec::new();
    proof {
        assert(out@.map_values(see) =~= seq![]);
    }
    if lines.len() == 0 {
        return out;
    }
    let mut i: usize = 1;
    while i < lines.len()
        invariant
            1 <= i <= lines@.len(),
            all == text::texts(lines@),
            see == (|x: FredRow| row_view(x)),
            out@.map_values(see) == rows_of(all.take(i as int)),
        decreases lines@.len() - i,
    {
        let ghost before = out@;
        proof {
            assert(all.take(i + 1).drop_last() =~= all.take(i as int));
            assert(all.take(i + 1).last() == lines@[i as int]@);
        }
        match read_row(lines[i].as_str()) {
            Some(x) => {
                out.push(x);
                proof {
                    assert(out@.map_values(see) =~= before.map_values(see).push(row_view(x)));
                }
            },
            None => {},
        }
        i = i + 1;
    }
    proof {
        assert(all.take(lines@.len() as int) =~= all);
    }
    out
}

/// The rows whose value could be read: `values` is what each text reads as.
pub open spec fn readable(
    s: Seq<FredRow>,
    values: Seq<Option<Number>>,
    id: Seq<char>,
) -> Seq<(Seq<char>, int, Number)>
    decreases s.len(),
{
    if s.len() == 0 {
        seq![]
    } else {
        let rest = readable(s.drop_last(), values, id);
        match values[s.len() - 1] {
            Some(x) => rest.push((id, s.last().date.days as int, x)),
            None => rest,
        }
    }
}

/// Takes in what the values of rows read as, and drops the rows with an unreadable one.
pub fn fred_points(series_id: &str, rows: &Vec<FredRow>, values: &Vec<Option<Number>>) -> (r: Vec<
    MacroDataPoint,
>)
    requires
        values@.len() == rows@.len(),
    ensures
        r@.map_values(|p: MacroDataPoint| point_view(p)) == readable(rows@, values@, series_id@),
{
    let ghost see = |p: MacroDataPoint| point_view(p);
    let mut out: Vec<MacroDataPoint> = Vec::new();
    let mut i: usize = 0;
    proof {
        assert(rows@.take(0) =~= seq![]);
        assert(out@.map_values(see) =~= seq![]);
    }
    while i < rows.len()
        invariant
            i <= rows@.len(),
            values@.len() == rows@.len(),
            see == (|p: MacroDataPoint| point_view(p)),
            out@.map_values(see) == readable(rows@.take(i as int), values@, series_id@),
        decreases rows@.len() - i,
    {
        let ghost before = out@;
        proof {
            assert(rows@.take(i + 1).drop_last() =~= rows@.take(i as int));
            assert(rows@.take(i + 1).last() == rows@[i as int]);
        }
        match values[i] {
            Some(x) => {
                out.push(
                    MacroDataPoint { series_id: series_id.to_owned(), date: rows[i].date, value: x },
                );
                proof {
                    assert(out@.map_values(see) =~= before.map_values(see).push(
                        (series_id@, rows@[i as int].date.days as int, x),
                    ));
                }
            },
            None => {},
        }
        i = i + 1;
    }
    proof {
        assert(rows@.take(rows@.len() as int) =~= rows@);
    }
    out
}

// ── Snapshot ─────────────────────────────────────────────────────────────────

/// How many days a point lies from a day.
pub open spec fn days_from(p: MacroDataPoint, day: int) -> int {
    if p.date.days <= day {
        day - p.date.days
    } else {
        p.date.days - day
    }
}

/// `i` is the point that lies closest to a day: the earlier one of two that lie equally close, and
/// the last of several of the same date.
pub open spec fn is_closest(s: Seq<MacroDataPoint>, day: int, i: int) -> bool {
    0 <= i < s.len() && forall|j: int|
        0 <= j < s.len() ==> {
            ||| days_from(s[i], day) < days_from(#[trigger] s[j], day)
            ||| days_from(s[i], day) == days_from(s[j], day) && s[i].date.days < s[j].date.days
            ||| s[i].date == s[j].date && j <= i
        }
}

/// Whether `r` is the value closest to a day: nothing where there is no value.
pub open spec fn is_value_near(s: Seq<MacroDataPoint>, day: int, r: Option<Number>) -> bool {
    match r {
        Some(x) => exists|i: int| #[trigger] is_closest(s, day, i) && s[i].value == x,
        None => s.len() == 0,
    }
}

/// The last value of a series.
pub fn last_value(points: &Vec<MacroDataPoint>) -> (r: Option<Number>)
    ensures
        r == (if points@.len() == 0 {
            None
        } else {
            Some(points@.last().value)
        }),
{
    if points.len() == 0 {
        None
    } else {
        Some(points[points.len() - 1].value)
    }
}

/// The value of a series that is dated closest to `days` days before `as_of`, on either side of
/// that day: a value that lies shortly after it is taken before one that lies long before.
pub fn value_n_days_ago(points: &Vec<MacroDataPoint>, as_of: Date, days: i64) -> (r: Option<Number>)
    requires
        -0x1_0000_0000 <= days <= 0x1_0000_0000,
    ensures
        is_value_near(points@, as_of.days - days, r),
{
    if points.len() == 0 {
        return None;
    }
    let target: i64 = as_of.days as i64 - days;
    let mut best: usize = 0;
    let mut n: usize = 1;
    while n < points.len()
        invariant
            1 <= n <= points@.len(),
            -0x1_0000_0000 <= days <= 0x1_0000_0000,
            target == as_of.days - days,
            is_closest(points@.take(n as int), target as int, best as int),
        decreases points@.len() - n,
    {
        let ghost seen = points@.take(n as int);
        let ghost more = points@.take(n + 1);
        let a: i64 = points[best].date.days as i64;
        let b: i64 = points[n].date.days as i64;
        let from_a: i64 = if a <= target {
            target - a
        } else {
            a - target
        };
        let from_b: i64 = if b <= target {
            target - b
        } else {
            b - target
        };
        proof {
            assert(seen[best as int] == points@[best as int]);
            assert(more[n as int] == points@[n as int]);
            assert(more[best as int] == points@[best as int]);
            assert forall|j: int| 0 <= j < n implies #[trigger] more[j] == seen[j] by {}
        }
        if from_b < from_a || (from_b == from_a && b <= a) {
            proof {
                assert forall|j: int| 0 <= j < more.len() implies {
                    ||| days_from(more[n as int], target as int) < days_from(
                        #[trigger] more[j],
                        target as int,
                    )
                    ||| days_from(more[n as int], target as int) == days_from(
                        more[j],
                        target as int,
                    ) && more[n as int].date.days < more[j].date.days
                    ||| more[n as int].date == more[j].date && j <= n
                } by {
                    if j < n {
                        assert(more[j] == seen[j]);
                    }
                }
            }
            best = n;
        }
        n = n + 1;
    }
    proof {
        assert(points@.take(points@.len() as int) =~= points@);
    }
    Some(points[best].value)
}

/// The yields that the regime compares: the last one, and the one closest to thirty days before.
pub fn yield_ends(yields: &Vec<MacroDataPoint>, as_of: Date) -> (r: (
    Option<Number>,
    Option<Number>,
))
    ensures
        r.0 == (if yields@.len() == 0 {
            None
        } else {
            Some(yields@.last().value)
        }),
        is_value_near(yields@, as_of.days - YIELD_WINDOW_DAYS, r.1),
{
    (last_value(yields), value_n_days_ago(yields, as_of, YIELD_WINDOW_DAYS))
}

/// The macro snapshot of a date, from the volatility and the yields known by it. `rise` is the
/// difference of the two yields, and does not count where one of them is missing.
pub fn build_snapshot(
    as_of: Date,
    vix_points: &Vec<MacroDataPoint>,
    yields: &Vec<MacroDataPoint>,
    rise: Number,
) -> (r: MacroSnapshot)
    ensures
        r.as_of == as_of,
        r.vix == (if vix_points@.len() == 0 {
            None
        } else {
            Some(vix_points@.last().value)
        }),
        r.yield_10y == (if yields@.len() == 0 {
            None
        } else {
            Some(yields@.last().value)
        }),
        is_value_near(yields@, as_of.days - YIELD_WINDOW_DAYS, r.yield_10y_30d_ago),
        r.macro_on == regime_on(
            r.vix,
            if r.yield_10y is Some && r.yield_10y_30d_ago is Some {
                Some(rise)
            } else {
                None
            },
        ),
{
    let vix: Option<Number> = last_value(vix_points);
    let (now, ago): (Option<Number>, Option<Number>) = yield_ends(yields, as_of);
    let measured: Option<Number> = if now.is_some() && ago.is_some() {
        Some(rise)
    } else {
        None
    };
    MacroSnapshot {
        as_of,
        vix,
        yield_10y: now,
        yield_10y_30d_ago: ago,
        macro_on: compute_macro_regime(vix, measured),
    }
}

/// Without any data the regime is on.
pub proof fn no_data_means_on()
    ensures
        regime_on(None, None),
{
}

// ── What the regime means ────────────────────────────────────────────────────

/// The regime is off exactly where the volatility is 25 or more, or the yield has risen by more
/// than half a point; what is not known turns nothing off, and more volatility or a steeper rise
/// never turns it on.
pub proof fn the_regime_turns_off_at_its_limits(
    vix: Number,
    rise: Number,
    r: bool,
    vix_alone: bool,
    rise_alone: bool,
)
    requires
        call_ensures(compute_macro_regime, (Some(vix), Some(rise)), r),
        call_ensures(compute_macro_regime, (Some(vix), None::<Number>), vix_alone),
        call_ensures(compute_macro_regime, (None::<Number>, Some(rise)), rise_alone),
        !vix.nan(),
        !rise.nan(),
    ensures
        r == (vix_alone && rise_alone),
        vix.place() < 0x4039_0000_0000_0000 <==> vix_alone,
        rise.place() <= 0x3FE0_0000_0000_0000 <==> rise_alone,
{
}

/// A macro series is made of unadjusted closes: every bar whose close is a price gives a value of
/// its day, and nothing else does.
pub proof fn macro_values_are_closes(id: &str, bars: Vec<PriceBar>, r: Vec<MacroDataPoint>)
    requires
        call_ensures(bars_to_macro_points, (id, &bars), r),
    ensures
        forall|k: int|
            0 <= k < r@.len() ==> (#[trigger] r@[k]).series_id@ == id@ && exists|i: int|
                0 <= i < bars@.len() && (#[trigger] bars@[i]).date == r@[k].date && bars@[i].close
                    == r@[k].value,
        (forall|i: int|
            0 <= i < bars@.len() ==> 0 < (#[trigger] bars@[i]).close.bits < 0x7FF0_0000_0000_0000)
            ==> r@.len() == bars@.len() && forall|k: int|
                0 <= k < r@.len() ==> (#[trigger] r@[k]).date == bars@[k].date && r@[k].value
                    == bars@[k].close,
{
    lemma_points(bars@, id@);
    let seen = r@.map_values(|p: MacroDataPoint| point_view(p));
    let all = points_of(bars@, id@);
    assert forall|k: int| 0 <= k < r@.len() implies all[k] == point_view(#[trigger] r@[k]) by {
        assert(seen[k] == point_view(r@[k]));
    }
    assert forall|k: int| 0 <= k < r@.len() implies (#[trigger] r@[k]).series_id@ == id@ && exists|
        i: int,
    |
        0 <= i < bars@.len() && (#[trigger] bars@[i]).date == r@[k].date && bars@[i].close
            == r@[k].value by {
        let i = choose|i: int|
            0 <= i < bars@.len() && (#[trigger] bars@[i]).date.days == all[k].1 && bars@[i].close
                == all[k].2;
        assert(bars@[i].date == r@[k].date);
    }
    assert(seen.len() == r@.len());
}

proof fn lemma_points(s: Seq<PriceBar>, id: Seq<char>)
    ensures
        forall|k: int|
            0 <= k < points_of(s, id).len() ==> (#[trigger] points_of(s, id)[k]).0 == id && exists|
                i: int,
            |
                0 <= i < s.len() && (#[trigger] s[i]).date.days == points_of(s, id)[k].1
                    && s[i].close == points_of(s, id)[k].2,
        (forall|i: int| 0 <= i < s.len() ==> (#[trigger] s[i]).close.positive()) ==> points_of(
            s,
            id,
        ).len() == s.len() && forall|k: int|
            0 <= k < s.len() ==> (#[trigger] points_of(s, id)[k]).1 == s[k].date.days && points_of(
                s,
                id,
            )[k].2 == s[k].close,
    decreases s.len(),
{
    if s.len() > 0 {
        let init = s.drop_last();
        lemma_points(init, id);
        let all = points_of(s, id);
        let rest = points_of(init, id);
        assert forall|k: int| 0 <= k < all.len() implies (#[trigger] all[k]).0 == id && exists|
            i: int,
        |
            0 <= i < s.len() && (#[trigger] s[i]).date.days == all[k].1 && s[i].close
                == all[k].2 by {
            if k < rest.len() {
                assert(all[k] == rest[k]);
                let i = choose|i: int|
                    0 <= i < init.len() && (#[trigger] init[i]).date.days == rest[k].1
                        && init[i].close == rest[k].2;
                assert(s[i] == init[i]);
            } else {
                assert(s[s.len() - 1].close == all[k].2);
            }
        }
        if forall|i: int| 0 <= i < s.len() ==> (#[trigger] s[i]).close.positive() {
            assert forall|i: int| 0 <= i < init.len() implies (
            #[trigger] init[i]).close.positive() by {
                assert(s[i].close.positive());
            }
            assert(s[s.len() - 1].close.positive());
            assert forall|k: int| 0 <= k < s.len() implies (#[trigger] all[k]).1 == s[k].date.days
                && all[k].2 == s[k].close by {
                if k < rest.len() {
                    assert(all[k] == rest[k]);
                }
            }
        }
    }
}

/// A snapshot shows the latest volatility and yield, and judges the regime by them; the yield that
/// it compares with is that of thirty days before, where there is one of that day.
pub proof fn a_snapshot_compares_the_latest_yield_with_a_month_ago(
    as_of: Date,
    vix: Vec<MacroDataPoint>,
    yields: Vec<MacroDataPoint>,
    rise: Number,
    r: MacroSnapshot,
    j: int,
    on: bool,
)
    requires
        call_ensures(build_snapshot, (as_of, &vix, &yields, rise), r),
        0 <= j < yields@.len(),
        vix@.len() > 0,
        call_ensures(compute_macro_regime, (Some(vix@[vix@.len() - 1].value), Some(rise)), on),
    ensures
        r.as_of == as_of,
        r.vix == Some(vix@[vix@.len() - 1].value),
        r.yield_10y == Some(yields@[yields@.len() - 1].value),
        r.macro_on == on,
        exists|i: int|
            0 <= i < yields@.len() && r.yield_10y_30d_ago == Some((#[trigger] yields@[i]).value)
                && (yields@[j].date.days == as_of.days - 30 ==> yields@[i].date.days == as_of.days
                - 30),
{
    let i = choose|i: int| #[trigger]
        is_closest(yields@, as_of.days - 30, i) && r.yield_10y_30d_ago == Some(yields@[i].value);
    assert(yields@[i].value == r.yield_10y_30d_ago->0);
}

/// No value lies closer to the day asked for than the one that is given.
pub proof fn no_value_lies_closer(
    points: Vec<MacroDataPoint>,
    as_of: Date,
    days: i64,
    r: Option<Number>,
)
    requires
        call_ensures(value_n_days_ago, (&points, as_of, days), r),
        -0x1_0000_0000 <= days <= 0x1_0000_0000,
    ensures
        r is None <==> points@.len() == 0,
        r matches Some(x) ==> exists|i: int|
            0 <= i < points@.len() && x == (#[trigger] points@[i]).value && forall|j: int|
                0 <= j < points@.len() ==> {
                    let gap = points@[i].date.days - (as_of.days - days);
                    let other = (#[trigger] points@[j]).date.days - (as_of.days - days);
                    (gap <= other || gap <= -other) && (-gap <= other || -gap <= -other)
                },
{
    if let Some(x) = r {
        let i = choose|i: int| #[trigger]
            is_closest(points@, as_of.days - days, i) && points@[i].value == x;
        assert(x == points@[i].value);
    }
}

/// Every row whose value can be read becomes a value of its own date, and nothing else does.
pub proof fn readable_rows_become_values(
    id: &str,
    rows: Vec<FredRow>,
    values: Vec<Option<Number>>,
    r: Vec<MacroDataPoint>,
)
    requires
        call_ensures(fred_points, (id, &rows, &values), r),
        values@.len() == rows@.len(),
    ensures
        forall|k: int|
            0 <= k < r@.len() ==> (#[trigger] r@[k]).series_id@ == id@ && exists|i: int|
                0 <= i < rows@.len() && (#[trigger] rows@[i]).date == r@[k].date && values@[i]
                    == Some(r@[k].value),
        (forall|i: int| 0 <= i < values@.len() ==> (#[trigger] values@[i]) is Some) ==> r@.len()
            == rows@.len(),
{
    lemma_readable(rows@, values@, id@);
    let seen = r@.map_values(|p: MacroDataPoint| point_view(p));
    let all = readable(rows@, values@, id@);
    assert(seen.len() == r@.len());
    assert forall|k: int| 0 <= k < r@.len() implies (#[trigger] r@[k]).series_id@ == id@ && exists|
        i: int,
    |
        0 <= i < rows@.len() && (#[trigger] rows@[i]).date == r@[k].date && values@[i] == Some(
            r@[k].value,
        ) by {
        assert(seen[k] == point_view(r@[k]));
        let i = choose|i: int|
            0 <= i < rows@.len() && (#[trigger] rows@[i]).date.days == all[k].1 && values@[i]
                == Some(all[k].2);
        assert(rows@[i].date == r@[k].date);
    }
}

proof fn lemma_readable(s: Seq<FredRow>, values: Seq<Option<Number>>, id: Seq<char>)
    requires
        values.len() >= s.len(),
    ensures
        forall|k: int|
            0 <= k < readable(s, values, id).len() ==> (#[trigger] readable(s, values, id)[k]).0
                == id && exists|i: int|
                0 <= i < s.len() && (#[trigger] s[i]).date.days == readable(s, values, id)[k].1
                    && values[i] == Some(readable(s, values, id)[k].2),
        (forall|i: int| 0 <= i < s.len() ==> (#[trigger] values[i]) is Some) ==> readable(
            s,
            values,
            id,
        ).len() == s.len(),
    decreases s.len(),
{
    if s.len() > 0 {
        let init = s.drop_last();
        lemma_readable(init, values, id);
        let all = readable(s, values, id);
        let rest = readable(init, values, id);
        assert forall|k: int| 0 <= k < all.len() implies (#[trigger] all[k]).0 == id && exists|
            i: int,
        |
            0 <= i < s.len() && (#[trigger] s[i]).date.days == all[k].1 && values[i] == Some(
                all[k].2,
            ) by {
            if k < rest.len() {
                assert(all[k] == rest[k]);
                let i = choose|i: int|
                    0 <= i < init.len() && (#[trigger] init[i]).date.days == rest[k].1 && values[i]
                        == Some(rest[k].2);
                assert(s[i] == init[i]);
            } else {
                assert(s[s.len() - 1].date.days == all[k].1);
            }
        }
    }
}

/// The yields that are compared are the last one and one from the day closest to thirty days before
/// the date: no value lies closer to that day.
pub proof fn yields_are_thirty_days_apart(
    yields: Vec<MacroDataPoint>,
    as_of: Date,
    last: Option<Number>,
    r: (Option<Number>, Option<Number>),
    j: int,
) -> (i: int)
    requires
        call_ensures(yield_ends, (&yields, as_of), r),
        call_ensures(last_value, (&yields,), last),
        0 <= j < yields@.len(),
    ensures
        r.0 == last && r.0 == Some(yields@[yields@.len() - 1].value),
        0 <= i < yields@.len(),
        r.1 == Some(yields@[i].value),
        yields@[j].date.days <= as_of.days - 30 <= yields@[i].date.days ==> yields@[i].date.days - (
        as_of.days - 30) <= (as_of.days - 30) - yields@[j].date.days,
        yields@[i].date.days <= as_of.days - 30 <= yields@[j].date.days ==> (as_of.days - 30)
            - yields@[i].date.days <= yields@[j].date.days - (as_of.days - 30),
        yields@[i].date.days <= yields@[j].date.days <= as_of.days - 30 ==> yields@[i].date
            == yields@[j].date,
        as_of.days - 30 <= yields@[j].date.days <= yields@[i].date.days ==> yields@[i].date
            == yields@[j].date,
{
    let day = as_of.days - 30;
    let args = (&yields, as_of);
    let i = choose|i: int| #[trigger]
        is_closest(args.0@, args.1.days - 30, i) && args.0@[i].value == r.1->0;
    assert(days_from(yields@[i], day) <= days_from(yields@[j], day));
    i
}

/// The date and the value of a line stand before and after its first comma.
pub proof fn rows_are_cut_at_the_comma(
    table: &str,
    r: Vec<FredRow>,
    k: int,
) -> (line: Seq<char>)
    requires
        call_ensures(parse_fred_csv, (table,), r),
        0 <= k < r@.len(),
    ensures
        exists|j: int|
            1 <= j < text::lines_from(table@, 0).len() && #[trigger] text::lines_from(table@, 0)[j]
                == line,
        r@[k].value@.len() > 0 && r@[k].value@ != "."@,
        forall|a: Seq<char>, b: Seq<char>|
            #![trigger a.push(',') + b]
            text::trimmed(line) == a.push(',') + b && !a.contains(',') ==> r@[k].value@
                == text::trimmed(b) && calendar::parsed_day(text::trimmed(a), "%Y-%m-%d"@) == Some(
                r@[k].date.days as int,
            ),
{
    let lines = text::lines_from(table@, 0);
    let seen = r@.map_values(|x: FredRow| row_view(x));
    assert(seen == rows_of(lines));
    assert(seen[k] == row_view(r@[k]));
    let j = lemma_row_line(lines, k);
    let line = lines[j];
    let t = text::trimmed(line);
    assert forall|a: Seq<char>, b: Seq<char>|
        #![trigger a.push(',') + b]
        t == a.push(',') + b && !a.contains(',') implies r@[k].value@ == text::trimmed(b)
        && calendar::parsed_day(text::trimmed(a), "%Y-%m-%d"@) == Some(r@[k].date.days as int) by {
        let n = a.len() as int;
        text::lemma_next_char(t, ',', 0);
        let m = text::next_char(t, ',', 0);
        assert(t[n] == ',');
        if m < n {
            assert(t[m] == a[m]);
        } else if n < m {
            assert(t[n] != ',');
        }
        assert(t.take(n) =~= a);
        assert(t.skip(n + 1) =~= b);
    }
    line
}

proof fn lemma_row_line(lines: Seq<Seq<char>>, k: int) -> (j: int)
    requires
        0 <= k < rows_of(lines).len(),
    ensures
        1 <= j < lines.len(),
        row_of(lines[j]) == Some(rows_of(lines)[k]),
    decreases lines.len(),
{
    let rest = rows_of(lines.drop_last());
    if k < rest.len() {
        lemma_row_line(lines.drop_last(), k)
    } else {
        lines.len() - 1
    }
}

} // verus!
