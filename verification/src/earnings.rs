//! Names that are about to report earnings, or have just done so.
//!
//! What is known is only the next date that a provider believes in, so this
//! serves live reports and no replay of the past.

use vstd::prelude::*;

use crate::calendar::Date;
use crate::order;

verus! {

/// A name close to its earnings.
#[derive(Debug)]
pub struct EarningsFlag {
    pub ticker: String,
    pub nearest_date: Date,
    /// Days until the earnings; negative once they are past.
    pub days_away: i64,
}

/// A name and its earnings dates.
#[derive(Debug)]
pub struct EarningsDates {
    pub ticker: String,
    pub dates: Vec<Date>,
}

/// Days between two dates, whichever comes first.
pub open spec fn distance(a: Date, b: Date) -> int {
    if a.days >= b.days {
        a.days - b.days
    } else {
        b.days - a.days
    }
}

/// Days between two dates, whichever comes first.
fn days_between(a: Date, b: Date) -> (r: i64)
    ensures
        r == distance(a, b),
{
    if a.days >= b.days {
        a.days as i64 - b.days as i64
    } else {
        b.days as i64 - a.days as i64
    }
}

/// Whether some date lies within a window of another.
pub open spec fn near(as_of: Date, dates: Seq<Date>, window: int) -> bool {
    exists|i: int| 0 <= i < dates.len() && distance(#[trigger] dates[i], as_of) <= window
}

/// Whether some earnings date lies within `window_days` of `as_of`, before or after it.
pub fn is_near_earnings(as_of: Date, dates: &Vec<Date>, window_days: i64) -> (r: bool)
    ensures
        r == near(as_of, dates@, window_days as int),
{
    let mut i: usize = 0;
    while i < dates.len()
        invariant
            i <= dates@.len(),
            forall|k: int| 0 <= k < i ==> distance(#[trigger] dates@[k], as_of) > window_days,
        decreases dates@.len() - i,
    {
        if days_between(dates[i], as_of) <= window_days {
            return true;
        }
        i = i + 1;
    }
    false
}

/// `i` is the date closest to another, and the first of several.
pub open spec fn closest(as_of: Date, dates: Seq<Date>, i: int) -> bool {
    0 <= i < dates.len() && forall|j: int|
        0 <= j < dates.len() ==> distance(dates[i], as_of) < distance(#[trigger] dates[j], as_of)
            || (distance(dates[i], as_of) == distance(dates[j], as_of) && i <= j)
}

/// Whether `d` is the date closest to another.
pub open spec fn nearest_is(as_of: Date, dates: Seq<Date>, d: Date) -> bool {
    exists|i: int| #[trigger] closest(as_of, dates, i) && dates[i] == d
}

/// The earnings date closest to `as_of`, the first listed of several.
pub fn nearest_earnings(as_of: Date, dates: &Vec<Date>) -> (r: Option<Date>)
    ensures
        match r {
            Some(d) => nearest_is(as_of, dates@, d),
            None => dates@.len() == 0,
        },
{
    if dates.len() == 0 {
        return None;
    }
    let mut best: usize = 0;
    let mut i: usize = 1;
    while i < dates.len()
        invariant
            best < i <= dates@.len(),
            forall|j: int|
                0 <= j < i ==> distance(dates@[best as int], as_of) < distance(
                    #[trigger] dates@[j],
                    as_of,
                ) || (distance(dates@[best as int], as_of) == distance(dates@[j], as_of) && best
                    <= j),
        decreases dates@.len() - i,
    {
        if days_between(dates[i], as_of) < days_between(dates[best], as_of) {
            best = i;
        }
        i = i + 1;
    }
    proof {
        assert(closest(as_of, dates@, best as int));
    }
    Some(dates[best])
}

/// Whether a name is flagged.
pub open spec fn flagged(as_of: Date, e: EarningsDates, window: int) -> bool {
    near(as_of, e.dates@, window)
}

/// Whether `f` is the flag of a name.
pub open spec fn is_flag(as_of: Date, e: EarningsDates, f: EarningsFlag) -> bool {
    &&& f.ticker@ == e.ticker@
    &&& nearest_is(as_of, e.dates@, f.nearest_date)
    &&& f.days_away == f.nearest_date.days - as_of.days
}

/// Positions of the names that are flagged, in order.
pub open spec fn flagged_positions(
    as_of: Date,
    names: Seq<EarningsDates>,
    window: int,
    idx: Seq<int>,
) -> bool {
    &&& forall|i: int, j: int| 0 <= i < j < idx.len() ==> (#[trigger] idx[i]) < (#[trigger] idx[j])
    &&& forall|i: int|
        0 <= i < idx.len() ==> 0 <= (#[trigger] idx[i]) < names.len() && flagged(
            as_of,
            names[idx[i]],
            window,
        )
    &&& forall|k: int|
        0 <= k < names.len() && flagged(as_of, #[trigger] names[k], window) ==> idx.contains(k)
}

/// Whether flags are those of the names that are flagged, by increasing distance, equal distances
/// in the order of the names.
pub open spec fn are_flags(
    as_of: Date,
    names: Seq<EarningsDates>,
    window: int,
    idx: Seq<int>,
    keys: Seq<i64>,
    p: Seq<usize>,
    out: Seq<EarningsFlag>,
) -> bool {
    &&& flagged_positions(as_of, names, window, idx)
    &&& keys.len() == idx.len()
    &&& order::is_stable_order(keys, p)
    &&& out.len() == p.len()
    &&& forall|k: int|
        0 <= k < out.len() ==> is_flag(as_of, names[idx[p[k] as int]], #[trigger] out[k])
            && keys[p[k] as int] == distance(out[k].nearest_date, as_of)
}

/// The names with an earnings date within `window_days` of `as_of`, the closest first.
pub fn flag_near_earnings(as_of: Date, names: &Vec<EarningsDates>, window_days: i64) -> (r: Vec<
    EarningsFlag,
>)
    ensures
        exists|idx: Seq<int>, keys: Seq<i64>, p: Seq<usize>| #[trigger]
            are_flags(as_of, names@, window_days as int, idx, keys, p, r@),
{
    let ghost mut idx: Seq<int> = seq![];
    let mut found: Vec<usize> = Vec::new();
    let mut dates: Vec<Date> = Vec::new();
    let mut keys: Vec<i64> = Vec::new();
    let mut i: usize = 0;
    while i < names.len()
        invariant
            i <= names@.len(),
            found@.len() == idx.len(),
            dates@.len() == idx.len(),
            keys@.len() == idx.len(),
            forall|k: int| 0 <= k < idx.len() ==> (#[trigger] found@[k]) == idx[k],
            forall|a: int, b: int|
                0 <= a < b < idx.len() ==> (#[trigger] idx[a]) < (#[trigger] idx[b]),
            forall|k: int|
                0 <= k < idx.len() ==> 0 <= (#[trigger] idx[k]) < i && flagged(
                    as_of,
                    names@[idx[k]],
                    window_days as int,
                ),
            forall|k: int|
                0 <= k < idx.len() ==> keys@[k] == distance(#[trigger] dates@[k], as_of)
                    && nearest_is(as_of, names@[idx[k]].dates@, dates@[k]),
            forall|k: int|
                0 <= k < i && flagged(as_of, #[trigger] names@[k], window_days as int)
                    ==> idx.contains(k),
        decreases names@.len() - i,
    {
        let ghost before = (idx, dates@, keys@, found@);
        let own: &Vec<Date> = &names[i].dates;
        match nearest_earnings(as_of, own) {
            Some(d) => {
                if is_near_earnings(as_of, own, window_days) {
                    found.push(i);
                    dates.push(d);
                    keys.push(days_between(d, as_of));
                    proof {
                        idx = idx.push(i as int);
                        assert forall|k: int| 0 <= k < idx.len() implies keys@[k] == distance(
                            #[trigger] dates@[k],
                            as_of,
                        ) && nearest_is(as_of, names@[idx[k]].dates@, dates@[k]) by {
                            if k < before.0.len() {
                                assert(dates@[k] == before.1[k]);
                                assert(idx[k] == before.0[k]);
                            }
                        }
                        assert forall|k: int| 0 <= k < idx.len() implies (#[trigger] found@[k])
                            == idx[k] by {
                            if k < before.0.len() {
                                assert(found@[k] == before.3[k]);
                            }
                        }
                    }
                }
            },
            None => {
                proof {
                    assert(!flagged(as_of, names@[i as int], window_days as int));
                }
            },
        }
        proof {
            assert forall|k: int|
                0 <= k < i + 1 && flagged(as_of, #[trigger] names@[k], window_days as int) implies idx.contains(
                k,
            ) by {
                if k < i {
                    assert(before.0.contains(k));
                    let q = choose|q: int| 0 <= q < before.0.len() && before.0[q] == k;
                    assert(idx[q] == k);
                } else {
                    assert(idx[before.0.len() as int] == k);
                }
            }
        }
        i = i + 1;
    }
    let p: Vec<usize> = order::stable_order(&keys);
    let mut out: Vec<EarningsFlag> = Vec::new();
    let mut k: usize = 0;
    while k < p.len()
        invariant
            k <= p@.len(),
            out@.len() == k,
            found@.len() == idx.len(),
            dates@.len() == idx.len(),
            keys@.len() == idx.len(),
            order::is_stable_order(keys@, p@),
            forall|q: int| 0 <= q < idx.len() ==> (#[trigger] found@[q]) == idx[q],
            forall|q: int| 0 <= q < idx.len() ==> 0 <= (#[trigger] idx[q]) < names@.len(),
            forall|q: int|
                0 <= q < idx.len() ==> keys@[q] == distance(#[trigger] dates@[q], as_of)
                    && nearest_is(as_of, names@[idx[q]].dates@, dates@[q]),
            forall|q: int|
                0 <= q < k ==> is_flag(as_of, names@[idx[p@[q] as int]], #[trigger] out@[q])
                    && keys@[p@[q] as int] == distance(out@[q].nearest_date, as_of),
        decreases p@.len() - k,
    {
        let at: usize = p[k];
        proof {
            assert(p@[k as int] < keys@.len());
            assert(found@[at as int] == idx[at as int]);
        }
        let d: Date = dates[at];
        proof {
            assert(dates@[at as int] == d);
        }
        out.push(
            EarningsFlag {
                ticker: names[found[at]].ticker.clone(),
                nearest_date: d,
                days_away: d.days_since(as_of),
            },
        );
        proof {
            assert(is_flag(as_of, names@[idx[p@[k as int] as int]], out@[k as int]));
        }
        k = k + 1;
    }
    proof {
        assert(flagged_positions(as_of, names@, window_days as int, idx));
        assert(are_flags(as_of, names@, window_days as int, idx, keys@, p@, out@));
    }
    out
}

/// The date that is closest to a day is one of those listed, and no other lies closer, before the
/// day or after it.
pub proof fn no_earnings_date_lies_closer(as_of: Date, dates: Vec<Date>, d: Date, i: int)
    requires
        call_ensures(nearest_earnings, (as_of, &dates), Some(d)),
        0 <= i < dates@.len(),
    ensures
        dates@.contains(d),
        d.days >= as_of.days && dates@[i].days >= as_of.days ==> d.days <= dates@[i].days,
        d.days <= as_of.days && dates@[i].days <= as_of.days ==> d.days >= dates@[i].days,
        d.days >= as_of.days && dates@[i].days <= as_of.days ==> d.days - as_of.days <= as_of.days
            - dates@[i].days,
        d.days <= as_of.days && dates@[i].days >= as_of.days ==> as_of.days - d.days
            <= dates@[i].days - as_of.days,
{
    let k = choose|k: int| #[trigger] closest(as_of, dates@, k) && dates@[k] == d;
    assert(distance(dates@[k], as_of) <= distance(dates@[i], as_of));
}

/// Earnings are near exactly where a date lies within the window on either side, both ends
/// included; a wider window flags no less.
pub proof fn nearness_has_two_sides(
    as_of: Date,
    dates: Vec<Date>,
    window: i64,
    wider: i64,
    r: bool,
    rw: bool,
)
    requires
        call_ensures(is_near_earnings, (as_of, &dates, window), r),
        call_ensures(is_near_earnings, (as_of, &dates, wider), rw),
        window <= wider,
    ensures
        r ==> rw,
        forall|i: int|
            0 <= i < dates@.len() && -window <= (#[trigger] dates@[i]).days - as_of.days <= window
                ==> r,
        r ==> exists|i: int|
            0 <= i < dates@.len() && -window <= (#[trigger] dates@[i]).days - as_of.days <= window,
{
    if r {
        let i = choose|i: int| 0 <= i < dates@.len() && distance(#[trigger] dates@[i], as_of) <= window;
        assert(-window <= dates@[i].days - as_of.days <= window);
        assert(distance(dates@[i], as_of) <= wider);
    }
    assert forall|i: int| 0 <= i < dates@.len() && -window <= (#[trigger] dates@[i]).days
        - as_of.days <= window implies r by {
        assert(distance(dates@[i], as_of) <= window);
    }
}

/// Flags come closest first, each with the days until the date that it names, which lies within
/// the window.
pub proof fn flags_come_closest_first(
    as_of: Date,
    names: Vec<EarningsDates>,
    window: i64,
    r: Vec<EarningsFlag>,
    i: int,
    j: int,
)
    requires
        call_ensures(flag_near_earnings, (as_of, &names, window), r),
        0 <= i < j < r@.len(),
    ensures
        r@[i].days_away == r@[i].nearest_date.days - as_of.days,
        -window <= r@[i].days_away <= window,
        r@[i].days_away >= 0 && r@[j].days_away >= 0 ==> r@[i].days_away <= r@[j].days_away,
        r@[i].days_away <= 0 && r@[j].days_away <= 0 ==> r@[i].days_away >= r@[j].days_away,
        r@[i].days_away >= 0 && r@[j].days_away <= 0 ==> r@[i].days_away <= -r@[j].days_away,
        r@[i].days_away <= 0 && r@[j].days_away >= 0 ==> -r@[i].days_away <= r@[j].days_away,
        exists|n: int|
            0 <= n < names@.len() && (#[trigger] names@[n]).ticker@ == r@[i].ticker@
                && names@[n].dates@.contains(r@[i].nearest_date),
{
    let (idx, keys, p) = choose|idx: Seq<int>, keys: Seq<i64>, p: Seq<usize>| #[trigger]
        are_flags(as_of, names@, window as int, idx, keys, p, r@);
    let (a, b) = (p[i] as int, p[j] as int);
    assert(is_flag(as_of, names@[idx[a]], r@[i]));
    assert(is_flag(as_of, names@[idx[b]], r@[j]));
    assert(order::precedes(keys, a, b));
    let n = idx[a];
    let e = names@[n];
    assert(flagged(as_of, e, window as int));
    let q = choose|q: int| #[trigger] closest(as_of, e.dates@, q) && e.dates@[q] == r@[i].nearest_date;
    let w = choose|w: int| 0 <= w < e.dates@.len() && distance(#[trigger] e.dates@[w], as_of) <= window;
    assert(distance(e.dates@[q], as_of) <= distance(e.dates@[w], as_of));
    assert(names@[n].ticker@ == r@[i].ticker@);
}

} // verus!
