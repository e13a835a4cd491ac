//! The trading calendar of a backtest: rebalance days and the benchmark.

use vstd::prelude::*;

use crate::calendar::Date;
use crate::data::prices;
use crate::text;

verus! {

/// When decisions turn into fills.
#[derive(Clone, Copy, Debug, PartialEq, Eq, Structural)]
pub enum ExecutionTiming {
    /// Decided on one day's close, filled at the next day's open.
    NextOpen,
    /// Decided and filled at the same close.
    SameClose,
}

/// Tickers listed on the National Stock Exchange of India end in `.NS`.
pub open spec fn nse_listed(t: Seq<char>) -> bool {
    ".NS"@.is_suffix_of(t)
}

/// Number of NSE listings among the first `n` tickers.
pub open spec fn nse_count(s: Seq<String>, n: int) -> int
    decreases n,
{
    if n <= 0 {
        0
    } else {
        nse_count(s, n - 1) + if nse_listed(s[n - 1]@) {
            1int
        } else {
            0int
        }
    }
}

/// The index to compare a universe with: `^NSEI` when more than half of it trades on the NSE,
/// otherwise `^GSPC`.
pub fn default_benchmark(tickers: &Vec<String>) -> (r: &'static str)
    ensures
        r@ == (if 2 * nse_count(tickers@, tickers.len() as int) > tickers.len() {
            "^NSEI"@
        } else {
            "^GSPC"@
        }),
{
    let mut nse: usize = 0;
    let mut i: usize = 0;
    while i < tickers.len()
        invariant
            i <= tickers.len(),
            nse <= i,
            nse == nse_count(tickers@, i as int),
        decreases tickers.len() - i,
    {
        if text::ends_with(tickers[i].as_str(), ".NS") {
            nse = nse + 1;
        }
        i = i + 1;
    }
    if nse > tickers.len() - nse {
        "^NSEI"
    } else {
        "^GSPC"
    }
}

/// Days between rebalances: at least one.
pub open spec fn cadence(every_days: u32) -> int {
    if every_days == 0 {
        1
    } else {
        every_days as int
    }
}

/// `d` is the first trading day on or after `target`.
pub open spec fn rolls_to(calendar: Seq<Date>, target: int, d: Date) -> bool {
    calendar.contains(d) && d.days >= target && forall|i: int|
        0 <= i < calendar.len() && (#[trigger] calendar[i]).days >= target ==> d.days
            <= calendar[i].days
}

/// The `k`-th rebalance target.
pub open spec fn target_day(start: Date, every_days: u32, k: int) -> int {
    start.days + k * cadence(every_days)
}

/// Whether `d` is the day on which some target is due.
pub open spec fn due_on(calendar: Seq<Date>, start: Date, every_days: u32, d: Date) -> bool {
    exists|k: int|
        k >= 0 && #[trigger] target_day(start, every_days, k) <= calendar.last().days && rolls_to(
            calendar,
            target_day(start, every_days, k),
            d,
        )
}

/// The days on which to rebalance. Targets fall every `every_days` calendar days from `start`,
/// as far as the calendar reaches; each rolls forward to the first trading day on or after it.
pub fn rebalance_days(calendar: &Vec<Date>, start: Date, every_days: u32) -> (r: Vec<Date>)
    requires
        prices::days_increase(calendar@),
    ensures
        prices::days_increase(r@),
        calendar.len() == 0 ==> r.len() == 0,
        calendar.len() > 0 ==> forall|d: Date|
            r@.contains(d) <==> due_on(calendar@, start, every_days, d),
{
    let every: i64 = if every_days == 0 {
        1
    } else {
        every_days as i64
    };
    let mut out: Vec<Date> = Vec::new();
    if calendar.len() == 0 {
        return out;
    }
    let last: Date = calendar[calendar.len() - 1];
    let mut target: i64 = start.days as i64;
    let ghost mut n: int = 0;
    proof {
        assert(0 * cadence(every_days) == 0) by (nonlinear_arith);
    }
    while target <= last.days as i64
        invariant
            calendar.len() > 0,
            last == calendar@.last(),
            prices::days_increase(calendar@),
            every == cadence(every_days),
            n >= 0,
            target == target_day(start, every_days, n),
            -0x8000_0000 <= target <= 0x7fff_ffff + every,
            every <= 0xffff_ffff,
            prices::days_increase(out@),
            forall|i: int| 0 <= i < out.len() ==> calendar@.contains(#[trigger] out[i]),
            n > 0 && out.len() > 0 ==> rolls_to(
                calendar@,
                target_day(start, every_days, n - 1),
                out@.last(),
            ),
            n > 0 ==> out.len() > 0,
            n == 0 ==> out.len() == 0,
            forall|d: Date|
                out@.contains(d) <==> exists|k: int|
                    0 <= k < n && rolls_to(
                        calendar@,
                        #[trigger] target_day(start, every_days, k),
                        d,
                    ),
        decreases (if target > last.days { 0int } else { last.days + 1 - target }),
    {
        let day: Date = Date { days: target as i32 };
        let i: usize = prices::first_on_or_after(calendar, day);
        proof {
            assert(day.days == target);
            if i >= calendar.len() {
                assert(calendar@[calendar.len() - 1].days < day.days);
            }
        }
        let d: Date = calendar[i];
        proof {
            assert(calendar@[i as int] == d);
            assert(rolls_to(calendar@, target as int, d)) by {
                assert forall|j: int|
                    0 <= j < calendar@.len() && (#[trigger] calendar@[j]).days >= target implies
                    d.days <= calendar@[j].days by {
                    if j > i {
                        assert(calendar@[i as int].days < calendar@[j].days);
                    }
                }
            }
        }
        let known: bool = out.len() > 0 && out[out.len() - 1].days == d.days;
        let ghost before = out@;
        proof {
            assert(target_day(start, every_days, n + 1) == target + every) by (nonlinear_arith)
                requires
                    target == target_day(start, every_days, n),
                    every == cadence(every_days),
            ;
            if n > 0 {
                let prev = target_day(start, every_days, n - 1);
                assert(prev == target - every) by (nonlinear_arith)
                    requires
                        prev == target_day(start, every_days, n - 1),
                        target == target_day(start, every_days, n),
                        every == cadence(every_days),
                ;
                assert(before.last().days <= d.days) by {
                    assert(calendar@[i as int].days >= prev);
                }
            }
        }
        if !known {
            out.push(d);
        }
        proof {
            assert(out@.last() == d);
            if !known {
                assert forall|p: int, q: int| 0 <= p < q < out.len() implies (
                #[trigger] out@[p]).days < (#[trigger] out@[q]).days by {
                    if q == before.len() {
                        assert(before[p].days <= before.last().days) by {
                            if p < before.len() - 1 {
                                assert(before[p].days < before[before.len() - 1].days);
                            }
                        }
                    }
                }
            }
            assert forall|x: Date|
                out@.contains(x) <==> exists|k: int|
                    0 <= k < n + 1 && rolls_to(
                        calendar@,
                        #[trigger] target_day(start, every_days, k),
                        x,
                    ) by {
                if out@.contains(x) {
                    if x == d {
                        assert(rolls_to(calendar@, target_day(start, every_days, n), x));
                    } else {
                        let q = choose|q: int| 0 <= q < out.len() && out@[q] == x;
                        assert(before[q] == x);
                        assert(before.contains(x));
                    }
                }
                if exists|k: int|
                    0 <= k < n + 1 && rolls_to(
                        calendar@,
                        #[trigger] target_day(start, every_days, k),
                        x,
                    ) {
                    let k = choose|k: int|
                        0 <= k < n + 1 && rolls_to(
                            calendar@,
                            #[trigger] target_day(start, every_days, k),
                            x,
                        );
                    if k == n {
                        assert(x == d) by {
                            let j = choose|j: int| 0 <= j < calendar@.len() && calendar@[j] == x;
                            assert(calendar@[j].days >= target);
                            assert(calendar@[i as int].days >= target);
                        }
                        assert(out@[out.len() - 1] == x);
                    } else {
                        assert(before.contains(x));
                        let q = choose|q: int| 0 <= q < before.len() && before[q] == x;
                        assert(out@[q] == x);
                    }
                }
            }
            n = n + 1;
        }
        target = target + every;
    }
    proof {
        assert forall|d: Date|
            out@.contains(d) <==> due_on(calendar@, start, every_days, d) by {
            if out@.contains(d) {
                let k = choose|k: int|
                    0 <= k < n && rolls_to(
                        calendar@,
                        #[trigger] target_day(start, every_days, k),
                        d,
                    );
                assert(k * cadence(every_days) <= (n - 1) * cadence(every_days)) by (nonlinear_arith)
                    requires
                        0 <= k <= n - 1,
                        cadence(every_days) >= 1,
                ;
                let c = choose|c: int| 0 <= c < calendar@.len() && calendar@[c] == d;
                assert(calendar@[c].days <= calendar@.last().days) by {
                    if c < calendar@.len() - 1 {
                        assert(calendar@[c].days < calendar@[calendar@.len() - 1].days);
                    }
                }
                assert(target_day(start, every_days, k) <= calendar@.last().days);
            }
            if due_on(calendar@, start, every_days, d) {
                let k = choose|k: int|
                    k >= 0 && #[trigger] target_day(start, every_days, k) <= calendar@.last().days
                        && rolls_to(calendar@, target_day(start, every_days, k), d);
                if k >= n {
                    assert(k * cadence(every_days) >= n * cadence(every_days)) by (nonlinear_arith)
                        requires
                            k >= n,
                            cadence(every_days) >= 1,
                    ;
                }
            }
        }
    }
    out
}

/// Rebalance days are trading days, and no target within the calendar is skipped: each has a
/// rebalance day, which is the first trading day on or after it.
pub proof fn every_target_is_met(calendar: Seq<Date>, start: Date, every_days: u32, k: int)
    requires
        prices::days_increase(calendar),
        calendar.len() > 0,
        k >= 0,
        target_day(start, every_days, k) <= calendar.last().days,
    ensures
        exists|d: Date|
            #![trigger due_on(calendar, start, every_days, d)]
            rolls_to(calendar, target_day(start, every_days, k), d) && due_on(
                calendar,
                start,
                every_days,
                d,
            ),
{
    let t = target_day(start, every_days, k);
    let d = first_from(calendar, t, 0);
    lemma_first_from(calendar, t, 0);
    assert(due_on(calendar, start, every_days, d));
}

spec fn first_from(calendar: Seq<Date>, t: int, i: int) -> Date
    decreases calendar.len() - i,
{
    if i < 0 || i >= calendar.len() - 1 || calendar[i].days >= t {
        calendar[i]
    } else {
        first_from(calendar, t, i + 1)
    }
}

proof fn lemma_first_from(calendar: Seq<Date>, t: int, i: int)
    requires
        prices::days_increase(calendar),
        0 <= i < calendar.len(),
        t <= calendar.last().days,
        forall|j: int| 0 <= j < i ==> (#[trigger] calendar[j]).days < t,
    ensures
        rolls_to(calendar, t, first_from(calendar, t, i)),
    decreases calendar.len() - i,
{
    if i >= calendar.len() - 1 || calendar[i].days >= t {
        assert forall|j: int| 0 <= j < calendar.len() && (#[trigger] calendar[j]).days >= t implies
            calendar[i].days <= calendar[j].days by {
            if j > i {
                assert(calendar[i].days < calendar[j].days);
            }
        }
    } else {
        lemma_first_from(calendar, t, i + 1);
    }
}

/// Every rebalance day is a trading day on or after the start.
pub proof fn rebalances_on_trading_days(
    calendar: Seq<Date>,
    start: Date,
    every_days: u32,
    d: Date,
)
    requires
        due_on(calendar, start, every_days, d),
    ensures
        calendar.contains(d),
        d.days >= start.days,
{
    let k = choose|k: int|
        k >= 0 && #[trigger] target_day(start, every_days, k) <= calendar.last().days && rolls_to(
            calendar,
            target_day(start, every_days, k),
            d,
        );
    assert(k * cadence(every_days) >= 0) by (nonlinear_arith)
        requires
            k >= 0,
            cadence(every_days) >= 1,
    ;
}

/// Where a target falls on or before a trading day, and no trading day lies between the two, that
/// day is one on which to rebalance.
pub proof fn each_target_rolls_forward(
    calendar: Vec<Date>,
    start: Date,
    every_days: u32,
    r: Vec<Date>,
    k: int,
    i: int,
)
    requires
        call_ensures(rebalance_days, (&calendar, start, every_days), r),
        prices::days_increase(calendar@),
        every_days > 0,
        k >= 0,
        0 <= i < calendar@.len(),
        start.days + k * every_days <= calendar@[i].days,
        i > 0 ==> calendar@[i - 1].days < start.days + k * every_days,
    ensures
        r@.contains(calendar@[i]),
{
    let c = calendar@;
    let t = start.days + k * every_days;
    assert(target_day(start, every_days, k) == t);
    assert forall|j: int| 0 <= j < c.len() && (#[trigger] c[j]).days >= t implies c[i].days
        <= c[j].days by {
        if j < i {
            assert(c[j].days <= c[i - 1].days);
        }
    }
    assert(c[i].days <= c.last().days);
    assert(rolls_to(c, t, c[i]));
    assert(due_on(c, start, every_days, c[i]));
}

/// The book is rebalanced on trading days alone, in their order, and only where a target has fallen
/// due since the trading day before.
pub proof fn each_rebalance_has_a_target(
    calendar: Vec<Date>,
    start: Date,
    every_days: u32,
    r: Vec<Date>,
    j: int,
)
    requires
        call_ensures(rebalance_days, (&calendar, start, every_days), r),
        prices::days_increase(calendar@),
        every_days > 0,
        0 <= j < r@.len(),
    ensures
        exists|i: int, k: int|
            0 <= i < calendar@.len() && #[trigger] calendar@[i] == r@[j] && k >= 0 && start.days
                + #[trigger] (k * every_days) <= calendar@[i].days && (i > 0 ==> calendar@[i
                - 1].days < start.days + k * every_days),
        j > 0 ==> r@[j - 1].days < r@[j].days,
{
    let c = calendar@;
    let d = r@[j];
    assert(r@.contains(d));
    assert(due_on(c, start, every_days, d));
    let k = choose|k: int|
        k >= 0 && #[trigger] target_day(start, every_days, k) <= c.last().days && rolls_to(
            c,
            target_day(start, every_days, k),
            d,
        );
    let i = choose|i: int| 0 <= i < c.len() && c[i] == d;
    assert(target_day(start, every_days, k) == start.days + k * every_days);
    if i > 0 {
        assert(c[i - 1].days < c[i].days);
    }
}

/// A cadence of zero days is that of one day.
pub proof fn a_cadence_of_zero_is_daily(
    calendar: Vec<Date>,
    start: Date,
    zero: Vec<Date>,
    one: Vec<Date>,
)
    requires
        call_ensures(rebalance_days, (&calendar, start, 0u32), zero),
        call_ensures(rebalance_days, (&calendar, start, 1u32), one),
        prices::days_increase(calendar@),
        calendar@.len() > 0,
    ensures
        forall|d: Date| zero@.contains(d) <==> one@.contains(d),
{
    assert forall|d: Date| zero@.contains(d) <==> one@.contains(d) by {
        assert(due_on(calendar@, start, 0, d) == due_on(calendar@, start, 1, d)) by {
            assert forall|k: int| #[trigger] target_day(start, 0, k) == target_day(
                start,
                1,
                k,
            ) by {}
            assert forall|k: int| #[trigger] target_day(start, 1, k) == target_day(
                start,
                0,
                k,
            ) by {}
        }
    }
}

proof fn lemma_nse_count(s: Seq<String>, n: int)
    requires
        0 <= n <= s.len(),
    ensures
        nse_count(s, n) == s.take(n).filter(|t: String| ".NS"@.is_suffix_of(t@)).len(),
    decreases n,
{
    reveal(Seq::filter);
    if n > 0 {
        lemma_nse_count(s, n - 1);
        assert(s.take(n).drop_last() =~= s.take(n - 1));
        assert(s.take(n).last() == s[n - 1]);
    }
}

/// A universe is compared with India's index exactly where most of its tickers end in `.NS`.
pub proof fn most_tickers_decide_the_benchmark(tickers: Vec<String>, r: &'static str)
    requires
        call_ensures(default_benchmark, (&tickers,), r),
    ensures
        ({
            let indian = tickers@.filter(|t: String| ".NS"@.is_suffix_of(t@)).len();
            &&& 2 * indian > tickers@.len() ==> r@ == "^NSEI"@
            &&& 2 * indian <= tickers@.len() ==> r@ == "^GSPC"@
        }),
{
    lemma_nse_count(tickers@, tickers@.len() as int);
    assert(tickers@.take(tickers@.len() as int) =~= tickers@);
}

} // verus!
