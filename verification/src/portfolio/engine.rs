//! When a simulated portfolio rebalances, and which prices it is valued at.

use vstd::prelude::*;

use crate::calendar;
use crate::calendar::Date;
use crate::number::Number;

verus! {

/// How often a portfolio is rebalanced.
#[derive(Clone, Copy, Debug, PartialEq, Eq, Structural)]
pub enum RebalanceFrequency {
    Daily,
    Weekly,
    Monthly,
    Quarterly,
    Annual,
}

/// Days or months between two rebalances.
pub open spec fn step_of(freq: RebalanceFrequency) -> int {
    match freq {
        RebalanceFrequency::Daily => 1,
        RebalanceFrequency::Weekly => 7,
        RebalanceFrequency::Monthly => 1,
        RebalanceFrequency::Quarterly => 3,
        RebalanceFrequency::Annual => 12,
    }
}

/// Whether a frequency counts months rather than days.
pub open spec fn counts_months(freq: RebalanceFrequency) -> bool {
    match freq {
        RebalanceFrequency::Daily => false,
        RebalanceFrequency::Weekly => false,
        _ => true,
    }
}

/// The `k`-th checkpoint after the date `y`-`m`-`d`: `k` steps counted from that date, not from
/// the checkpoint before; nothing where it cannot be represented.
pub open spec fn checkpoint(freq: RebalanceFrequency, y: int, m: int, d: int, k: int) -> Option<
    int,
> {
    if counts_months(freq) {
        if calendar::year_in_range(calendar::month_after(y, m, step_of(freq) * k).0) {
            Some(calendar::months_after(y, m, d, step_of(freq) * k))
        } else {
            None
        }
    } else {
        let day = calendar::day_number(y, m, d) + step_of(freq) * k;
        if calendar::day_in_range(day) {
            Some(day)
        } else {
            None
        }
    }
}

/// The checkpoints of a window: the first ones after the start, as many as do not lie after its
/// end.
pub open spec fn is_schedule(
    freq: RebalanceFrequency,
    y: int,
    m: int,
    d: int,
    end: Date,
    s: Seq<Date>,
) -> bool {
    &&& forall|i: int|
        0 <= i < s.len() ==> checkpoint(freq, y, m, d, i + 1) == Some((#[trigger] s[i]).days as int)
            && s[i].days <= end.days
    &&& match checkpoint(freq, y, m, d, s.len() as int + 1) {
        Some(day) => day > end.days,
        None => true,
    }
}

impl RebalanceFrequency {
    /// Calendar dates on which a rebalance is due after `start`, up to `end`. Each is computed
    /// from `start`, so that a start at the end of a month does not drift, and clamped to the last
    /// day of a shorter month.
    pub fn checkpoints(&self, start: Date, end: Date) -> (r: Vec<Date>)
        requires
            start.in_range(),
        ensures
            forall|y: int, m: int, d: int| #[trigger]
                start.is_ymd(y, m, d) ==> is_schedule(*self, y, m, d, end, r@),
            forall|i: int|
                0 <= i < r@.len() ==> (#[trigger] r@[i]).in_range() && start.days < r@[i].days
                    <= end.days,
            forall|i: int, j: int|
                0 <= i < j < r@.len() ==> (#[trigger] r@[i]).days < (#[trigger] r@[j]).days,
    {
        let (gy, gm, gd): (i32, u32, u32) = start.ymd();
        let ghost y = gy as int;
        let ghost m = gm as int;
        let ghost d = gd as int;
        proof {
            assert forall|y2: int, m2: int, d2: int| #[trigger] start.is_ymd(y2, m2, d2) implies y2
                == y && m2 == m && d2 == d by {
                calendar::day_number_is_injective(y, m, d, y2, m2, d2);
            }
        }
        let months: bool = match self {
            RebalanceFrequency::Daily => false,
            RebalanceFrequency::Weekly => false,
            _ => true,
        };
        let step: u32 = match self {
            RebalanceFrequency::Daily => 1,
            RebalanceFrequency::Weekly => 7,
            RebalanceFrequency::Monthly => 1,
            RebalanceFrequency::Quarterly => 3,
            RebalanceFrequency::Annual => 12,
        };
        let mut out: Vec<Date> = Vec::new();
        let mut k: u32 = 1;
        let mut due: Option<Date> = nth_checkpoint(start, months, step, k);
        loop
            invariant_except_break
                start.in_range(),
                start.is_ymd(y, m, d),
                calendar::year_in_range(y),
                months == counts_months(*self),
                step == step_of(*self),
                1 <= k <= 200_000_000,
                out@.len() == k - 1,
                forall|i: int|
                    0 <= i < out@.len() ==> checkpoint(*self, y, m, d, i + 1) == Some(
                        (#[trigger] out@[i]).days as int,
                    ) && out@[i].days <= end.days && out@[i].in_range(),
                match due {
                    Some(t) => checkpoint(*self, y, m, d, k as int) == Some(t.days as int)
                        && t.in_range(),
                    None => checkpoint(*self, y, m, d, k as int) is None,
                },
            ensures
                is_schedule(*self, y, m, d, end, out@),
                forall|i: int| 0 <= i < out@.len() ==> (#[trigger] out@[i]).in_range(),
            decreases 200_000_001 - k,
        {
            match due {
                Some(t) => {
                    if t.days > end.days {
                        break;
                    }
                    out.push(t);
                    proof {
                        lemma_steps_bounded(*self, y, m, d, k as int);
                    }
                    k = k + 1;
                    due = nth_checkpoint(start, months, step, k);
                },
                None => {
                    break;
                },
            }
        }
        proof {
            assert forall|i: int| 0 <= i < out@.len() implies start.days < (
            #[trigger] out@[i]).days by {
                assert(checkpoint(*self, y, m, d, i + 1) == Some(out@[i].days as int));
                checkpoints_increase(*self, y, m, d, 0, i + 1);
            }
            assert forall|i: int, j: int| 0 <= i < j < out@.len() implies (
            #[trigger] out@[i]).days < (#[trigger] out@[j]).days by {
                assert(checkpoint(*self, y, m, d, i + 1) == Some(out@[i].days as int));
                assert(checkpoint(*self, y, m, d, j + 1) == Some(out@[j].days as int));
                checkpoints_increase(*self, y, m, d, i + 1, j + 1);
            }
        }
        out
    }
}

/// A representable checkpoint is not more than two hundred million steps away.
proof fn lemma_steps_bounded(freq: RebalanceFrequency, y: int, m: int, d: int, k: int)
    requires
        calendar::civil(y, m, d),
        calendar::year_in_range(y),
        calendar::day_in_range(calendar::day_number(y, m, d)),
        k >= 1,
        checkpoint(freq, y, m, d, k) is Some,
    ensures
        k < 200_000_000,
{
    if counts_months(freq) {
        assert(step_of(freq) * k >= k) by (nonlinear_arith)
            requires
                step_of(freq) >= 1,
                k >= 1,
        ;
    } else {
        assert(step_of(freq) * k >= k) by (nonlinear_arith)
            requires
                step_of(freq) >= 1,
                k >= 1,
        ;
    }
}

/// The date `k` steps after `start`.
fn nth_checkpoint(start: Date, months: bool, step: u32, k: u32) -> (r: Option<Date>)
    requires
        start.in_range(),
        1 <= step <= 12,
        1 <= k <= 200_000_000,
    ensures
        forall|y: int, m: int, d: int| #[trigger]
            start.is_ymd(y, m, d) ==> match r {
                Some(t) => t.in_range() && t.days == (if months {
                    calendar::months_after(y, m, d, step * k)
                } else {
                    start.days + step * k
                }) && (months ==> calendar::year_in_range(
                    calendar::month_after(y, m, step * k).0,
                )),
                None => if months {
                    !calendar::year_in_range(calendar::month_after(y, m, step * k).0)
                } else {
                    !calendar::day_in_range(start.days + step * k)
                },
            },
{
    proof {
        assert(1 <= step * k <= 2_400_000_000) by (nonlinear_arith)
            requires
                1 <= step <= 12,
                1 <= k <= 200_000_000,
        ;
    }
    let n: u32 = step * k;
    if months {
        start.checked_add_months(n)
    } else {
        let day: i64 = start.days as i64 + n as i64;
        if day <= calendar::LAST_DAY as i64 {
            Some(Date { days: day as i32 })
        } else {
            None
        }
    }
}

/// Checkpoints lie after the start and strictly increase.
pub proof fn checkpoints_increase(
    freq: RebalanceFrequency,
    y: int,
    m: int,
    d: int,
    a: int,
    b: int,
)
    requires
        calendar::civil(y, m, d),
        0 <= a < b,
        checkpoint(freq, y, m, d, b) is Some,
        a == 0 || checkpoint(freq, y, m, d, a) is Some,
    ensures
        a == 0 ==> calendar::day_number(y, m, d) < checkpoint(freq, y, m, d, b)->0,
        a > 0 ==> checkpoint(freq, y, m, d, a)->0 < checkpoint(freq, y, m, d, b)->0,
{
    let step = step_of(freq);
    assert(step * a < step * b) by (nonlinear_arith)
        requires
            step >= 1,
            0 <= a < b,
    ;
    assert(step * 0 == 0) by (nonlinear_arith);
    if counts_months(freq) {
        lemma_months_increase(y, m, d, step * a, step * b);
    }
}

/// Moving further by months gives a later date.
proof fn lemma_months_increase(y: int, m: int, d: int, p: int, q: int)
    requires
        calendar::civil(y, m, d),
        0 <= p < q,
    ensures
        calendar::months_after(y, m, d, p) < calendar::months_after(y, m, d, q),
        calendar::months_after(y, m, d, 0) == calendar::day_number(y, m, d),
{
    let (py, pm) = calendar::month_after(y, m, p);
    let (qy, qm) = calendar::month_after(y, m, q);
    let pd = if d <= calendar::month_len(py, pm) { d } else { calendar::month_len(py, pm) };
    let qd = if d <= calendar::month_len(qy, qm) { d } else { calendar::month_len(qy, qm) };
    assert(calendar::civil(py, pm, pd));
    assert(calendar::civil(qy, qm, qd));
    assert(py < qy || (py == qy && pm < qm));
    calendar::day_number_is_monotone(py, pm, pd, qy, qm, qd);
    assert(calendar::month_after(y, m, 0) == (y, m));
}

// ── The days of a run ────────────────────────────────────────────────────────

/// One day of a run.
#[derive(Clone, Copy, Debug, PartialEq, Eq, Structural)]
pub struct DayPlan {
    pub date: Date,
    /// Whether the portfolio is rebalanced that day.
    pub rebalance: bool,
}

/// Saturdays and Sundays.
pub open spec fn weekend(day: int) -> bool {
    (day - 1) % 7 >= 5
}

/// Whether a checkpoint fell due after `after` and on or before `day`.
pub open spec fn fell_due(checkpoints: Seq<Date>, after: int, day: int) -> bool {
    exists|i: int|
        0 <= i < checkpoints.len() && after < (#[trigger] checkpoints[i]).days <= day
}

/// The days of a run from `start` through `end`: every weekday, in order. A day rebalances, unless
/// it is the start, once a checkpoint has fallen due since the day before it.
pub open spec fn is_plan(
    plan: Seq<DayPlan>,
    start: int,
    upto: int,
    checkpoints: Seq<Date>,
) -> bool {
    &&& forall|i: int, j: int|
        0 <= i < j < plan.len() ==> (#[trigger] plan[i]).date.days < (#[trigger] plan[j]).date.days
    &&& forall|i: int|
        0 <= i < plan.len() ==> start <= (#[trigger] plan[i]).date.days <= upto && !weekend(
            plan[i].date.days as int,
        )
    &&& forall|day: int|
        start <= day <= upto && !#[trigger] weekend(day) ==> exists|i: int|
            0 <= i < plan.len() && (#[trigger] plan[i]).date.days == day
    &&& forall|i: int|
        0 <= i < plan.len() ==> (#[trigger] plan[i]).rebalance == (plan[i].date.days > start
            && fell_due(
            checkpoints,
            if i == 0 {
                start - 1
            } else {
                plan[i - 1].date.days as int
            },
            plan[i].date.days as int,
        ))
}

/// The days of a run, with the ones on which it rebalances.
pub fn run_plan(start: Date, end: Date, checkpoints: &Vec<Date>) -> (r: Vec<DayPlan>)
    requires
        start.in_range(),
        end.in_range(),
        forall|i: int, j: int|
            0 <= i < j < checkpoints@.len() ==> (#[trigger] checkpoints@[i]).days < (
            #[trigger] checkpoints@[j]).days,
        forall|i: int|
            0 <= i < checkpoints@.len() ==> (#[trigger] checkpoints@[i]).days > start.days,
    ensures
        is_plan(r@, start.days as int, end.days as int, checkpoints@),
{
    let mut out: Vec<DayPlan> = Vec::new();
    let mut next: usize = 0;
    let mut day: i32 = start.days;
    while day <= end.days
        invariant
            start.in_range(),
            end.in_range(),
            start.days <= day,
            day <= end.days + 1 || day == start.days,
            forall|i: int, j: int|
                0 <= i < j < checkpoints@.len() ==> (#[trigger] checkpoints@[i]).days < (
                #[trigger] checkpoints@[j]).days,
            forall|i: int|
                0 <= i < checkpoints@.len() ==> (#[trigger] checkpoints@[i]).days > start.days,
            is_plan(out@, start.days as int, day - 1, checkpoints@),
            next <= checkpoints@.len(),
            forall|i: int|
                0 <= i < next ==> (#[trigger] checkpoints@[i]).days <= (if out@.len() == 0 {
                    start.days - 1
                } else {
                    out@.last().date.days as int
                }),
            forall|i: int|
                next <= i < checkpoints@.len() ==> (#[trigger] checkpoints@[i]).days > (
                if out@.len() == 0 {
                    start.days - 1
                } else {
                    out@.last().date.days as int
                }),
        decreases end.days + 1 - day,
    {
        let date: Date = Date { days: day };
        let ghost before = out@;
        if !date.is_weekend() {
            let ghost first = next;
            let ghost since = if out@.len() == 0 {
                start.days - 1
            } else {
                out@.last().date.days as int
            };
            let mut due: bool = false;
            while next < checkpoints.len() && checkpoints[next].days <= day
                invariant
                    first <= next <= checkpoints@.len(),
                    due == (next > first),
                    forall|i: int|
                        first <= i < next ==> (#[trigger] checkpoints@[i]).days <= day,
                    forall|i: int|
                        first <= i < checkpoints@.len() ==> (#[trigger] checkpoints@[i]).days
                            > since,
                decreases checkpoints.len() - next,
            {
                due = true;
                next = next + 1;
            }
            let rebalance: bool = day > start.days && due;
            out.push(DayPlan { date, rebalance });
            proof {
                assert(due == fell_due(checkpoints@, since, day as int)) by {
                    if due {
                        assert(since < checkpoints@[first as int].days <= day);
                    } else if fell_due(checkpoints@, since, day as int) {
                        let i = choose|i: int|
                            0 <= i < checkpoints@.len() && since < (#[trigger] checkpoints@[i]).days
                                <= day;
                        assert(i >= first);
                        if i > first {
                            assert(checkpoints@[first as int].days < checkpoints@[i].days);
                        }
                    }
                }
                assert forall|i: int| next <= i < checkpoints@.len() implies (
                #[trigger] checkpoints@[i]).days > day by {
                    if i > next {
                        assert(checkpoints@[next as int].days < checkpoints@[i].days);
                    }
                }
                assert forall|i: int| 0 <= i < next implies (#[trigger] checkpoints@[i]).days
                    <= day by {}
                assert forall|x: int| start.days <= x <= day && !#[trigger] weekend(
                    x,
                ) implies exists|i: int|
                    0 <= i < out@.len() && (#[trigger] out@[i]).date.days == x by {
                    if x == day {
                        assert(out@[before.len() as int].date.days == x);
                    } else {
                        let i = choose|i: int|
                            0 <= i < before.len() && (#[trigger] before[i]).date.days == x;
                        assert(out@[i].date.days == x);
                    }
                }
                assert forall|i: int| 0 <= i < out@.len() implies (#[trigger] out@[i]).rebalance
                    == (out@[i].date.days > start.days && fell_due(
                    checkpoints@,
                    if i == 0 {
                        start.days - 1
                    } else {
                        out@[i - 1].date.days as int
                    },
                    out@[i].date.days as int,
                )) by {
                    if i < before.len() {
                        assert(out@[i] == before[i]);
                        if i > 0 {
                            assert(out@[i - 1] == before[i - 1]);
                        }
                    }
                }
            }
        } else {
            proof {
                assert(weekend(day as int));
            }
        }
        day = day + 1;
    }
    proof {
        if start.days > end.days {
            assert(is_plan(out@, start.days as int, end.days as int, checkpoints@));
        }
    }
    out
}

// ── Prices ───────────────────────────────────────────────────────────────────

/// A price on a day.
#[derive(Clone, Copy, Debug, PartialEq, Eq, Structural)]
pub struct PricePoint {
    pub date: Date,
    pub price: Number,
}

/// The price of a day: the last one given for it.
pub open spec fn price_on(s: Seq<PricePoint>, day: int) -> Option<Number>
    decreases s.len(),
{
    if s.len() == 0 {
        None
    } else if s.last().date.days == day {
        Some(s.last().price)
    } else {
        price_on(s.drop_last(), day)
    }
}

/// `i` is the point with the latest date on or before a day, the last one given for that date.
pub open spec fn is_latest_by(s: Seq<PricePoint>, day: int, i: int) -> bool {
    &&& 0 <= i < s.len()
    &&& s[i].date.days <= day
    &&& forall|j: int|
        0 <= j < s.len() && (#[trigger] s[j]).date.days <= day ==> s[j].date.days < s[i].date.days
            || (s[j].date == s[i].date && j <= i)
}

/// Whether `r` is the most recent price on or before a day: nothing where every price is of a later
/// day.
pub open spec fn is_last_known(s: Seq<PricePoint>, day: int, r: Option<Number>) -> bool {
    match r {
        Some(p) => exists|i: int| #[trigger] is_latest_by(s, day, i) && s[i].price == p,
        None => forall|i: int| 0 <= i < s.len() ==> (#[trigger] s[i]).date.days > day,
    }
}

/// The price given for a day.
fn find_price(v: &Vec<PricePoint>, day: i64) -> (r: Option<Number>)
    ensures
        r == price_on(v@, day as int),
{
    let mut n: usize = v.len();
    proof {
        assert(v@.take(n as int) =~= v@);
    }
    while n > 0
        invariant
            n <= v.len(),
            price_on(v@, day as int) == price_on(v@.take(n as int), day as int),
        decreases n,
    {
        proof {
            assert(v@.take(n as int).drop_last() =~= v@.take(n - 1));
        }
        if v[n - 1].date.days as i64 == day {
            return Some(v[n - 1].price);
        }
        n = n - 1;
    }
    None
}

/// The most recent price on or before a date, however old it is: a price is filled forward over a
/// gap of any length, not over a few days alone.
pub fn last_known_ticker_price(v: &Vec<PricePoint>, date: Date) -> (r: Option<Number>)
    ensures
        is_last_known(v@, date.days as int, r),
{
    let mut best: Option<usize> = None;
    let mut n: usize = 0;
    while n < v.len()
        invariant
            n <= v@.len(),
            match best {
                Some(i) => is_latest_by(v@.take(n as int), date.days as int, i as int),
                None => forall|i: int| 0 <= i < n ==> (#[trigger] v@[i]).date.days > date.days,
            },
        decreases v@.len() - n,
    {
        let ghost before = best;
        let later: bool = match best {
            Some(i) => v[i].date.days <= v[n].date.days,
            None => true,
        };
        if v[n].date.days <= date.days && later {
            best = Some(n);
        }
        proof {
            let seen = v@.take(n as int);
            let more = v@.take(n + 1);
            assert forall|j: int| 0 <= j < n implies #[trigger] more[j] == seen[j] by {}
            assert forall|j: int| 0 <= j < n implies #[trigger] seen[j] == v@[j] by {}
            assert(more[n as int] == v@[n as int]);
            if let Some(i) = best {
                assert forall|j: int|
                    0 <= j < more.len() && (#[trigger] more[j]).date.days
                        <= date.days implies more[j].date.days < more[i as int].date.days || (
                more[j].date == more[i as int].date && j <= i) by {
                    if j < n {
                        assert(more[j] == seen[j]);
                        if before is None {
                            assert(v@[j].date.days > date.days);
                        }
                    }
                }
            }
        }
        n = n + 1;
    }
    proof {
        assert(v@.take(v@.len() as int) =~= v@);
    }
    match best {
        Some(i) => Some(v[i].price),
        None => None,
    }
}

/// A price that is carried forward is one that was given, and the latest of those on or before the
/// day: there is one wherever a price is given on or before it.
pub proof fn prices_are_filled_forward(s: Seq<PricePoint>, day: int, r: Option<Number>)
    requires
        is_last_known(s, day, r),
    ensures
        r matches Some(p) ==> exists|i: int|
            0 <= i < s.len() && (#[trigger] s[i]).price == p && s[i].date.days <= day,
        r is Some <==> exists|i: int| 0 <= i < s.len() && (#[trigger] s[i]).date.days <= day,
{
    if let Some(p) = r {
        let i = choose|i: int| #[trigger] is_latest_by(s, day, i) && s[i].price == p;
        assert(s[i].price == p);
    }
}

/// On the days after a price on which no other is given, it stays the one that is known, however
/// many they are.
pub proof fn a_price_lasts_until_the_next(
    s: Seq<PricePoint>,
    first: int,
    day: int,
    a: Option<Number>,
    b: Option<Number>,
)
    requires
        first <= day,
        forall|i: int| 0 <= i < s.len() ==> !(first < (#[trigger] s[i]).date.days <= day),
        is_last_known(s, first, a),
        is_last_known(s, day, b),
    ensures
        a == b,
{
    if let Some(p) = a {
        let i = choose|i: int| #[trigger] is_latest_by(s, first, i) && s[i].price == p;
        assert(s[i].date.days <= day);
        assert(b is Some);
    }
    if let Some(q) = b {
        let j = choose|j: int| #[trigger] is_latest_by(s, day, j) && s[j].price == q;
        assert(s[j].date.days <= first);
        assert(a is Some);
        let i = choose|i: int| #[trigger] is_latest_by(s, first, i) && s[i].price == a->0;
        assert(s[i].date.days <= day);
        assert(i == j);
    }
}

/// The price at which a weight buys shares: a known one that is not zero or less.
pub fn allocation_price(v: &Vec<PricePoint>, date: Date) -> (r: Option<Number>)
    ensures
        exists|known: Option<Number>| #[trigger]
            is_last_known(v@, date.days as int, known) && r == (match known {
                Some(p) => if p.le(Number { bits: 0 }) {
                    None
                } else {
                    Some(p)
                },
                None => None,
            }),
{
    let known: Option<Number> = last_known_ticker_price(v, date);
    match known {
        Some(p) => {
            if p.is_le(Number::zero()) {
                None
            } else {
                Some(p)
            }
        },
        None => None,
    }
}

/// First and last price in time, for the return of buying and holding: the first is positive and
/// the last is finite.
pub fn buy_and_hold_prices(v: &Vec<PricePoint>) -> (r: Option<(Number, Number)>)
    ensures
        match r {
            Some((first, last)) => {
                &&& v@.len() > 0
                &&& exists|a: Date, b: Date|
                    #![trigger is_first_day(v@, a), is_last_day(v@, b)]
                    is_first_day(v@, a) && is_last_day(v@, b) && price_on(v@, a.days as int)
                        == Some(first) && price_on(v@, b.days as int) == Some(last)
                &&& (Number { bits: 0 }).lt(first)
                &&& last.finite()
            },
            None => v@.len() == 0 || exists|a: Date, b: Date|
                #![trigger is_first_day(v@, a), is_last_day(v@, b)]
                is_first_day(v@, a) && is_last_day(v@, b) && (match (
                    price_on(v@, a.days as int),
                    price_on(v@, b.days as int),
                ) {
                    (Some(first), Some(last)) => !((Number { bits: 0 }).lt(first)
                        && last.finite()),
                    _ => false,
                }),
        },
{
    if v.len() == 0 {
        return None;
    }
    let mut lo: Date = v[0].date;
    let mut hi: Date = v[0].date;
    let mut i: usize = 1;
    while i < v.len()
        invariant
            1 <= i <= v.len(),
            exists|k: int| 0 <= k < i && (#[trigger] v@[k]).date == lo,
            exists|k: int| 0 <= k < i && (#[trigger] v@[k]).date == hi,
            forall|k: int| 0 <= k < i ==> lo.days <= (#[trigger] v@[k]).date.days <= hi.days,
        decreases v.len() - i,
    {
        let d: Date = v[i].date;
        if d.days < lo.days {
            lo = d;
        }
        if d.days > hi.days {
            hi = d;
        }
        proof {
            assert(v@[i as int].date == d);
        }
        i = i + 1;
    }
    proof {
        assert(is_first_day(v@, lo));
        assert(is_last_day(v@, hi));
        lemma_has_price(v@, lo.days as int);
        lemma_has_price(v@, hi.days as int);
    }
    match (find_price(v, lo.days as i64), find_price(v, hi.days as i64)) {
        (Some(first), Some(last)) => {
            if Number::zero().is_lt(first) && last.is_finite() {
                Some((first, last))
            } else {
                None
            }
        },
        _ => None,
    }
}

/// `a` is the earliest day with a price.
pub open spec fn is_first_day(s: Seq<PricePoint>, a: Date) -> bool {
    (exists|i: int| 0 <= i < s.len() && (#[trigger] s[i]).date == a) && forall|i: int|
        0 <= i < s.len() ==> a.days <= (#[trigger] s[i]).date.days
}

/// `b` is the latest day with a price.
pub open spec fn is_last_day(s: Seq<PricePoint>, b: Date) -> bool {
    (exists|i: int| 0 <= i < s.len() && (#[trigger] s[i]).date == b) && forall|i: int|
        0 <= i < s.len() ==> (#[trigger] s[i]).date.days <= b.days
}

proof fn lemma_has_price(s: Seq<PricePoint>, day: int)
    requires
        exists|i: int| 0 <= i < s.len() && (#[trigger] s[i]).date.days == day,
    ensures
        price_on(s, day) is Some,
    decreases s.len(),
{
    if s.last().date.days != day {
        let i = choose|i: int| 0 <= i < s.len() && (#[trigger] s[i]).date.days == day;
        assert(s.drop_last()[i].date.days == day);
        lemma_has_price(s.drop_last(), day);
    }
}

// ── What a run does ──────────────────────────────────────────────────────────

/// Daily checkpoints follow day by day and weekly ones week by week, as far as the window reaches.
pub proof fn days_and_weeks_are_counted_from_the_start(
    start: Date,
    end: Date,
    daily: Vec<Date>,
    weekly: Vec<Date>,
    i: int,
    y: int,
    m: int,
    d: int,
)
    requires
        call_ensures(RebalanceFrequency::checkpoints, (&RebalanceFrequency::Daily, start, end), daily),
        call_ensures(
            RebalanceFrequency::checkpoints,
            (&RebalanceFrequency::Weekly, start, end),
            weekly,
        ),
        start.is_ymd(y, m, d),
        end.in_range(),
        start.in_range(),
        i >= 0,
    ensures
        i < daily@.len() ==> daily@[i].days == start.days + i + 1,
        i < daily@.len() <==> start.days + i + 1 <= end.days,
        i < weekly@.len() ==> weekly@[i].days == start.days + 7 * i + 7,
        i < weekly@.len() <==> start.days + 7 * i + 7 <= end.days,
{
    let args = (&RebalanceFrequency::Daily, start, end);
    assert(args.1.is_ymd(y, m, d));
    let other = (&RebalanceFrequency::Weekly, start, end);
    assert(other.1.is_ymd(y, m, d));
    assert(is_schedule(RebalanceFrequency::Daily, y, m, d, end, daily@));
    assert(is_schedule(RebalanceFrequency::Weekly, y, m, d, end, weekly@));
    let n = daily@.len() as int;
    let w = weekly@.len() as int;
    if i < n {
        assert(checkpoint(RebalanceFrequency::Daily, y, m, d, i + 1) == Some(daily@[i].days as int));
    } else {
        assert(checkpoint(RebalanceFrequency::Daily, y, m, d, n + 1) is Some ==> start.days + n + 1
            > end.days);
    }
    if i < w {
        assert(checkpoint(RebalanceFrequency::Weekly, y, m, d, i + 1) == Some(
            weekly@[i].days as int,
        ));
    } else {
        assert(checkpoint(RebalanceFrequency::Weekly, y, m, d, w + 1) is Some ==> start.days + 7
            * (w + 1) > end.days);
    }
}

/// Months are counted from the start and keep its day: a monthly checkpoint is that day of the
/// months that follow. Every third of them is a quarterly one and every twelfth an annual one.
pub proof fn months_keep_the_day_of_the_start(
    start: Date,
    end: Date,
    monthly: Vec<Date>,
    quarterly: Vec<Date>,
    annual: Vec<Date>,
    i: int,
    y: int,
    m: int,
    d: int,
)
    requires
        call_ensures(
            RebalanceFrequency::checkpoints,
            (&RebalanceFrequency::Monthly, start, end),
            monthly,
        ),
        call_ensures(
            RebalanceFrequency::checkpoints,
            (&RebalanceFrequency::Quarterly, start, end),
            quarterly,
        ),
        call_ensures(
            RebalanceFrequency::checkpoints,
            (&RebalanceFrequency::Annual, start, end),
            annual,
        ),
        start.is_ymd(y, m, d),
        start.in_range(),
        d <= 28,
        0 <= i,
    ensures
        i < monthly@.len() && m + i + 1 <= 12 ==> monthly@[i].days == calendar::day_number(
            y,
            m + i + 1,
            d,
        ),
        i < quarterly@.len() && 3 * i + 2 < monthly@.len() ==> quarterly@[i] == monthly@[3 * i + 2],
        i < annual@.len() && 12 * i + 11 < monthly@.len() ==> annual@[i] == monthly@[12 * i + 11],
{
    let a = (&RebalanceFrequency::Monthly, start, end);
    assert(a.1.is_ymd(y, m, d));
    let b = (&RebalanceFrequency::Quarterly, start, end);
    assert(b.1.is_ymd(y, m, d));
    let c = (&RebalanceFrequency::Annual, start, end);
    assert(c.1.is_ymd(y, m, d));
    assert(is_schedule(RebalanceFrequency::Monthly, y, m, d, end, monthly@));
    assert(is_schedule(RebalanceFrequency::Quarterly, y, m, d, end, quarterly@));
    assert(is_schedule(RebalanceFrequency::Annual, y, m, d, end, annual@));
    if i < monthly@.len() && m + i + 1 <= 12 {
        assert(checkpoint(RebalanceFrequency::Monthly, y, m, d, i + 1) == Some(
            monthly@[i].days as int,
        ));
        assert(calendar::month_after(y, m, 1 * (i + 1)) == (y, m + i + 1));
        assert(calendar::month_len(y, m + i + 1) >= 28);
    }
    if i < quarterly@.len() && 3 * i + 2 < monthly@.len() {
        assert(monthly@[3 * i + 2].days == checkpoint(
            RebalanceFrequency::Monthly,
            y,
            m,
            d,
            3 * i + 3,
        )->0);
        assert(quarterly@[i].days == checkpoint(RebalanceFrequency::Quarterly, y, m, d, i + 1)->0);
    }
    if i < annual@.len() && 12 * i + 11 < monthly@.len() {
        assert(monthly@[12 * i + 11].days == checkpoint(
            RebalanceFrequency::Monthly,
            y,
            m,
            d,
            12 * i + 12,
        )->0);
        assert(annual@[i].days == checkpoint(RebalanceFrequency::Annual, y, m, d, i + 1)->0);
    }
}

proof fn lemma_weekend(day: int)
    ensures
        weekend(day) <==> (day - 738_891) % 7 == 0 || (day - 738_892) % 7 == 0,
{
}

/// A run has no day that lies a whole number of weeks from Saturday 6 or Sunday 7 January 2024, and
/// has every other day of its window.
pub proof fn a_run_covers_the_weekdays(
    start: Date,
    end: Date,
    checkpoints: Vec<Date>,
    r: Vec<DayPlan>,
    i: int,
    day: int,
)
    requires
        call_ensures(run_plan, (start, end, &checkpoints), r),
        0 <= i < r@.len(),
    ensures
        (r@[i].date.days - 738_891) % 7 != 0,
        (r@[i].date.days - 738_892) % 7 != 0,
        start.days <= r@[i].date.days <= end.days,
        start.days <= day <= end.days && (day - 738_891) % 7 != 0 && (day - 738_892) % 7 != 0
            ==> exists|k: int| 0 <= k < r@.len() && (#[trigger] r@[k]).date.days == day,
{
    lemma_weekend(r@[i].date.days as int);
    lemma_weekend(day);
    assert(is_plan(r@, start.days as int, end.days as int, checkpoints@));
    assert(!weekend(r@[i].date.days as int));
}

/// A run rebalances on the first of its days on or after a checkpoint, and on no other.
pub proof fn a_run_rebalances_once_a_checkpoint_is_due(
    start: Date,
    end: Date,
    checkpoints: Vec<Date>,
    r: Vec<DayPlan>,
    i: int,
    c: int,
)
    requires
        call_ensures(run_plan, (start, end, &checkpoints), r),
        0 <= i < r@.len(),
        0 <= c < checkpoints@.len(),
        checkpoints@[c].days > start.days,
    ensures
        checkpoints@[c].days <= r@[i].date.days && (i == 0 || r@[i - 1].date.days
            < checkpoints@[c].days) ==> r@[i].rebalance,
        r@[i].rebalance ==> r@[i].date.days > start.days && exists|k: int|
            0 <= k < checkpoints@.len() && (#[trigger] checkpoints@[k]).days <= r@[i].date.days
                && (i == 0 || r@[i - 1].date.days < checkpoints@[k].days),
{
    assert(is_plan(r@, start.days as int, end.days as int, checkpoints@));
    let after = if i == 0 {
        start.days - 1
    } else {
        r@[i - 1].date.days as int
    };
    assert(r@[i].rebalance == (r@[i].date.days > start.days && fell_due(
        checkpoints@,
        after,
        r@[i].date.days as int,
    )));
    if r@[i].rebalance {
        let k = choose|k: int|
            0 <= k < checkpoints@.len() && after < (#[trigger] checkpoints@[k]).days
                <= r@[i].date.days;
        assert(checkpoints@[k].days <= r@[i].date.days);
    }
    if checkpoints@[c].days <= r@[i].date.days && (i == 0 || r@[i - 1].date.days
        < checkpoints@[c].days) {
        assert(after < checkpoints@[c].days <= r@[i].date.days);
    }
}

/// Shares are bought at the price that is known on the day, where that is above zero.
pub proof fn shares_are_bought_at_the_known_price(
    v: Vec<PricePoint>,
    date: Date,
    known: Option<Number>,
    r: Option<Number>,
)
    requires
        call_ensures(last_known_ticker_price, (&v, date), known),
        call_ensures(allocation_price, (&v, date), r),
    ensures
        known matches Some(p) ==> 0 < p.bits <= 0x7FF0_0000_0000_0000 ==> r == known,
        (known matches Some(p) && (p.bits == 0 || 0x8000_0000_0000_0000 <= p.bits
            <= 0xFFF0_0000_0000_0000)) ==> r is None,
        known is None ==> r is None,
{
    let day = date.days as int;
    let k = choose|k: Option<Number>| #[trigger]
        is_last_known(v@, day, k) && r == (match k {
            Some(p) => if p.le(Number { bits: 0 }) {
                None
            } else {
                Some(p)
            },
            None => None,
        });
    a_price_lasts_until_the_next(v@, day, day, k, known);
}

/// The price that is known on a day is one that was given on or before it, and none that was given
/// is later without lying after the day.
pub proof fn the_known_price_is_the_latest(v: Vec<PricePoint>, date: Date, r: Option<Number>, k: int)
    requires
        call_ensures(last_known_ticker_price, (&v, date), r),
        0 <= k < v@.len(),
        v@[k].date.days <= date.days,
        forall|j: int|
            0 <= j < v@.len() && j != k ==> (#[trigger] v@[j]).date.days < v@[k].date.days
                || v@[j].date.days > date.days,
    ensures
        r == Some(v@[k].price),
{
    if let Some(p) = r {
        let i = choose|i: int| #[trigger]
            is_latest_by(v@, date.days as int, i) && v@[i].price == p;
        assert(v@[k].date.days <= date.days);
        assert(i == k);
    } else {
        assert(v@[k].date.days > date.days);
    }
}

proof fn lemma_price_is_given(s: Seq<PricePoint>, day: int)
    ensures
        price_on(s, day) matches Some(p) ==> exists|i: int|
            0 <= i < s.len() && (#[trigger] s[i]).date.days == day && s[i].price == p,
    decreases s.len(),
{
    if s.len() > 0 {
        if s.last().date.days == day {
            assert(s[s.len() - 1].date.days == day);
        } else {
            let init = s.drop_last();
            lemma_price_is_given(init, day);
            if let Some(p) = price_on(s, day) {
                let i = choose|i: int|
                    0 <= i < init.len() && (#[trigger] init[i]).date.days == day && init[i].price
                        == p;
                assert(s[i] == init[i]);
            }
        }
    }
}

/// Buying and holding goes from the price of the earliest day to that of the latest, in whatever
/// order they are given.
pub proof fn buying_and_holding_spans_the_days(
    v: Vec<PricePoint>,
    r: Option<(Number, Number)>,
)
    requires
        call_ensures(buy_and_hold_prices, (&v,), r),
    ensures
        r matches Some((first, last)) ==> (exists|i: int|
            0 <= i < v@.len() && (#[trigger] v@[i]).price == first && forall|j: int|
                0 <= j < v@.len() ==> v@[i].date.days <= (#[trigger] v@[j]).date.days) && (exists|
            i: int,
        |
            0 <= i < v@.len() && (#[trigger] v@[i]).price == last && forall|j: int|
                0 <= j < v@.len() ==> (#[trigger] v@[j]).date.days <= v@[i].date.days),
{
    if let Some((first, last)) = r {
        let (a, b) = choose|a: Date, b: Date|
            #![trigger is_first_day(v@, a), is_last_day(v@, b)]
            is_first_day(v@, a) && is_last_day(v@, b) && price_on(v@, a.days as int) == Some(first)
                && price_on(v@, b.days as int) == Some(last);
        lemma_price_is_given(v@, a.days as int);
        lemma_price_is_given(v@, b.days as int);
        let i = choose|i: int|
            0 <= i < v@.len() && (#[trigger] v@[i]).date.days == a.days && v@[i].price == first;
        let j = choose|j: int|
            0 <= j < v@.len() && (#[trigger] v@[j]).date.days == b.days && v@[j].price == last;
        assert(v@[i].price == first && v@[j].price == last);
    }
}

} // verus!
