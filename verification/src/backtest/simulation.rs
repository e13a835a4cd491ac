//! The course of a backtest: what happens on each trading day, and in what
//! order.
//!
//! A day runs in three steps. Orders decided at the previous close are filled.
//! On a rebalance day the universe is ranked, and the picks become orders.
//! The book is marked at the close and the drawdown breaker looks at the
//! benchmark. The caller fills, ranks and computes amounts; this module says
//! what to do next.

use vstd::prelude::*;
use vstd::string::*;

use crate::backtest::schedule;
use crate::backtest::schedule::ExecutionTiming;
use crate::calendar;
use crate::calendar::Date;
use crate::data::prices;
use crate::data::prices::{PriceSeries, PriceStore};
use crate::data::source::PriceBar;
use crate::number::Number;
use crate::signals::SignalScore;
use crate::text;

verus! {

/// Days after which a price counts as stale when returns are compared.
pub const STALE_DAYS: i32 = 7;

/// Names needed for a rank correlation over a period.
pub const MIN_IC_NAMES: usize = 5;

/// Why a backtest cannot start.
#[derive(Clone, Copy, Debug, PartialEq, Eq, Structural)]
pub enum SimulationError {
    /// The end date is not after the start date.
    EndNotAfterStart,
    /// The initial capital is not positive.
    CapitalNotPositive,
    /// No price lies in the range.
    NoPrices,
}

/// Orders that wait for the next open.
#[derive(Debug)]
pub struct PendingOrders {
    /// The day on whose close they were decided.
    pub decided_on: Date,
    /// The names to hold.
    pub targets: Vec<String>,
}

/// The state of a backtest between two steps.
#[derive(Debug)]
pub struct Simulation {
    /// The trading days.
    pub calendar: Vec<Date>,
    /// The days on which to rebalance.
    pub rebalances: Vec<Date>,
    pub timing: ExecutionTiming,
    /// Whether a drawdown breaker watches the benchmark.
    pub has_breaker: bool,
    /// Index of the current day.
    pub day: usize,
    /// Whether the orders of the day have been taken.
    pub opened: bool,
    pub pending: Option<PendingOrders>,
    /// Whether the breaker holds the portfolio in cash.
    pub tripped: bool,
    pub trip_days: usize,
    pub cash_days: usize,
    pub n_rebalances: usize,
    /// The last day on which a ranking succeeded.
    pub last_ranked: Option<Date>,
    pub notes: Vec<String>,
}

/// The note left where a ranking fails.
pub open spec fn failure_note(day: int, reason: Seq<char>) -> Seq<char> {
    "ranking failed on "@ + calendar::day_text(day) + ": "@ + reason + " (positions held)"@
}

/// The note left where a breaker has no benchmark to watch.
pub open spec fn blind_breaker_note() -> Seq<char> {
    "drawdown_breaker configured but no benchmark prices are available - the breaker will never trip"@
}

impl Simulation {
    /// Days run forward, and counters count days that have closed. Rankings happen on rebalance
    /// days alone, at most once on each. Waiting orders come from the last ranking, which was on an
    /// earlier day than the one that is about to open.
    pub open spec fn well_formed(&self) -> bool {
        &&& prices::days_increase(self.calendar@)
        &&& self.calendar@.len() > 0
        &&& forall|i: int| 0 <= i < self.calendar@.len() ==> (#[trigger] self.calendar@[i]).in_range()
        &&& self.day <= self.calendar@.len()
        &&& self.opened ==> self.day < self.calendar@.len()
        &&& self.trip_days <= self.day
        &&& self.cash_days <= self.day
        &&& (self.last_ranked matches Some(d) ==> self.rebalances@.contains(d))
        &&& (self.last_ranked matches Some(d) ==> self.day < self.calendar@.len() ==> d.days
            < self.current().days || self.opened && d == self.current())
        &&& self.n_rebalances <= self.day + if self.ranked_today() {
            1int
        } else {
            0int
        }
        &&& (self.pending matches Some(p) ==> self.last_ranked == Some(p.decided_on) && (self.opened
            ==> p.decided_on == self.current()))
    }

    /// Whether the universe has been ranked on the running day.
    pub open spec fn ranked_today(&self) -> bool {
        self.opened && self.last_ranked == Some(self.current())
    }

    /// Whether the universe is still to be ranked on the running day.
    pub open spec fn to_rank(&self) -> bool {
        self.opened && self.rebalances@.contains(self.current()) && !self.ranked_today()
    }

    /// The day that is about to run or running.
    pub open spec fn current(&self) -> Date {
        self.calendar@[self.day as int]
    }

    /// What never changes in the course of a run.
    pub open spec fn same_run(&self, other: &Simulation) -> bool {
        &&& self.calendar@ == other.calendar@
        &&& self.rebalances@ == other.rebalances@
        &&& self.timing == other.timing
        &&& self.has_breaker == other.has_breaker
    }

    /// A run over the trading days `calendar`, which rebalances every `every_days` calendar days.
    pub fn new(
        start: Date,
        end: Date,
        capital: Number,
        every_days: u32,
        timing: ExecutionTiming,
        has_breaker: bool,
        calendar: Vec<Date>,
    ) -> (r: Result<Simulation, SimulationError>)
        requires
            prices::days_increase(calendar@),
            forall|i: int| 0 <= i < calendar@.len() ==> (#[trigger] calendar@[i]).in_range(),
        ensures
            match r {
                Err(SimulationError::EndNotAfterStart) => end.days <= start.days,
                Err(SimulationError::CapitalNotPositive) => end.days > start.days && !(Number {
                    bits: 0,
                }).lt(capital),
                Err(SimulationError::NoPrices) => end.days > start.days && (Number { bits: 0 }).lt(
                    capital,
                ) && calendar@.len() == 0,
                Ok(s) => {
                    &&& end.days > start.days
                    &&& (Number { bits: 0 }).lt(capital)
                    &&& s.well_formed()
                    &&& s.calendar@ == calendar@
                    &&& prices::days_increase(s.rebalances@)
                    &&& forall|d: Date|
                        s.rebalances@.contains(d) <==> schedule::due_on(
                            calendar@,
                            start,
                            every_days,
                            d,
                        )
                    &&& s.timing == timing
                    &&& s.has_breaker == has_breaker
                    &&& s.day == 0
                    &&& !s.opened
                    &&& s.pending is None
                    &&& !s.tripped
                    &&& s.trip_days == 0
                    &&& s.cash_days == 0
                    &&& s.n_rebalances == 0
                    &&& s.last_ranked is None
                    &&& s.notes@.len() == 0
                },
            },
    {
        if end.days <= start.days {
            return Err(SimulationError::EndNotAfterStart);
        }
        if !Number::zero().is_lt(capital) {
            return Err(SimulationError::CapitalNotPositive);
        }
        if calendar.len() == 0 {
            return Err(SimulationError::NoPrices);
        }
        let rebalances: Vec<Date> = schedule::rebalance_days(&calendar, start, every_days);
        Ok(
            Simulation {
                calendar,
                rebalances,
                timing,
                has_breaker,
                day: 0,
                opened: false,
                pending: None,
                tripped: false,
                trip_days: 0,
                cash_days: 0,
                n_rebalances: 0,
                last_ranked: None,
                notes: Vec::new(),
            },
        )
    }

    /// The current day, or nothing once every day has closed.
    pub fn today(&self) -> (r: Option<Date>)
        ensures
            r == (if self.day < self.calendar@.len() {
                Some(self.current())
            } else {
                None
            }),
    {
        if self.day < self.calendar.len() {
            Some(self.calendar[self.day])
        } else {
            None
        }
    }

    /// Opens the day: hands out the orders decided at an earlier close, which wait no longer.
    pub fn open_day(&mut self) -> (r: Option<Vec<String>>)
        requires
            old(self).well_formed(),
            !old(self).opened,
            old(self).day < old(self).calendar@.len(),
        ensures
            final(self).well_formed(),
            final(self).opened,
            !final(self).ranked_today(),
            final(self).pending is None,
            match r {
                Some(targets) => old(self).pending matches Some(p) && p.targets@ == targets@
                    && p.decided_on.days < old(self).current().days,
                None => old(self).pending is None,
            },
            final(self).same_run(old(self)),
            final(self).day == old(self).day,
            final(self).tripped == old(self).tripped,
            final(self).trip_days == old(self).trip_days,
            final(self).cash_days == old(self).cash_days,
            final(self).n_rebalances == old(self).n_rebalances,
            final(self).last_ranked == old(self).last_ranked,
            final(self).notes@ == old(self).notes@,
    {
        self.opened = true;
        match self.pending.take() {
            Some(p) => Some(p.targets),
            None => None,
        }
    }

    /// Whether the universe is to be ranked today.
    pub fn is_rebalance_day(&self) -> (r: bool)
        requires
            self.well_formed(),
            self.day < self.calendar@.len(),
        ensures
            r == self.rebalances@.contains(self.current()),
    {
        let today: Date = self.calendar[self.day];
        let mut i: usize = 0;
        while i < self.rebalances.len()
            invariant
                i <= self.rebalances.len(),
                today == self.current(),
                forall|j: int| 0 <= j < i ==> (#[trigger] self.rebalances[j]) != today,
            decreases self.rebalances.len() - i,
        {
            if self.rebalances[i].days == today.days {
                proof {
                    assert(self.rebalances@[i as int] == today);
                }
                return true;
            }
            i = i + 1;
        }
        false
    }

    /// Takes the picks of today's ranking, on a rebalance day and once on it. A tripped breaker overrides them with cash. Orders for
    /// the next open wait; orders for today's close are handed back to be filled now.
    pub fn ranked(&mut self, picks: &Vec<String>) -> (r: Option<Vec<String>>)
        requires
            old(self).well_formed(),
            old(self).to_rank(),
        ensures
            final(self).well_formed(),
            final(self).ranked_today(),
            ({
                let targets = if old(self).tripped {
                    seq![]
                } else {
                    text::texts(picks@)
                };
                match old(self).timing {
                    ExecutionTiming::NextOpen => r is None && (final(self).pending matches Some(p)
                        && text::texts(p.targets@) == targets && p.decided_on
                        == old(self).current()),
                    ExecutionTiming::SameClose => final(self).pending is None && (r matches Some(t)
                        && text::texts(t@) == targets),
                }
            }),
            final(self).n_rebalances == old(self).n_rebalances + 1,
            final(self).last_ranked == Some(old(self).current()),
            final(self).same_run(old(self)),
            final(self).day == old(self).day,
            final(self).tripped == old(self).tripped,
            final(self).trip_days == old(self).trip_days,
            final(self).cash_days == old(self).cash_days,
            final(self).notes@ == old(self).notes@,
    {
        let today: Date = self.calendar[self.day];
        let targets: Vec<String> = if self.tripped {
            Vec::new()
        } else {
            text::clone_texts(picks)
        };
        proof {
            if self.tripped {
                assert(text::texts(targets@) =~= seq![]);
            }
        }
        let n_days: usize = self.calendar.len();
        assert(self.day < n_days);
        self.n_rebalances = self.n_rebalances + 1;
        self.last_ranked = Some(today);
        match self.timing {
            ExecutionTiming::NextOpen => {
                self.pending = Some(PendingOrders { decided_on: today, targets });
                None
            },
            ExecutionTiming::SameClose => Some(targets),
        }
    }

    /// Notes that today's ranking failed. Nothing else changes: positions are held.
    pub fn ranking_failed(&mut self, reason: &str)
        requires
            old(self).well_formed(),
            old(self).to_rank(),
        ensures
            final(self).well_formed(),
            text::texts(final(self).notes@) == text::texts(old(self).notes@).push(
                failure_note(old(self).current().days as int, reason@),
            ),
            final(self).same_run(old(self)),
            final(self).day == old(self).day,
            final(self).opened == old(self).opened,
            final(self).pending == old(self).pending,
            final(self).tripped == old(self).tripped,
            final(self).trip_days == old(self).trip_days,
            final(self).cash_days == old(self).cash_days,
            final(self).n_rebalances == old(self).n_rebalances,
            final(self).last_ranked == old(self).last_ranked,
    {
        let today: Date = self.calendar[self.day];
        let mut note: String = "ranking failed on ".to_owned();
        note.append(today.text().as_str());
        note.append(": ");
        note.append(reason);
        note.append(" (positions held)");
        let ghost before = text::texts(self.notes@);
        self.notes.push(note);
        proof {
            assert(text::texts(self.notes@) =~= before.push(note@));
        }
    }

    /// Closes the day. `flat` says whether the book ended it in cash. `breaker` is the breaker's
    /// reading of the benchmark today, where there is a benchmark price.
    pub fn close_day(&mut self, flat: bool, breaker: Option<bool>)
        requires
            old(self).well_formed(),
            old(self).opened,
        ensures
            final(self).well_formed(),
            !final(self).opened,
            final(self).day == old(self).day + 1,
            final(self).cash_days == old(self).cash_days + if flat {
                1int
            } else {
                0int
            },
            final(self).tripped == (if old(self).has_breaker && breaker is Some {
                breaker->0
            } else {
                old(self).tripped
            }),
            final(self).trip_days == old(self).trip_days + if old(self).has_breaker && breaker
                == Some(true) {
                1int
            } else {
                0int
            },
            text::texts(final(self).notes@) == (if old(self).has_breaker && breaker is None
                && old(self).trip_days == 0 && old(self).day == 0 {
                text::texts(old(self).notes@).push(blind_breaker_note())
            } else {
                text::texts(old(self).notes@)
            }),
            final(self).pending == old(self).pending,
            final(self).same_run(old(self)),
            final(self).n_rebalances == old(self).n_rebalances,
            final(self).last_ranked == old(self).last_ranked,
    {
        let n_days: usize = self.calendar.len();
        assert(self.day < n_days);
        if flat {
            self.cash_days = self.cash_days + 1;
        }
        if self.has_breaker {
            match breaker {
                Some(tripped) => {
                    self.tripped = tripped;
                    if tripped {
                        self.trip_days = self.trip_days + 1;
                    }
                },
                None => {
                    if self.trip_days == 0 && self.day == 0 {
                        let ghost before = text::texts(self.notes@);
                        let note: String =
                            "drawdown_breaker configured but no benchmark prices are available - the breaker will never trip".to_owned();
                        self.notes.push(note);
                        proof {
                            assert(text::texts(self.notes@) =~= before.push(note@));
                        }
                    }
                },
            }
        }
        proof {
            if self.day + 1 < self.calendar@.len() {
                assert(self.calendar@[self.day as int].days < self.calendar@[self.day + 1].days);
            }
        }
        self.opened = false;
        self.day = self.day + 1;
    }

    /// The period that is still to be scored once every day has closed: from the last ranking to
    /// the last day, where that is later.
    pub fn open_period(&self) -> (r: Option<(Date, Date)>)
        requires
            self.well_formed(),
        ensures
            match r {
                Some((from, to)) => self.last_ranked == Some(from) && to == self.calendar@.last()
                    && from.days < to.days,
                None => match self.last_ranked {
                    Some(d) => d.days >= self.calendar@.last().days,
                    None => true,
                },
            },
    {
        let last: Date = self.calendar[self.calendar.len() - 1];
        match self.last_ranked {
            Some(d) => {
                if d.days < last.days {
                    Some((d, last))
                } else {
                    None
                }
            },
            None => None,
        }
    }
}

// ── Returns over a period ────────────────────────────────────────────────────

/// A scored name with its closes at both ends of a period.
#[derive(Clone, Copy, Debug, PartialEq, Eq, Structural)]
pub struct PeriodPair {
    /// Position of the name in the ranking.
    pub index: usize,
    pub composite: Number,
    pub from_close: Number,
    pub to_close: Number,
}

/// A name's bars at the ends of a period, where it has both and neither is stale.
pub open spec fn period_bars(
    store: Map<Seq<char>, Seq<PriceBar>>,
    t: Seq<char>,
    from: Date,
    to: Date,
) -> Option<(PriceBar, PriceBar)> {
    if !store.contains_key(t) {
        None
    } else {
        match (
            prices::bar_through(store[t], from.days as int),
            prices::bar_through(store[t], to.days as int),
        ) {
            (Some(a), Some(b)) => if a.date.days < from.days - STALE_DAYS || b.date.days < to.days
                - STALE_DAYS {
                None
            } else {
                Some((a, b))
            },
            _ => None,
        }
    }
}

/// The pairs of the first `n` names, in ranking order.
pub open spec fn pairs_of(
    scores: Seq<SignalScore>,
    store: Map<Seq<char>, Seq<PriceBar>>,
    from: Date,
    to: Date,
    n: int,
) -> Seq<PeriodPair>
    decreases n,
{
    if n <= 0 {
        seq![]
    } else {
        let rest = pairs_of(scores, store, from, to, n - 1);
        match period_bars(store, scores[n - 1].ticker@, from, to) {
            Some((a, b)) => rest.push(
                PeriodPair {
                    index: (n - 1) as usize,
                    composite: scores[n - 1].composite,
                    from_close: a.adj_close,
                    to_close: b.adj_close,
                },
            ),
            None => rest,
        }
    }
}

/// The names whose scores at `from` are compared with their returns to `to`: those with prices at
/// both ends, none more than a week stale. Nothing with fewer than five such names.
pub fn period_ic(
    scores: &Vec<SignalScore>,
    from: Date,
    to: Date,
    store: &PriceStore,
) -> (r: Option<Vec<PeriodPair>>)
    ensures
        ({
            let all = pairs_of(scores@, store@, from, to, scores.len() as int);
            match r {
                Some(v) => v@ == all && all.len() >= MIN_IC_NAMES,
                None => all.len() < MIN_IC_NAMES,
            }
        }),
{
    let mut out: Vec<PeriodPair> = Vec::new();
    let mut i: usize = 0;
    while i < scores.len()
        invariant
            i <= scores.len(),
            out@ == pairs_of(scores@, store@, from, to, i as int),
        decreases scores.len() - i,
    {
        match store.get(scores[i].ticker.as_str()) {
            Some(series) => {
                match series.on_or_before(from) {
                    Some(a) => {
                        match series.on_or_before(to) {
                            Some(b) => {
                                let stale_from: bool = (a.date.days as i64) < from.days as i64
                                    - STALE_DAYS as i64;
                                let stale_to: bool = (b.date.days as i64) < to.days as i64
                                    - STALE_DAYS as i64;
                                if !stale_from && !stale_to {
                                    out.push(
                                        PeriodPair {
                                            index: i,
                                            composite: scores[i].composite,
                                            from_close: a.adj_close,
                                            to_close: b.adj_close,
                                        },
                                    );
                                }
                            },
                            None => {},
                        }
                    },
                    None => {},
                }
            },
            None => {},
        }
        i = i + 1;
    }
    if out.len() < MIN_IC_NAMES {
        None
    } else {
        Some(out)
    }
}

/// The close of the latest bar on or before a day.
pub open spec fn level_at(s: Seq<PriceBar>, day: int) -> Option<Number> {
    match prices::bar_through(s, day) {
        Some(b) => Some(b.adj_close),
        None => None,
    }
}

/// The benchmark's close on each trading day, carried forward over its holidays; nothing where it
/// does not reach back to the first day.
pub fn benchmark_levels(calendar: &Vec<Date>, benchmark: &PriceSeries) -> (r: Option<Vec<Number>>)
    ensures
        match r {
            Some(v) => v@.len() == calendar@.len() && forall|i: int|
                0 <= i < v@.len() ==> level_at(benchmark@, calendar@[i].days as int) == Some(
                    #[trigger] v@[i],
                ),
            None => exists|i: int|
                0 <= i < calendar@.len() && level_at(
                    benchmark@,
                    (#[trigger] calendar@[i]).days as int,
                ) is None,
        },
{
    let mut out: Vec<Number> = Vec::new();
    let mut i: usize = 0;
    while i < calendar.len()
        invariant
            i <= calendar.len(),
            out@.len() == i,
            forall|k: int|
                0 <= k < i ==> level_at(benchmark@, calendar@[k].days as int) == Some(
                    #[trigger] out@[k],
                ),
        decreases calendar.len() - i,
    {
        match benchmark.on_or_before(calendar[i]) {
            Some(b) => {
                out.push(b.adj_close);
            },
            None => {
                proof {
                    assert(level_at(benchmark@, calendar@[i as int].days as int) is None);
                }
                return None;
            },
        }
        i = i + 1;
    }
    Some(out)
}

// ── Returns on the adjusted scale ────────────────────────────────────────────

/// A name's return over a period runs from the adjusted close of its latest bar on or before the
/// first day to that of its latest bar on or before the last day: both ends are on one scale,
/// whatever the unadjusted prices are, and neither bar is more than a week older than its day.
pub proof fn period_returns_are_on_the_adjusted_scale(
    scores: Vec<SignalScore>,
    from: Date,
    to: Date,
    store: PriceStore,
    v: Vec<PeriodPair>,
    k: int,
)
    requires
        call_ensures(period_ic, (&scores, from, to, &store), Some(v)),
        forall|t: Seq<char>| #[trigger]
            store@.contains_key(t) ==> prices::dates_increase(store@[t]),
        0 <= k < v@.len(),
        scores@.len() <= usize::MAX,
    ensures
        v@.len() >= 5,
        v@[k].index < scores@.len(),
        v@[k].composite == scores@[v@[k].index as int].composite,
        store@.contains_key(scores@[v@[k].index as int].ticker@),
        ({
            let s = store@[scores@[v@[k].index as int].ticker@];
            &&& is_close_at(s, from, v@[k].from_close)
            &&& is_close_at(s, to, v@[k].to_close)
        }),
{
    lemma_pairs(scores@, store@, from, to, scores@.len() as int);
}

/// Whether a price is the adjusted close of the latest bar on or before a day, not more than a week
/// older than it.
pub open spec fn is_close_at(s: Seq<PriceBar>, day: Date, price: Number) -> bool {
    exists|i: int|
        0 <= i < s.len() && (#[trigger] s[i]).adj_close == price && day.days - 7 <= s[i].date.days
            <= day.days && forall|j: int|
            i < j < s.len() ==> (#[trigger] s[j]).date.days > day.days
}

proof fn lemma_close_at(s: Seq<PriceBar>, day: Date)
    requires
        prices::dates_increase(s),
    ensures
        prices::bar_through(s, day.days as int) matches Some(b) ==> b.date.days >= day.days
            - STALE_DAYS ==> is_close_at(s, day, b.adj_close),
{
    prices::lemma_through(s, day.days as int);
    let i = prices::through(s, day.days as int) - 1;
    if i >= 0 {
        assert(s[i].date.days <= day.days);
    }
}

proof fn lemma_pairs(
    scores: Seq<SignalScore>,
    store: Map<Seq<char>, Seq<PriceBar>>,
    from: Date,
    to: Date,
    n: int,
)
    requires
        0 <= n <= scores.len() <= usize::MAX,
        forall|t: Seq<char>| #[trigger]
            store.contains_key(t) ==> prices::dates_increase(store[t]),
    ensures
        forall|k: int|
            0 <= k < pairs_of(scores, store, from, to, n).len() ==> ({
                let p = #[trigger] pairs_of(scores, store, from, to, n)[k];
                &&& p.index < n
                &&& p.composite == scores[p.index as int].composite
                &&& store.contains_key(scores[p.index as int].ticker@)
                &&& is_close_at(store[scores[p.index as int].ticker@], from, p.from_close)
                &&& is_close_at(store[scores[p.index as int].ticker@], to, p.to_close)
            }),
    decreases n,
{
    if n > 0 {
        lemma_pairs(scores, store, from, to, n - 1);
        let all = pairs_of(scores, store, from, to, n);
        let rest = pairs_of(scores, store, from, to, n - 1);
        let t = scores[n - 1].ticker@;
        if store.contains_key(t) {
            lemma_close_at(store[t], from);
            lemma_close_at(store[t], to);
        }
        assert forall|k: int| 0 <= k < all.len() implies ({
            let p = #[trigger] all[k];
            &&& p.index < n
            &&& p.composite == scores[p.index as int].composite
            &&& store.contains_key(scores[p.index as int].ticker@)
            &&& is_close_at(store[scores[p.index as int].ticker@], from, p.from_close)
            &&& is_close_at(store[scores[p.index as int].ticker@], to, p.to_close)
        }) by {
            if k < rest.len() {
                assert(all[k] == rest[k]);
            }
        }
    }
}

/// Unadjusted prices have no part in the returns that scores are held against.
pub proof fn period_returns_ignore_unadjusted_prices(
    scores: Vec<SignalScore>,
    from: Date,
    to: Date,
    a: PriceStore,
    b: PriceStore,
    ra: Option<Vec<PeriodPair>>,
    rb: Option<Vec<PeriodPair>>,
)
    requires
        call_ensures(period_ic, (&scores, from, to, &a), ra),
        call_ensures(period_ic, (&scores, from, to, &b), rb),
        prices::stores_alike(a@, b@),
    ensures
        ra is Some <==> rb is Some,
        ra matches Some(x) ==> rb matches Some(y) ==> x@ == y@,
{
    lemma_same_pairs(scores@, a@, b@, from, to, scores@.len() as int);
}

proof fn lemma_same_pairs(
    scores: Seq<SignalScore>,
    a: Map<Seq<char>, Seq<PriceBar>>,
    b: Map<Seq<char>, Seq<PriceBar>>,
    from: Date,
    to: Date,
    n: int,
)
    requires
        prices::stores_alike(a, b),
        0 <= n <= scores.len(),
    ensures
        pairs_of(scores, a, from, to, n) == pairs_of(scores, b, from, to, n),
    decreases n,
{
    if n > 0 {
        lemma_same_pairs(scores, a, b, from, to, n - 1);
        let t = scores[n - 1].ticker@;
        assert(a.contains_key(t) <==> b.contains_key(t));
        if a.contains_key(t) {
            prices::lemma_through_alike(a[t], b[t], from.days as int);
            prices::lemma_through_alike(a[t], b[t], to.days as int);
            let i = prices::through(a[t], from.days as int);
            let j = prices::through(a[t], to.days as int);
            if i > 0 {
                assert(a[t][i - 1].date == b[t][i - 1].date);
            }
            if j > 0 {
                assert(a[t][j - 1].date == b[t][j - 1].date);
            }
        }
    }
}

/// Every scored name with a fresh bar at both ends of the period is compared, once.
pub proof fn no_priced_name_is_left_out(
    scores: Vec<SignalScore>,
    from: Date,
    to: Date,
    store: PriceStore,
    r: Option<Vec<PeriodPair>>,
)
    requires
        call_ensures(period_ic, (&scores, from, to, &store), r),
        scores@.len() >= 5,
        forall|i: int|
            0 <= i < scores@.len() ==> store@.contains_key((#[trigger] scores@[i]).ticker@)
                && prices::dates_increase(store@[scores@[i].ticker@]) && has_fresh_bar(
                store@[scores@[i].ticker@],
                from,
            ) && has_fresh_bar(store@[scores@[i].ticker@], to),
    ensures
        r matches Some(v) && v@.len() == scores@.len() && forall|k: int|
            0 <= k < v@.len() ==> (#[trigger] v@[k]).index == k,
{
    lemma_all_pairs(scores@, store@, from, to, scores@.len() as int);
}

/// Whether a series has a bar of a day or of the week before it.
pub open spec fn has_fresh_bar(s: Seq<PriceBar>, day: Date) -> bool {
    exists|i: int| 0 <= i < s.len() && day.days - 7 <= (#[trigger] s[i]).date.days <= day.days
}

proof fn lemma_all_pairs(
    scores: Seq<SignalScore>,
    store: Map<Seq<char>, Seq<PriceBar>>,
    from: Date,
    to: Date,
    n: int,
)
    requires
        0 <= n <= scores.len() <= usize::MAX,
        forall|i: int|
            0 <= i < scores.len() ==> store.contains_key((#[trigger] scores[i]).ticker@)
                && prices::dates_increase(store[scores[i].ticker@]) && has_fresh_bar(
                store[scores[i].ticker@],
                from,
            ) && has_fresh_bar(store[scores[i].ticker@], to),
    ensures
        pairs_of(scores, store, from, to, n).len() == n,
        forall|k: int|
            0 <= k < n ==> (#[trigger] pairs_of(scores, store, from, to, n)[k]).index == k,
    decreases n,
{
    if n > 0 {
        lemma_all_pairs(scores, store, from, to, n - 1);
        let s = store[scores[n - 1].ticker@];
        lemma_fresh(s, from);
        lemma_fresh(s, to);
        let all = pairs_of(scores, store, from, to, n);
        let rest = pairs_of(scores, store, from, to, n - 1);
        assert(all.drop_last() =~= rest);
        assert forall|k: int| 0 <= k < n implies (#[trigger] all[k]).index == k by {
            if k < n - 1 {
                assert(all[k] == rest[k]);
            }
        }
    }
}

proof fn lemma_fresh(s: Seq<PriceBar>, day: Date)
    requires
        prices::dates_increase(s),
        has_fresh_bar(s, day),
    ensures
        prices::bar_through(s, day.days as int) matches Some(b) && b.date.days >= day.days
            - STALE_DAYS,
{
    prices::lemma_through(s, day.days as int);
    let i = choose|i: int|
        0 <= i < s.len() && day.days - 7 <= (#[trigger] s[i]).date.days <= day.days;
    let k = prices::through(s, day.days as int);
    assert(i < k);
    if i < k - 1 {
        assert(s[i].date.days < s[k - 1].date.days);
    }
}

/// The level of the benchmark on a trading day is the adjusted close of its latest bar by then.
pub proof fn benchmark_levels_are_adjusted_closes(
    calendar: Vec<Date>,
    benchmark: PriceSeries,
    v: Vec<Number>,
    i: int,
    k: int,
)
    requires
        call_ensures(benchmark_levels, (&calendar, &benchmark), Some(v)),
        prices::dates_increase(benchmark@),
        0 <= i < calendar@.len(),
        0 <= k < benchmark@.len(),
        benchmark@[k].date.days <= calendar@[i].days,
        k + 1 < benchmark@.len() ==> benchmark@[k + 1].date.days > calendar@[i].days,
    ensures
        v@.len() == calendar@.len(),
        v@[i] == benchmark@[k].adj_close,
{
    prices::lemma_split(benchmark@, calendar@[i].days as int, k + 1);
    assert(level_at(benchmark@, calendar@[i].days as int) == Some(v@[i]));
}

// ── Days in a row ────────────────────────────────────────────────────────────

/// Where orders fill at the next open, the picks of a day wait through its close and are handed out
/// when a later day opens: all of them, in their order, or none where the breaker had tripped by
/// the close before. Nothing is handed out on the day itself.
pub proof fn picks_are_handed_out_at_the_next_open(
    ranking: &mut Simulation,
    closing: &mut Simulation,
    opening: &mut Simulation,
    picks: Vec<String>,
    now: Option<Vec<String>>,
    flat: bool,
    breaker: Option<bool>,
    later: Option<Vec<String>>,
)
    requires
        old(ranking).well_formed(),
        old(ranking).to_rank(),
        old(ranking).timing == ExecutionTiming::NextOpen,
        call_ensures(Simulation::ranked, (ranking, &picks), now),
        *old(closing) == *final(ranking),
        call_ensures(Simulation::close_day, (closing, flat, breaker), ()),
        *old(opening) == *final(closing),
        old(opening).day < old(opening).calendar@.len(),
        call_ensures(Simulation::open_day, (opening,), later),
    ensures
        now is None,
        later matches Some(t) && (if old(ranking).tripped {
            t@.len() == 0
        } else {
            t@.len() == picks@.len() && forall|i: int|
                0 <= i < picks@.len() ==> (#[trigger] t@[i])@ == picks@[i]@
        }),
        old(opening).day == old(ranking).day + 1,
        old(ranking).calendar@[old(ranking).day as int].days < old(opening).calendar@[old(opening).day as int].days,
{
    let t = later->0;
    assert(text::texts(t@).len() == t@.len());
    assert(text::texts(picks@).len() == picks@.len());
    if !old(ranking).tripped {
        assert forall|i: int| 0 <= i < picks@.len() implies (#[trigger] t@[i])@ == picks@[i]@ by {
            assert(text::texts(t@)[i] == text::texts(picks@)[i]);
        }
    }
}

/// Where orders fill at the same close, the picks of a day are handed out on that day, or none
/// where the breaker had tripped by the close before, and none are left for the next open.
pub proof fn picks_are_handed_out_at_the_same_close(
    ranking: &mut Simulation,
    closing: &mut Simulation,
    opening: &mut Simulation,
    picks: Vec<String>,
    now: Option<Vec<String>>,
    flat: bool,
    breaker: Option<bool>,
    later: Option<Vec<String>>,
)
    requires
        old(ranking).well_formed(),
        old(ranking).to_rank(),
        old(ranking).timing == ExecutionTiming::SameClose,
        call_ensures(Simulation::ranked, (ranking, &picks), now),
        *old(closing) == *final(ranking),
        call_ensures(Simulation::close_day, (closing, flat, breaker), ()),
        *old(opening) == *final(closing),
        old(opening).day < old(opening).calendar@.len(),
        call_ensures(Simulation::open_day, (opening,), later),
    ensures
        now matches Some(t) && (if old(ranking).tripped {
            t@.len() == 0
        } else {
            t@.len() == picks@.len() && forall|i: int|
                0 <= i < picks@.len() ==> (#[trigger] t@[i])@ == picks@[i]@
        }),
        later is None,
{
    let t = now->0;
    assert(text::texts(t@).len() == t@.len());
    assert(text::texts(picks@).len() == picks@.len());
    if !old(ranking).tripped {
        assert forall|i: int| 0 <= i < picks@.len() implies (#[trigger] t@[i])@ == picks@[i]@ by {
            assert(text::texts(t@)[i] == text::texts(picks@)[i]);
        }
    }
}

/// After a failed ranking nothing is handed out at the next open, so positions are held; no ranking
/// is counted, and the period that was running runs on.
pub proof fn a_failed_ranking_holds_positions(
    first: &mut Simulation,
    failing: &mut Simulation,
    closing: &mut Simulation,
    opening: &mut Simulation,
    orders: Option<Vec<String>>,
    reason: &str,
    flat: bool,
    breaker: Option<bool>,
    later: Option<Vec<String>>,
)
    requires
        old(first).well_formed(),
        !old(first).opened,
        old(first).day < old(first).calendar@.len(),
        call_ensures(Simulation::open_day, (first,), orders),
        *old(failing) == *final(first),
        old(failing).to_rank(),
        call_ensures(Simulation::ranking_failed, (failing, reason), ()),
        *old(closing) == *final(failing),
        call_ensures(Simulation::close_day, (closing, flat, breaker), ()),
        *old(opening) == *final(closing),
        old(opening).day < old(opening).calendar@.len(),
        call_ensures(Simulation::open_day, (opening,), later),
    ensures
        later is None,
        final(opening).n_rebalances == old(first).n_rebalances,
        final(opening).last_ranked == old(first).last_ranked,
        final(failing).notes@.len() == old(failing).notes@.len() + 1,
        "ranking failed on "@.is_prefix_of(final(failing).notes@.last()@),
        " (positions held)"@.is_suffix_of(final(failing).notes@.last()@),
{
    let before = text::texts(old(failing).notes@);
    let after = text::texts(final(failing).notes@);
    assert(after.len() == final(failing).notes@.len());
    assert(before.len() == old(failing).notes@.len());
    let note = final(failing).notes@.last()@;
    assert(after.last() == note);
    let day = old(failing).current().days as int;
    let head = "ranking failed on "@;
    let tail = " (positions held)"@;
    let middle = calendar::day_text(day) + ": "@ + reason@;
    assert(note =~= head + middle + tail);
    assert(note.take(head.len() as int) =~= head);
    assert(note.skip(note.len() - tail.len()) =~= tail);
}

/// What the breaker reads at a close decides over the next ranking: where it reads a trip the book
/// goes to cash, and where it reads none the picks stand, whatever it read before.
pub proof fn the_last_reading_decides_over_the_next_ranking(
    closing: &mut Simulation,
    opening: &mut Simulation,
    ranking: &mut Simulation,
    flat: bool,
    reading: bool,
    orders: Option<Vec<String>>,
    picks: Vec<String>,
    now: Option<Vec<String>>,
)
    requires
        old(closing).well_formed(),
        old(closing).opened,
        old(closing).has_breaker,
        call_ensures(Simulation::close_day, (closing, flat, Some(reading)), ()),
        *old(opening) == *final(closing),
        old(opening).day < old(opening).calendar@.len(),
        call_ensures(Simulation::open_day, (opening,), orders),
        *old(ranking) == *final(opening),
        old(ranking).to_rank(),
        call_ensures(Simulation::ranked, (ranking, &picks), now),
    ensures
        now matches Some(t) ==> t@.len() == (if reading {
            0
        } else {
            picks@.len()
        }),
        final(ranking).pending matches Some(p) ==> p.targets@.len() == (if reading {
            0
        } else {
            picks@.len()
        }),
        now is Some || final(ranking).pending is Some,
{
    if now is Some {
        assert(text::texts(now->0@).len() == now->0@.len());
    }
    if final(ranking).pending is Some {
        assert(text::texts(final(ranking).pending->0.targets@).len() == final(ranking).pending->0.targets@.len());
    }
    assert(text::texts(picks@).len() == picks@.len());
}

/// Each close that leaves the book in cash counts once as a day in cash, and each close at which
/// the breaker reads a trip counts once as a day tripped; no other close counts as either.
pub proof fn days_are_counted_once(
    s: &mut Simulation,
    flat: bool,
    breaker: Option<bool>,
)
    requires
        old(s).well_formed(),
        old(s).opened,
        call_ensures(Simulation::close_day, (s, flat, breaker), ()),
    ensures
        final(s).day == old(s).day + 1,
        flat ==> final(s).cash_days == old(s).cash_days + 1,
        !flat ==> final(s).cash_days == old(s).cash_days,
        old(s).has_breaker && breaker == Some(true) ==> final(s).trip_days == old(s).trip_days + 1
            && final(s).tripped,
        old(s).has_breaker && breaker == Some(false) ==> final(s).trip_days == old(s).trip_days
            && !final(s).tripped,
        !old(s).has_breaker || breaker is None ==> final(s).trip_days == old(s).trip_days && final(s).tripped == old(s).tripped,
        final(s).n_rebalances == old(s).n_rebalances,
        final(s).last_ranked == old(s).last_ranked,
{
}

/// The period left to score runs from the last ranking to the last trading day; there is none
/// without a ranking, nor where the last ranking was on that day.
pub proof fn the_last_period_runs_to_the_end(s: Simulation, r: Option<(Date, Date)>)
    requires
        s.well_formed(),
        call_ensures(Simulation::open_period, (&s,), r),
    ensures
        s.last_ranked is None ==> r is None,
        s.last_ranked matches Some(d) ==> d.days < s.calendar@[s.calendar@.len() - 1].days ==> r
            == Some((d, s.calendar@[s.calendar@.len() - 1])),
        s.last_ranked matches Some(d) ==> d.days >= s.calendar@[s.calendar@.len() - 1].days ==> r
            is None,
{
}

/// A run starts where its dates run forward, there is capital and there are prices.
pub proof fn a_run_needs_time_money_and_prices(
    start: Date,
    end: Date,
    capital: Number,
    every_days: u32,
    timing: ExecutionTiming,
    has_breaker: bool,
    days: Vec<Date>,
    r: Result<Simulation, SimulationError>,
)
    requires
        prices::days_increase(days@),
        forall|i: int| 0 <= i < days@.len() ==> (#[trigger] days@[i]).in_range(),
        call_ensures(
            Simulation::new,
            (start, end, capital, every_days, timing, has_breaker, days),
            r,
        ),
    ensures
        start.days < end.days && 0 < capital.bits < 0x7FF0_0000_0000_0000 && days@.len() > 0 ==> r
            is Ok,
        start.days >= end.days ==> r is Err,
        capital.bits == 0 || capital.bits >= 0x8000_0000_0000_0000 ==> r is Err,
        days@.len() == 0 ==> r is Err,
        r matches Ok(s) ==> s.calendar@ == days@ && s.timing == timing && s.has_breaker
            == has_breaker && s.pending is None && !s.tripped && s.n_rebalances == 0,
        r matches Ok(s) ==> forall|planned: Vec<Date>| #[trigger]
            call_ensures(schedule::rebalance_days, (&days, start, every_days), planned) ==> forall|
                d: Date,
            |
                #[trigger] s.rebalances@.contains(d) <==> planned@.contains(d),
{
}

/// The day that runs is the one that the calendar has at its place, and it is one to rebalance on
/// where the schedule lists it.
pub proof fn the_running_day_is_that_of_the_calendar(
    s: Simulation,
    today: Option<Date>,
    rebalance: bool,
)
    requires
        s.well_formed(),
        s.day < s.calendar@.len(),
        call_ensures(Simulation::today, (&s,), today),
        call_ensures(Simulation::is_rebalance_day, (&s,), rebalance),
    ensures
        today == Some(s.calendar@[s.day as int]),
        rebalance <==> s.rebalances@.contains(s.calendar@[s.day as int]),
{
}

/// Once every day has closed there is no running day.
pub proof fn no_day_runs_after_the_last(s: Simulation, today: Option<Date>)
    requires
        call_ensures(Simulation::today, (&s,), today),
    ensures
        s.day >= s.calendar@.len() <==> today is None,
{
}

/// A breaker without a benchmark to watch is noted once, on the first day; no other close leaves a
/// note.
pub proof fn a_blind_breaker_is_noted_on_the_first_day(
    s: &mut Simulation,
    flat: bool,
    breaker: Option<bool>,
)
    requires
        old(s).well_formed(),
        old(s).opened,
        call_ensures(Simulation::close_day, (s, flat, breaker), ()),
    ensures
        !old(s).has_breaker || breaker is Some || old(s).day > 0 ==> final(s).notes@.len() == old(
            s).notes@.len(),
        old(s).has_breaker && breaker is None && old(s).day == 0 ==> final(s).notes@.len() == old(
            s).notes@.len() + 1 && final(s).notes@.last()@ == blind_breaker_note(),
{
    let before = text::texts(old(s).notes@);
    let after = text::texts(final(s).notes@);
    assert(before.len() == old(s).notes@.len());
    assert(after.len() == final(s).notes@.len());
    if after.len() > 0 {
        assert(after.last() == final(s).notes@.last()@);
    }
}

} // verus!
