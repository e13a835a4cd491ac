//! The paper portfolio and what a rebalance does to it.
//!
//! Amounts of money are given with each step by the caller, who does the
//! arithmetic; which positions are marked, sold, kept and bought is decided
//! here.

use vstd::prelude::*;

use crate::calendar::Date;
use crate::daily::picks;
use crate::data::source::PriceBar;
use crate::llm::strategy_spec::{SignalWeightOverride, StrategyFilters, StrategySpec};
use crate::number::Number;
use crate::signals;
use crate::signals::{ScoreView, SignalScore};
use crate::text;

verus! {

/// Days to look back for the last close.
pub const PRICE_LOOKBACK_DAYS: i64 = 7;

/// Names that a portfolio without a strategy of its own holds.
pub const DEFAULT_TOP_N: usize = 15;

/// A position held on paper.
#[derive(Debug)]
pub struct Position {
    pub ticker: String,
    pub shares: Number,
    pub entry_price: Number,
    pub entry_date: Date,
    pub current_price: Number,
    /// Gain since entry, in percent.
    pub unrealised_pnl: Number,
}

/// A portfolio held on paper.
#[derive(Debug)]
pub struct PaperPortfolio {
    pub positions: Vec<Position>,
    pub cash: Number,
    pub strategy_spec: StrategySpec,
    pub inception_date: Date,
    pub last_rebalance_date: Date,
}

/// The tickers of positions.
pub open spec fn tickers(s: Seq<Position>) -> Seq<Seq<char>> {
    s.map_values(|p: Position| p.ticker@)
}

/// The positions whose ticker is among `names`.
pub open spec fn among(s: Seq<Position>, names: Set<Seq<char>>) -> Seq<Position> {
    s.filter(|p: Position| names.contains(p.ticker@))
}

/// The positions whose ticker is not among `names`.
pub open spec fn not_among(s: Seq<Position>, names: Set<Seq<char>>) -> Seq<Position> {
    s.filter(|p: Position| !names.contains(p.ticker@))
}

/// The tickers of ranked names.
pub open spec fn picked_tickers(s: Seq<ScoreView>) -> Set<Seq<char>> {
    s.map_values(|x: ScoreView| x.ticker).to_set()
}

/// What buying a name would take.
#[derive(Clone, Copy, Debug, PartialEq, Eq, Structural)]
pub struct Quote {
    pub price: Number,
    /// Shares that the allocation buys at the price.
    pub shares: Number,
    /// What they cost.
    pub cost: Number,
    /// The most that may be spent.
    pub budget: Number,
    /// Cash after the purchase.
    pub cash_after: Number,
}

/// The strategy of a portfolio that is set up without one: fifteen names, no weights of its own and
/// no filter but that of the macro regime.
pub fn default_strategy(holding_period_days: u32) -> (r: StrategySpec)
    ensures
        r.name@ == "Daily Engine"@,
        r.holding_period_days == holding_period_days,
        r.top_n == DEFAULT_TOP_N,
        r.universe_override is None,
        r.signal_weights == (SignalWeightOverride {
            momentum: None,
            fundamental: None,
            insider: None,
            sentiment: None,
            pairs: None,
        }),
        r.filters == (StrategyFilters {
            min_market_cap_b: None,
            sectors: None,
            exclude_sectors: None,
            macro_filter_enabled: true,
            min_score: None,
        }),
{
    let mut spec: StrategySpec = StrategySpec::default();
    spec.name = "Daily Engine".to_owned();
    spec.holding_period_days = holding_period_days;
    spec.top_n = DEFAULT_TOP_N;
    spec
}

/// The names that a new portfolio takes: the first `top_n` of those that reach the strategy's
/// lowest score.
pub fn initial_picks(spec: &StrategySpec, scores: &Vec<SignalScore>) -> (r: Vec<SignalScore>)
    ensures
        signals::views(r@) == signals::first_of(
            match spec.filters.min_score {
                Some(min) => signals::at_least(signals::views(scores@), min),
                None => signals::views(scores@),
            },
            spec.top_n as int,
        ),
{
    match spec.filters.min_score {
        Some(min) => {
            let passing: Vec<SignalScore> = signals::scores_at_least(scores, min);
            signals::first_scores(&passing, spec.top_n)
        },
        None => signals::first_scores(scores, spec.top_n),
    }
}

/// The last close among the bars of the days before a date, or zero where there is none.
pub fn last_price(bars: &Vec<PriceBar>) -> (r: Number)
    ensures
        r == (if bars@.len() == 0 {
            Number { bits: 0 }
        } else {
            bars@.last().adj_close
        }),
{
    if bars.len() == 0 {
        Number::zero()
    } else {
        bars[bars.len() - 1].adj_close
    }
}

impl PaperPortfolio {
    /// No ticker is held twice.
    pub open spec fn well_formed(&self) -> bool {
        forall|i: int, j: int|
            0 <= i < j < self.positions@.len() ==> (#[trigger] self.positions@[i]).ticker@ != (
            #[trigger] self.positions@[j]).ticker@
    }

    /// Whether a ticker is held.
    pub open spec fn holds(&self, t: Seq<char>) -> bool {
        exists|i: int| 0 <= i < self.positions@.len() && (#[trigger] self.positions@[i]).ticker@ == t
    }

    /// A portfolio that holds only cash.
    pub fn new(spec: StrategySpec, cash: Number, today: Date) -> (r: PaperPortfolio)
        ensures
            r.well_formed(),
            r.positions@.len() == 0,
            r.cash == cash,
            r.strategy_spec == spec,
            r.inception_date == today,
            r.last_rebalance_date == today,
    {
        PaperPortfolio {
            positions: Vec::new(),
            cash,
            strategy_spec: spec,
            inception_date: today,
            last_rebalance_date: today,
        }
    }

    /// Days since the last rebalance.
    pub fn days_since_rebalance(&self, today: Date) -> (r: i64)
        ensures
            r == today.days - self.last_rebalance_date.days,
    {
        today.days_since(self.last_rebalance_date)
    }

    /// Whether the holding period has passed since the last rebalance.
    pub fn rebalance_due(&self, today: Date) -> (r: bool)
        ensures
            r == (today.days - self.last_rebalance_date.days
                >= self.strategy_spec.holding_period_days),
    {
        self.days_since_rebalance(today) >= self.strategy_spec.holding_period_days as i64
    }

    /// Whether a ticker is held.
    pub fn is_held(&self, ticker: &str) -> (r: bool)
        ensures
            r == self.holds(ticker@),
    {
        let mut i: usize = 0;
        while i < self.positions.len()
            invariant
                i <= self.positions.len(),
                forall|k: int| 0 <= k < i ==> (#[trigger] self.positions@[k]).ticker@ != ticker@,
            decreases self.positions.len() - i,
        {
            if text::same_text(self.positions[i].ticker.as_str(), ticker) {
                return true;
            }
            i = i + 1;
        }
        false
    }

    /// Marks a position to a price that gives it a gain of `pnl` percent. A price that is not above
    /// zero is no price, and changes nothing.
    pub fn mark(&mut self, i: usize, price: Number, pnl: Number)
        requires
            i < old(self).positions@.len(),
            old(self).well_formed(),
        ensures
            final(self).well_formed(),
            final(self).cash == old(self).cash,
            final(self).strategy_spec == old(self).strategy_spec,
            final(self).inception_date == old(self).inception_date,
            final(self).last_rebalance_date == old(self).last_rebalance_date,
            final(self).positions@.len() == old(self).positions@.len(),
            forall|k: int|
                0 <= k < old(self).positions@.len() && k != i ==> (#[trigger] final(self).positions@[k])
                    == old(self).positions@[k],
            ({
                let p = old(self).positions@[i as int];
                let q = final(self).positions@[i as int];
                if (Number { bits: 0 }).lt(price) {
                    &&& q.ticker@ == p.ticker@
                    &&& q.shares == p.shares
                    &&& q.entry_price == p.entry_price
                    &&& q.entry_date == p.entry_date
                    &&& q.current_price == price
                    &&& q.unrealised_pnl == pnl
                } else {
                    q == p
                }
            }),
    {
        if Number::zero().is_lt(price) {
            let p: &Position = &self.positions[i];
            let marked: Position = Position {
                ticker: p.ticker.clone(),
                shares: p.shares,
                entry_price: p.entry_price,
                entry_date: p.entry_date,
                current_price: price,
                unrealised_pnl: pnl,
            };
            self.positions.set(i, marked);
        }
    }

    /// Sells the positions that are not among the picks, and returns them. `cash` is not touched:
    /// the caller adds the proceeds.
    pub fn drop_unpicked(&mut self, top: &Vec<SignalScore>) -> (sold: Vec<Position>)
        requires
            old(self).well_formed(),
        ensures
            final(self).well_formed(),
            final(self).cash == old(self).cash,
            final(self).strategy_spec == old(self).strategy_spec,
            final(self).inception_date == old(self).inception_date,
            final(self).last_rebalance_date == old(self).last_rebalance_date,
            final(self).positions@ == among(
                old(self).positions@,
                picked_tickers(signals::views(top@)),
            ),
            sold@ == not_among(old(self).positions@, picked_tickers(signals::views(top@))),
    {
        let ghost all = self.positions@;
        let ghost names = picked_tickers(signals::views(top@));
        let ghost keep = |p: Position| names.contains(p.ticker@);
        let ghost drop = |p: Position| !names.contains(p.ticker@);
        let mut rest: Vec<Position> = Vec::new();
        std::mem::swap(&mut rest, &mut self.positions);
        let mut kept: Vec<Position> = Vec::new();
        let mut sold: Vec<Position> = Vec::new();
        let n: usize = rest.len();
        let mut i: usize = 0;
        proof {
            reveal(Seq::filter);
            assert(all.skip(0) =~= rest@);
            assert(all.take(0) =~= seq![]);
            assert(kept@ =~= all.take(0).filter(keep));
            assert(sold@ =~= all.take(0).filter(drop));
        }
        while i < n
            invariant
                i <= n,
                n == all.len(),
                rest@ == all.skip(i as int),
                names == picked_tickers(signals::views(top@)),
                keep == (|p: Position| names.contains(p.ticker@)),
                drop == (|p: Position| !names.contains(p.ticker@)),
                kept@ == all.take(i as int).filter(keep),
                sold@ == all.take(i as int).filter(drop),
            decreases n - i,
        {
            let p: Position = rest.remove(0);
            proof {
                assert(p == all[i as int]);
                assert(rest@ =~= all.skip(i + 1));
                reveal(Seq::filter);
                assert(all.take(i + 1).drop_last() =~= all.take(i as int));
                assert(all.take(i + 1).last() == p);
            }
            if is_picked(top, p.ticker.as_str()) {
                kept.push(p);
            } else {
                sold.push(p);
            }
            i = i + 1;
        }
        proof {
            assert(all.take(n as int) =~= all);
            lemma_filter_keeps_distinct(all, keep);
        }
        self.positions = kept;
        sold
    }

    /// Buys a name at a quote: nothing happens where it is held, has no price or costs more than
    /// may be spent.
    pub fn buy(&mut self, ticker: &str, quote: Quote, today: Date) -> (bought: bool)
        requires
            old(self).well_formed(),
        ensures
            final(self).well_formed(),
            bought == (!old(self).holds(ticker@) && (Number { bits: 0 }).lt(quote.price)
                && quote.cost.le(quote.budget)),
            !bought ==> *final(self) == *old(self),
            bought ==> {
                &&& final(self).cash == quote.cash_after
                &&& final(self).strategy_spec == old(self).strategy_spec
                &&& final(self).inception_date == old(self).inception_date
                &&& final(self).last_rebalance_date == old(self).last_rebalance_date
                &&& final(self).positions@.len() == old(self).positions@.len() + 1
                &&& final(self).positions@.drop_last() == old(self).positions@
                &&& final(self).positions@.last().ticker@ == ticker@
                &&& final(self).positions@.last().shares == quote.shares
                &&& final(self).positions@.last().entry_price == quote.price
                &&& final(self).positions@.last().entry_date == today
                &&& final(self).positions@.last().current_price == quote.price
                &&& final(self).positions@.last().unrealised_pnl.bits == 0
            },
    {
        if self.is_held(ticker) || !Number::zero().is_lt(quote.price) || !quote.cost.is_le(
            quote.budget,
        ) {
            return false;
        }
        let ghost before = self.positions@;
        self.positions.push(
            Position {
                ticker: ticker.to_owned(),
                shares: quote.shares,
                entry_price: quote.price,
                entry_date: today,
                current_price: quote.price,
                unrealised_pnl: Number::zero(),
            },
        );
        self.cash = quote.cash_after;
        proof {
            assert(self.positions@.drop_last() =~= before);
        }
        true
    }

    /// Notes that a rebalance took place.
    pub fn rebalanced(&mut self, cash: Number, today: Date)
        requires
            old(self).well_formed(),
        ensures
            final(self).well_formed(),
            final(self).positions == old(self).positions,
            final(self).cash == cash,
            final(self).strategy_spec == old(self).strategy_spec,
            final(self).inception_date == old(self).inception_date,
            final(self).last_rebalance_date == today,
    {
        self.cash = cash;
        self.last_rebalance_date = today;
    }
}

/// Whether a ticker is among ranked names.
fn is_picked(top: &Vec<SignalScore>, ticker: &str) -> (r: bool)
    ensures
        r == picked_tickers(signals::views(top@)).contains(ticker@),
{
    let ghost names = signals::views(top@).map_values(|x: ScoreView| x.ticker);
    let mut i: usize = 0;
    while i < top.len()
        invariant
            i <= top.len(),
            names == signals::views(top@).map_values(|x: ScoreView| x.ticker),
            forall|k: int| 0 <= k < i ==> (#[trigger] names[k]) != ticker@,
        decreases top.len() - i,
    {
        proof {
            assert(names[i as int] == top@[i as int].ticker@);
        }
        if text::same_text(top[i].ticker.as_str(), ticker) {
            proof {
                assert(names.contains(ticker@));
            }
            return true;
        }
        i = i + 1;
    }
    false
}

/// What is left of distinct tickers is distinct.
proof fn lemma_filter_keeps_distinct(s: Seq<Position>, f: spec_fn(Position) -> bool)
    requires
        forall|i: int, j: int|
            0 <= i < j < s.len() ==> (#[trigger] s[i]).ticker@ != (#[trigger] s[j]).ticker@,
    ensures
        forall|i: int, j: int|
            0 <= i < j < s.filter(f).len() ==> (#[trigger] s.filter(f)[i]).ticker@ != (
            #[trigger] s.filter(f)[j]).ticker@,
        forall|i: int|
            0 <= i < s.filter(f).len() ==> exists|k: int|
                0 <= k < s.len() && s[k] == #[trigger] s.filter(f)[i],
    decreases s.len(),
{
    reveal(Seq::filter);
    if s.len() > 0 {
        let init = s.drop_last();
        assert forall|i: int, j: int| 0 <= i < j < init.len() implies (
        #[trigger] init[i]).ticker@ != (#[trigger] init[j]).ticker@ by {
            assert(init[i] == s[i] && init[j] == s[j]);
        }
        lemma_filter_keeps_distinct(init, f);
        let t = s.filter(f);
        let u = init.filter(f);
        assert forall|i: int| 0 <= i < t.len() implies exists|k: int|
            0 <= k < s.len() && s[k] == #[trigger] t[i] by {
            if i < u.len() {
                assert(t[i] == u[i]);
                let k = choose|k: int| 0 <= k < init.len() && init[k] == u[i];
                assert(s[k] == t[i]);
            } else {
                assert(t[i] == s[s.len() - 1]);
            }
        }
        assert forall|i: int, j: int| 0 <= i < j < t.len() implies (#[trigger] t[i]).ticker@ != (
        #[trigger] t[j]).ticker@ by {
            assert(t[i] == u[i]);
            if j < u.len() {
                assert(t[j] == u[j]);
            } else {
                assert(t[j] == s[s.len() - 1]);
                let k = choose|k: int| 0 <= k < init.len() && init[k] == u[i];
                assert(s[k] == t[i]);
            }
        }
    }
}

/// Held names that are picked again stay as they are, and nothing else stays.
pub proof fn picked_positions_are_kept(s: Seq<Position>, names: Set<Seq<char>>, i: int)
    requires
        0 <= i < s.len(),
    ensures
        among(s, names).contains(s[i]) <==> names.contains(s[i].ticker@),
        not_among(s, names).contains(s[i]) <==> !names.contains(s[i].ticker@),
{
    broadcast use vstd::seq_lib::group_filter_ensures;

    let keep = |p: Position| names.contains(p.ticker@);
    let drop = |p: Position| !names.contains(p.ticker@);
    assert(s.contains(s[i]));
    if among(s, names).contains(s[i]) {
        let k = choose|k: int| 0 <= k < among(s, names).len() && among(s, names)[k] == s[i];
        assert(keep(s.filter(keep)[k]));
    }
    if not_among(s, names).contains(s[i]) {
        let k = choose|k: int|
            0 <= k < not_among(s, names).len() && not_among(s, names)[k] == s[i];
        assert(drop(s.filter(drop)[k]));
    }
}

/// A pick is owed a place only while the regime is on: with it off, every position is sold.
pub proof fn risk_off_sells_everything(s: Seq<Position>, scores: Seq<ScoreView>, threshold: Number)
    requires
        signals::risk_off(scores),
    ensures
        among(s, picked_tickers(picks::picked(scores, threshold))).len() == 0,
{
    let names = picked_tickers(picks::picked(scores, threshold));
    let kept = among(s, names);
    broadcast use vstd::seq_lib::group_filter_ensures;

    if kept.len() > 0 {
        let keep = |p: Position| names.contains(p.ticker@);
        assert(keep(s.filter(keep)[0]));
        assert(names.contains(kept[0].ticker@));
        assert(false);
    }
}

// ── What a rebalance means ───────────────────────────────────────────────────

/// Positions are priced at the adjusted close of the latest bar; the unadjusted one does not matter.
pub proof fn positions_are_priced_at_the_latest_adjusted_close(
    a: Vec<PriceBar>,
    b: Vec<PriceBar>,
    ra: Number,
    rb: Number,
)
    requires
        call_ensures(last_price, (&a,), ra),
        call_ensures(last_price, (&b,), rb),
    ensures
        a@.len() > 0 ==> ra == a@[a@.len() - 1].adj_close,
        a@.len() == 0 ==> ra.bits == 0,
        crate::data::prices::adjusted_alike(a@, b@) ==> ra == rb,
{
    if a@.len() > 0 && crate::data::prices::adjusted_alike(a@, b@) {
        assert(a@[a@.len() - 1].adj_close == b@[b@.len() - 1].adj_close);
    }
}

/// A rebalance is due from the day on which the holding period has passed, and not before.
pub proof fn a_rebalance_is_due_after_the_holding_period(
    p: PaperPortfolio,
    today: Date,
    due: bool,
    days: i64,
)
    requires
        call_ensures(PaperPortfolio::rebalance_due, (&p, today), due),
        call_ensures(PaperPortfolio::days_since_rebalance, (&p, today), days),
    ensures
        p.last_rebalance_date.days + p.strategy_spec.holding_period_days <= today.days <==> due,
        p.last_rebalance_date.days + days == today.days,
{
}

/// A rebalance keeps the positions that are picked again as they are and sells every other one:
/// nothing is lost, and nothing is both kept and sold.
pub proof fn a_rebalance_parts_the_positions(
    p: &mut PaperPortfolio,
    top: Vec<SignalScore>,
    sold: Vec<Position>,
    i: int,
)
    requires
        call_ensures(PaperPortfolio::drop_unpicked, (p, &top), sold),
        0 <= i < old(p).positions@.len(),
    ensures
        (exists|k: int|
            0 <= k < top@.len() && (#[trigger] top@[k]).ticker@ == old(p).positions@[i].ticker@)
            ==> final(p).positions@.contains(old(p).positions@[i]) && !sold@.contains(
            old(p).positions@[i],
        ),
        (forall|k: int|
            0 <= k < top@.len() ==> (#[trigger] top@[k]).ticker@ != old(p).positions@[i].ticker@)
            ==> sold@.contains(old(p).positions@[i]) && !final(p).positions@.contains(
            old(p).positions@[i],
        ),
        final(p).cash == old(p).cash,
{
    let names = picked_tickers(signals::views(top@));
    let t = old(p).positions@[i].ticker@;
    let all = signals::views(top@).map_values(|x: ScoreView| x.ticker);
    picked_positions_are_kept(old(p).positions@, names, i);
    if exists|k: int| 0 <= k < top@.len() && (#[trigger] top@[k]).ticker@ == t {
        let k = choose|k: int| 0 <= k < top@.len() && (#[trigger] top@[k]).ticker@ == t;
        assert(signals::views(top@)[k] == top@[k]@);
        assert(all[k] == t);
        assert(names.contains(t));
    } else {
        assert(!names.contains(t)) by {
            if names.contains(t) {
                let k = choose|k: int| 0 <= k < all.len() && all[k] == t;
                assert(signals::views(top@)[k] == top@[k]@);
                assert(top@[k].ticker@ == t);
            }
        }
    }
}

/// A name that is bought is held from the price and day of the purchase on; marking it later moves
/// its current price and gain and leaves shares, entry price and entry date alone.
pub proof fn marking_leaves_the_entry_alone(
    bought: &mut PaperPortfolio,
    marked: &mut PaperPortfolio,
    ticker: &str,
    quote: Quote,
    today: Date,
    i: usize,
    price: Number,
    pnl: Number,
)
    requires
        call_ensures(PaperPortfolio::buy, (bought, ticker, quote, today), true),
        call_ensures(PaperPortfolio::mark, (marked, i, price, pnl), ()),
        *old(marked) == *final(bought),
        i == old(bought).positions@.len(),
        0 < price.bits <= 0x7FF0_0000_0000_0000,
    ensures
        ({
            let p = final(marked).positions@[i as int];
            &&& p.ticker@ == ticker@
            &&& p.shares == quote.shares
            &&& p.entry_price == quote.price
            &&& p.entry_date == today
            &&& p.current_price == price
            &&& p.unrealised_pnl == pnl
        }),
        final(marked).cash == quote.cash_after,
        0 < quote.price.bits <= 0x7FF0_0000_0000_0000,
        !quote.budget.lt(quote.cost),
{
}

/// Nothing is bought that is held, has no price above zero or costs more than may be spent, and the
/// portfolio is then left as it was; anything else is bought.
pub proof fn purchases_stay_within_the_budget(
    p: &mut PaperPortfolio,
    ticker: &str,
    quote: Quote,
    today: Date,
    bought: bool,
    k: int,
)
    requires
        call_ensures(PaperPortfolio::buy, (p, ticker, quote, today), bought),
        !quote.cost.nan(),
        !quote.budget.nan(),
    ensures
        0 <= k < old(p).positions@.len() && old(p).positions@[k].ticker@ == ticker@ ==> !bought,
        quote.budget.place() < quote.cost.place() ==> !bought,
        quote.price.bits == 0 ==> !bought,
        !bought ==> *final(p) == *old(p),
        (forall|j: int|
            0 <= j < old(p).positions@.len() ==> (#[trigger] old(p).positions@[j]).ticker@ != ticker@)
            && quote.cost.place() <= quote.budget.place() && 0 < quote.price.bits
            <= 0x7FF0_0000_0000_0000 ==> bought,
{
    if 0 <= k < old(p).positions@.len() && old(p).positions@[k].ticker@ == ticker@ {
        assert(old(p).holds(ticker@));
    }
}

/// A new portfolio opens with the names that would be picked of the ranking by its strategy.
pub proof fn a_new_portfolio_takes_the_top_picks(
    spec: StrategySpec,
    scores: Vec<SignalScore>,
    r: Vec<SignalScore>,
    top: Vec<SignalScore>,
)
    requires
        call_ensures(initial_picks, (&spec, &scores), r),
        call_ensures(signals::top_picks, (&scores, spec.filters.min_score, spec.top_n), top),
    ensures
        signals::views(r@) == signals::views(top@),
{
}

/// After a rebalance the cash is what was left and the day is today; positions and strategy stay.
pub proof fn a_rebalance_sets_cash_and_day(p: &mut PaperPortfolio, cash: Number, today: Date)
    requires
        old(p).well_formed(),
        call_ensures(PaperPortfolio::rebalanced, (p, cash, today), ()),
    ensures
        final(p).cash == cash && final(p).last_rebalance_date == today,
        final(p).positions@ == old(p).positions@ && final(p).inception_date == old(
            p).inception_date,
{
}

/// The strategy of the daily engine holds for as long as is set and leaves weights and names open.
pub proof fn the_daily_strategy_holds_for_the_period_set(days: u32, r: StrategySpec)
    requires
        call_ensures(default_strategy, (days,), r),
    ensures
        r.holding_period_days == days && r.name@ == "Daily Engine"@,
        r.filters.macro_filter_enabled && r.filters.min_score is None,
        r.signal_weights.momentum is None && r.signal_weights.fundamental is None
            && r.signal_weights.insider is None && r.signal_weights.sentiment is None
            && r.signal_weights.pairs is None,
{
}

} // verus!
