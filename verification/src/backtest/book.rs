//! The book of a backtest: what is held, what to sell and what to buy.
//!
//! The book decides which orders a rebalance takes and records how they were
//! filled. The amounts of a fill (shares, prices, costs) come from the caller.

use vstd::prelude::*;

use crate::backtest::schedule::ExecutionTiming;
use crate::calendar::Date;
use crate::data::prices;
use crate::data::prices::{PriceSeries, PriceStore};
use crate::data::source::PriceBar;
use crate::number::Number;
use crate::order;
use crate::text;

verus! {

/// The encoding of one, the least amount worth buying.
pub const ONE: u64 = 0x3FF0_0000_0000_0000;

/// Direction of a trade.
#[derive(Clone, Copy, Debug, PartialEq, Eq, Structural)]
pub enum TradeSide {
    Buy,
    Sell,
}

/// One fill.
#[derive(Debug)]
pub struct TradeRecord {
    pub date: Date,
    pub ticker: String,
    pub side: TradeSide,
    pub shares: Number,
    /// Price after spread, slippage and impact.
    pub price: Number,
    pub commission: Number,
    pub slippage_cost: Number,
}

/// One completed round trip.
#[derive(Debug)]
pub struct ClosedTrade {
    pub ticker: String,
    pub entry_date: Date,
    pub exit_date: Date,
    pub shares: Number,
    pub entry_price: Number,
    pub exit_price: Number,
    /// Profit after both commissions.
    pub pnl: Number,
    pub return_pct: Number,
}

/// An open position.
#[derive(Debug)]
pub struct Position {
    pub ticker: String,
    pub shares: Number,
    pub entry_date: Date,
    pub entry_fill: Number,
    pub entry_commission: Number,
}

/// Running totals of a book.
#[derive(Clone, Copy, Debug, PartialEq, Eq, Structural)]
pub struct Totals {
    pub cash: Number,
    pub traded_notional: Number,
    pub total_costs: Number,
}

/// How a sale was filled.
#[derive(Clone, Copy, Debug, PartialEq, Eq, Structural)]
pub struct SaleFigures {
    pub fill: Number,
    pub commission: Number,
    pub slippage: Number,
    pub pnl: Number,
    pub return_pct: Number,
    pub totals: Totals,
}

/// How a purchase was filled.
#[derive(Clone, Copy, Debug, PartialEq, Eq, Structural)]
pub struct PurchaseFigures {
    pub shares: Number,
    pub fill: Number,
    pub commission: Number,
    pub slippage: Number,
    pub totals: Totals,
}

/// The price to transact against: on a trading day the adjusted open or close, whichever the
/// timing calls for (the close where the open is no usable price); otherwise the last close.
pub open spec fn reference(s: Seq<PriceBar>, day: int, timing: ExecutionTiming) -> Option<Number> {
    match prices::bar_on(s, day) {
        Some(b) => {
            let px = match timing {
                ExecutionTiming::NextOpen => b.adj_open,
                ExecutionTiming::SameClose => b.adj_close,
            };
            Some(
                if px.positive() {
                    px
                } else {
                    b.adj_close
                },
            )
        },
        None => match prices::bar_through(s, day) {
            Some(b) => Some(b.adj_close),
            None => None,
        },
    }
}

/// The price to transact against on `date`.
pub fn ref_price(series: &PriceSeries, date: Date, timing: ExecutionTiming) -> (r: Option<Number>)
    ensures
        r == reference(series@, date.days as int, timing),
{
    match series.on(date) {
        Some(b) => {
            let px: Number = match timing {
                ExecutionTiming::NextOpen => b.adj_open,
                ExecutionTiming::SameClose => b.adj_close,
            };
            if px.is_positive() {
                Some(px)
            } else {
                Some(b.adj_close)
            }
        },
        None => match series.on_or_before(date) {
            Some(b) => Some(b.adj_close),
            None => None,
        },
    }
}

/// The bars from which liquidity on a fill date is measured: the last 20 for dollar volume, and
/// the last 21 (at least six) for volatility, all dated strictly before the fill date.
pub fn liquidity(series: &PriceSeries, date: Date) -> (r: (&[PriceBar], Option<&[PriceBar]>))
    requires
        date.days > i32::MIN,
    ensures
        ({
            let hi = prices::through(series@, date.days - 1);
            let k = if hi < 20 { hi } else { 20 };
            let q = if hi < 21 { hi } else { 21 };
            &&& r.0@ == series@.subrange(hi - k, hi)
            &&& match r.1 {
                Some(w) => q >= 6 && w@ == series@.subrange(hi - q, hi),
                None => q < 6,
            }
        }),
        forall|i: int| 0 <= i < r.0@.len() ==> (#[trigger] r.0@[i]).date.days < date.days,
        r.1 matches Some(w) ==> forall|i: int|
            0 <= i < w@.len() ==> (#[trigger] w@[i]).date.days < date.days,
{
    let prev: Date = Date { days: date.days - 1 };
    let bars: &Vec<PriceBar> = series.bars();
    proof {
        prices::lemma_through(series@, date.days - 1);
    }
    (series.last_n_through(prev, 20), series.volatility_window(prev, 20))
}

/// Whether a purchase is too small to make.
pub fn is_dust(value: Number) -> (r: bool)
    ensures
        r == value.lt(Number { bits: ONE }),
{
    value.is_lt(Number { bits: ONE })
}

/// What may be spent on a purchase: the allocation, as far as there is cash.
pub fn spendable(alloc: Number, cash: Number) -> (r: Number)
    ensures
        r == alloc.smaller(cash),
{
    alloc.min(cash)
}

/// The tickers held, in the order in which the positions were opened.
pub open spec fn held(positions: Seq<Position>) -> Seq<Seq<char>> {
    positions.map_values(|p: Position| p.ticker@)
}

/// No ticker is held twice.
pub open spec fn distinct(positions: Seq<Position>) -> bool {
    forall|i: int, j: int|
        0 <= i < j < positions.len() ==> (#[trigger] positions[i]).ticker@ != (
        #[trigger] positions[j]).ticker@
}

/// Whether a ticker can be bought: it is not held yet and it trades on the day.
pub open spec fn buyable(
    positions: Seq<Position>,
    store: Map<Seq<char>, Seq<PriceBar>>,
    day: int,
    t: Seq<char>,
) -> bool {
    &&& !held(positions).contains(t)
    &&& store.contains_key(t)
    &&& prices::bar_on(store[t], day) is Some
}

/// Whether a ticker is to be sold: it is held, not wanted, and there is a price to sell at.
pub open spec fn sellable(
    positions: Seq<Position>,
    store: Map<Seq<char>, Seq<PriceBar>>,
    day: int,
    timing: ExecutionTiming,
    targets: Seq<Seq<char>>,
    t: Seq<char>,
) -> bool {
    &&& held(positions).contains(t)
    &&& !targets.contains(t)
    &&& store.contains_key(t)
    &&& reference(store[t], day, timing) is Some
}

/// Cash, positions and the record of trades.
#[derive(Debug)]
pub struct Book {
    pub totals: Totals,
    pub positions: Vec<Position>,
    pub trades: Vec<TradeRecord>,
    pub closed: Vec<ClosedTrade>,
}

impl Book {
    /// No ticker is held twice.
    pub open spec fn well_formed(&self) -> bool {
        distinct(self.positions@)
    }

    /// A book that holds nothing but cash.
    pub fn new(cash: Number) -> (r: Book)
        ensures
            r.well_formed(),
            r.positions@.len() == 0,
            r.trades@.len() == 0,
            r.closed@.len() == 0,
            r.totals == (Totals {
                cash,
                traded_notional: Number { bits: 0 },
                total_costs: Number { bits: 0 },
            }),
    {
        Book {
            totals: Totals { cash, traded_notional: Number::zero(), total_costs: Number::zero() },
            positions: Vec::new(),
            trades: Vec::new(),
            closed: Vec::new(),
        }
    }

    /// Whether the book holds cash only.
    pub fn is_flat(&self) -> (r: bool)
        ensures
            r == (self.positions@.len() == 0),
    {
        self.positions.len() == 0
    }

    /// Position of a ticker among the positions held.
    pub fn find(&self, ticker: &str) -> (r: Option<usize>)
        ensures
            match r {
                Some(i) => i < self.positions.len() && self.positions[i as int].ticker@ == ticker@,
                None => !held(self.positions@).contains(ticker@),
            },
            r is Some <==> held(self.positions@).contains(ticker@),
    {
        let mut i: usize = 0;
        while i < self.positions.len()
            invariant
                i <= self.positions.len(),
                forall|j: int| 0 <= j < i ==> (#[trigger] self.positions[j]).ticker@ != ticker@,
            decreases self.positions.len() - i,
        {
            if text::same_text(self.positions[i].ticker.as_str(), ticker) {
                proof {
                    assert(held(self.positions@)[i as int] == ticker@);
                }
                return Some(i);
            }
            i = i + 1;
        }
        proof {
            assert forall|j: int| 0 <= j < held(self.positions@).len() implies held(
                self.positions@,
            )[j] != ticker@ by {
                assert(self.positions[j].ticker@ != ticker@);
            }
        }
        None
    }

    /// The positions to sell when the book moves to `targets`: those that are no longer wanted
    /// and have a price to sell at, in increasing order of ticker. The rest is kept.
    pub fn sales(
        &self,
        targets: &Vec<String>,
        store: &PriceStore,
        date: Date,
        timing: ExecutionTiming,
    ) -> (r: Vec<String>)
        ensures
            order::strictly_sorted(text::texts(r@)),
            forall|t: Seq<char>|
                text::texts(r@).contains(t) <==> sellable(
                    self.positions@,
                    store@,
                    date.days as int,
                    timing,
                    text::texts(targets@),
                    t,
                ),
    {
        let mut out: Vec<String> = Vec::new();
        let mut i: usize = 0;
        proof {
            assert(text::texts(out@) =~= Seq::<Seq<char>>::empty());
        }
        while i < self.positions.len()
            invariant
                i <= self.positions.len(),
                order::strictly_sorted(text::texts(out@)),
                forall|t: Seq<char>|
                    text::texts(out@).contains(t) <==> sellable(
                        self.positions@,
                        store@,
                        date.days as int,
                        timing,
                        text::texts(targets@),
                        t,
                    ) && exists|k: int|
                        0 <= k < i && (#[trigger] self.positions@[k]).ticker@ == t,
            decreases self.positions.len() - i,
        {
            let ticker: &str = self.positions[i].ticker.as_str();
            let wanted: bool = text::contains_text(targets, ticker);
            let priced: bool = match store.get(ticker) {
                Some(series) => ref_price(series, date, timing).is_some(),
                None => false,
            };
            let ghost before = text::texts(out@);
            if !wanted && priced {
                order::insert_sorted(&mut out, ticker);
            }
            proof {
                let now = text::texts(out@);
                assert(held(self.positions@)[i as int] == ticker@);
                assert(held(self.positions@).contains(ticker@));
                assert forall|t: Seq<char>|
                    now.contains(t) <==> sellable(
                        self.positions@,
                        store@,
                        date.days as int,
                        timing,
                        text::texts(targets@),
                        t,
                    ) && exists|k: int|
                        0 <= k < i + 1 && (#[trigger] self.positions@[k]).ticker@ == t by {
                    if t == ticker@ {
                        assert(self.positions@[i as int].ticker@ == t);
                    }
                }
            }
            i = i + 1;
        }
        proof {
            assert forall|t: Seq<char>|
                text::texts(out@).contains(t) <==> sellable(
                    self.positions@,
                    store@,
                    date.days as int,
                    timing,
                    text::texts(targets@),
                    t,
                ) by {
                if held(self.positions@).contains(t) {
                    let k = choose|k: int|
                        0 <= k < held(self.positions@).len() && held(self.positions@)[k] == t;
                    assert(self.positions@[k].ticker@ == t);
                }
            }
        }
        out
    }

    /// Records that the position `i` was sold: it is held no longer, and the round trip and the
    /// fill are entered at the end of their lists.
    pub fn sold(&mut self, i: usize, date: Date, figures: SaleFigures)
        requires
            old(self).well_formed(),
            i < old(self).positions.len(),
        ensures
            final(self).well_formed(),
            final(self).positions@ == old(self).positions@.remove(i as int),
            final(self).totals == figures.totals,
            final(self).closed@.len() == old(self).closed@.len() + 1,
            final(self).closed@.drop_last() == old(self).closed@,
            final(self).trades@.len() == old(self).trades@.len() + 1,
            final(self).trades@.drop_last() == old(self).trades@,
            ({
                let p = old(self).positions@[i as int];
                let c = final(self).closed@.last();
                let t = final(self).trades@.last();
                &&& c.ticker@ == p.ticker@
                &&& c.entry_date == p.entry_date
                &&& c.exit_date == date
                &&& c.shares == p.shares
                &&& c.entry_price == p.entry_fill
                &&& c.exit_price == figures.fill
                &&& c.pnl == figures.pnl
                &&& c.return_pct == figures.return_pct
                &&& t.ticker@ == p.ticker@
                &&& t.date == date
                &&& t.side == TradeSide::Sell
                &&& t.shares == p.shares
                &&& t.price == figures.fill
                &&& t.commission == figures.commission
                &&& t.slippage_cost == figures.slippage
            }),
            !held(final(self).positions@).contains(old(self).positions@[i as int].ticker@),
    {
        let ghost before = self.positions@;
        let p: Position = self.positions.remove(i);
        proof {
            assert forall|a: int, b: int| 0 <= a < b < self.positions.len() implies (
            #[trigger] self.positions@[a]).ticker@ != (#[trigger] self.positions@[b]).ticker@ by {
                let oa = if a < i { a } else { a + 1 };
                let ob = if b < i { b } else { b + 1 };
                assert(before[oa].ticker@ != before[ob].ticker@);
            }
            assert forall|k: int| 0 <= k < held(self.positions@).len() implies held(
                self.positions@,
            )[k] != p.ticker@ by {
                if k < i {
                    assert(before[k].ticker@ != before[i as int].ticker@);
                } else {
                    assert(before[i as int].ticker@ != before[k + 1].ticker@);
                }
            }
        }
        let ghost closed_before = self.closed@;
        let ghost trades_before = self.trades@;
        self.closed.push(
            ClosedTrade {
                ticker: p.ticker.clone(),
                entry_date: p.entry_date,
                exit_date: date,
                shares: p.shares,
                entry_price: p.entry_fill,
                exit_price: figures.fill,
                pnl: figures.pnl,
                return_pct: figures.return_pct,
            },
        );
        self.trades.push(
            TradeRecord {
                date,
                ticker: p.ticker,
                side: TradeSide::Sell,
                shares: p.shares,
                price: figures.fill,
                commission: figures.commission,
                slippage_cost: figures.slippage,
            },
        );
        self.totals = figures.totals;
        proof {
            assert(self.closed@.drop_last() =~= closed_before);
            assert(self.trades@.drop_last() =~= trades_before);
        }
    }

    /// The next target to buy at or after position `from`, with the price to transact against:
    /// the first one that is not held yet and trades on the day.
    pub fn next_purchase(
        &self,
        targets: &Vec<String>,
        from: usize,
        store: &PriceStore,
        date: Date,
        timing: ExecutionTiming,
    ) -> (r: Option<(usize, Number)>)
        ensures
            match r {
                Some((i, price)) => {
                    &&& from <= i < targets.len()
                    &&& buyable(self.positions@, store@, date.days as int, targets[i as int]@)
                    &&& reference(store@[targets[i as int]@], date.days as int, timing) == Some(
                        price,
                    )
                    &&& forall|j: int|
                        from <= j < i ==> !buyable(
                            self.positions@,
                            store@,
                            date.days as int,
                            (#[trigger] targets[j])@,
                        )
                },
                None => forall|j: int|
                    from <= j < targets.len() ==> !buyable(
                        self.positions@,
                        store@,
                        date.days as int,
                        (#[trigger] targets[j])@,
                    ),
            },
    {
        let mut i: usize = from;
        while i < targets.len()
            invariant
                from <= i,
                forall|j: int|
                    from <= j < i && j < targets.len() ==> !buyable(
                        self.positions@,
                        store@,
                        date.days as int,
                        (#[trigger] targets[j])@,
                    ),
            decreases targets.len() - i,
        {
            let ticker: &str = targets[i].as_str();
            if self.find(ticker).is_none() {
                match store.get(ticker) {
                    Some(series) => {
                        if series.on(date).is_some() {
                            match ref_price(series, date, timing) {
                                Some(price) => {
                                    return Some((i, price));
                                },
                                None => {},
                            }
                        }
                    },
                    None => {},
                }
            }
            i = i + 1;
        }
        None
    }

    /// Records that a ticker was bought: it is held from now on, and the fill is entered at the
    /// end of the trades.
    pub fn bought(&mut self, ticker: &str, date: Date, figures: PurchaseFigures)
        requires
            old(self).well_formed(),
            !held(old(self).positions@).contains(ticker@),
        ensures
            final(self).well_formed(),
            held(final(self).positions@) == held(old(self).positions@).push(ticker@),
            final(self).positions@.len() == old(self).positions@.len() + 1,
            final(self).positions@.drop_last() == old(self).positions@,
            final(self).totals == figures.totals,
            final(self).closed@ == old(self).closed@,
            final(self).trades@.len() == old(self).trades@.len() + 1,
            final(self).trades@.drop_last() == old(self).trades@,
            ({
                let p = final(self).positions@.last();
                let t = final(self).trades@.last();
                &&& p.ticker@ == ticker@
                &&& p.shares == figures.shares
                &&& p.entry_date == date
                &&& p.entry_fill == figures.fill
                &&& p.entry_commission == figures.commission
                &&& t.ticker@ == ticker@
                &&& t.date == date
                &&& t.side == TradeSide::Buy
                &&& t.shares == figures.shares
                &&& t.price == figures.fill
                &&& t.commission == figures.commission
                &&& t.slippage_cost == figures.slippage
            }),
    {
        let ghost before = self.positions@;
        let ghost trades_before = self.trades@;
        self.positions.push(
            Position {
                ticker: ticker.to_owned(),
                shares: figures.shares,
                entry_date: date,
                entry_fill: figures.fill,
                entry_commission: figures.commission,
            },
        );
        self.trades.push(
            TradeRecord {
                date,
                ticker: ticker.to_owned(),
                side: TradeSide::Buy,
                shares: figures.shares,
                price: figures.fill,
                commission: figures.commission,
                slippage_cost: figures.slippage,
            },
        );
        self.totals = figures.totals;
        proof {
            assert(self.positions@.drop_last() =~= before);
            assert(self.trades@.drop_last() =~= trades_before);
            assert(held(self.positions@) =~= held(before).push(ticker@));
            assert forall|a: int, b: int| 0 <= a < b < self.positions.len() implies (
            #[trigger] self.positions@[a]).ticker@ != (#[trigger] self.positions@[b]).ticker@ by {
                if b == before.len() {
                    assert(held(before)[a] == before[a].ticker@);
                } else {
                    assert(before[a].ticker@ != before[b].ticker@);
                }
            }
        }
    }
}

/// Number of closed trades with a positive profit among the first `n`.
pub open spec fn wins_among(s: Seq<ClosedTrade>, n: int) -> int
    decreases n,
{
    if n <= 0 {
        0
    } else {
        wins_among(s, n - 1) + if (Number { bits: 0 }).lt(s[n - 1].pnl) {
            1int
        } else {
            0int
        }
    }
}

/// Number of closed trades with a positive profit.
pub fn win_count(closed: &Vec<ClosedTrade>) -> (r: usize)
    ensures
        r == wins_among(closed@, closed.len() as int),
        r <= closed.len(),
{
    let mut wins: usize = 0;
    let mut i: usize = 0;
    while i < closed.len()
        invariant
            i <= closed.len(),
            wins <= i,
            wins == wins_among(closed@, i as int),
        decreases closed.len() - i,
    {
        if Number::zero().is_lt(closed[i].pnl) {
            wins = wins + 1;
        }
        i = i + 1;
    }
    wins
}

/// A target that is already held is never sold when the book moves to the targets, nor bought
/// again: held names are kept.
pub proof fn held_targets_are_kept(
    positions: Seq<Position>,
    store: Map<Seq<char>, Seq<PriceBar>>,
    day: int,
    timing: ExecutionTiming,
    targets: Seq<Seq<char>>,
    t: Seq<char>,
)
    requires
        held(positions).contains(t),
        targets.contains(t),
    ensures
        !sellable(positions, store, day, timing, targets, t),
        !buyable(positions, store, day, t),
{
}

/// With no targets the book goes to cash: every held name with a known price is sold.
pub proof fn no_targets_means_cash(
    positions: Seq<Position>,
    store: Map<Seq<char>, Seq<PriceBar>>,
    day: int,
    timing: ExecutionTiming,
    t: Seq<char>,
)
    requires
        held(positions).contains(t),
        store.contains_key(t),
        prices::bar_through(store[t], day) is Some,
    ensures
        sellable(positions, store, day, timing, seq![], t),
{
}

// ── Prices to transact against ───────────────────────────────────────────────

/// A trade is priced on the scale that the book is marked at: on a trading day at the adjusted open
/// (the adjusted close where that open is no price) or at the adjusted close, as the timing calls
/// for, whatever the unadjusted prices are.
pub proof fn trades_are_priced_on_the_adjusted_scale(
    series: PriceSeries,
    date: Date,
    timing: ExecutionTiming,
    r: Option<Number>,
    i: int,
)
    requires
        call_ensures(ref_price, (&series, date, timing), r),
        prices::dates_increase(series@),
        0 <= i < series@.len(),
        series@[i].date == date,
    ensures
        timing == ExecutionTiming::NextOpen && 0 < series@[i].adj_open.bits
            < 0x7FF0_0000_0000_0000 ==> r == Some(series@[i].adj_open),
        timing == ExecutionTiming::NextOpen && !(0 < series@[i].adj_open.bits
            < 0x7FF0_0000_0000_0000) ==> r == Some(series@[i].adj_close),
        timing == ExecutionTiming::SameClose ==> r == Some(series@[i].adj_close),
{
    if i + 1 < series@.len() {
        assert(series@[i].date.days < series@[i + 1].date.days);
    }
    prices::lemma_split(series@, date.days as int, i + 1);
}

/// Off a trading day the last adjusted close before it stands in, under either timing; before the
/// first bar there is no price.
pub proof fn off_days_use_the_last_close(
    series: PriceSeries,
    date: Date,
    timing: ExecutionTiming,
    r: Option<Number>,
    i: int,
)
    requires
        call_ensures(ref_price, (&series, date, timing), r),
        prices::dates_increase(series@),
        -1 <= i < series@.len(),
        i >= 0 ==> series@[i].date.days < date.days,
        i + 1 < series@.len() ==> date.days < series@[i + 1].date.days,
    ensures
        i >= 0 ==> r == Some(series@[i].adj_close),
        i < 0 ==> r is None,
{
    prices::lemma_split(series@, date.days as int, i + 1);
}

/// Unadjusted prices never enter a trade: series that differ in nothing else give one price.
pub proof fn unadjusted_prices_do_not_matter(
    a: PriceSeries,
    b: PriceSeries,
    date: Date,
    timing: ExecutionTiming,
    ra: Option<Number>,
    rb: Option<Number>,
)
    requires
        call_ensures(ref_price, (&a, date, timing), ra),
        call_ensures(ref_price, (&b, date, timing), rb),
        prices::adjusted_alike(a@, b@),
    ensures
        ra == rb,
{
    prices::lemma_through_alike(a@, b@, date.days as int);
}

/// Nothing after the day of a trade enters its price: series that agree through the day give one
/// price.
pub proof fn later_prices_do_not_matter(
    a: PriceSeries,
    b: PriceSeries,
    date: Date,
    timing: ExecutionTiming,
    ra: Option<Number>,
    rb: Option<Number>,
    n: int,
)
    requires
        call_ensures(ref_price, (&a, date, timing), ra),
        call_ensures(ref_price, (&b, date, timing), rb),
        prices::dates_increase(a@),
        prices::dates_increase(b@),
        0 <= n <= a@.len() && n <= b@.len(),
        a@.take(n) == b@.take(n),
        n > 0 ==> a@[n - 1].date.days <= date.days && b@[n - 1].date.days <= date.days,
        n < a@.len() ==> a@[n].date.days > date.days,
        n < b@.len() ==> b@[n].date.days > date.days,
    ensures
        ra == rb,
{
    prices::lemma_split(a@, date.days as int, n);
    prices::lemma_split(b@, date.days as int, n);
    if n > 0 {
        assert(a@.take(n)[n - 1] == a@[n - 1]);
        assert(b@.take(n)[n - 1] == b@[n - 1]);
    }
}

/// What is bought next is a target that is not held and trades on the day, and it is bought at its
/// adjusted price of that day.
pub proof fn purchases_fill_at_the_adjusted_price(
    book: Book,
    targets: Vec<String>,
    from: usize,
    store: PriceStore,
    date: Date,
    timing: ExecutionTiming,
    r: Option<(usize, Number)>,
    k: int,
)
    requires
        call_ensures(Book::next_purchase, (&book, &targets, from, &store, date, timing), r),
        r matches Some((i, _)) && {
            &&& store@.contains_key(targets@[i as int]@)
            &&& 0 <= k < store@[targets@[i as int]@].len()
            &&& store@[targets@[i as int]@][k].date == date
            &&& prices::dates_increase(store@[targets@[i as int]@])
        },
    ensures
        ({
            let (i, price) = r->0;
            let b = store@[targets@[i as int]@][k];
            &&& from <= i < targets@.len()
            &&& forall|p: int|
                0 <= p < book.positions@.len() ==> (#[trigger] book.positions@[p]).ticker@
                    != targets@[i as int]@
            &&& timing == ExecutionTiming::NextOpen && 0 < b.adj_open.bits < 0x7FF0_0000_0000_0000
                ==> price == b.adj_open
            &&& timing == ExecutionTiming::SameClose ==> price == b.adj_close
        }),
{
    let (i, price) = r->0;
    let s = store@[targets@[i as int]@];
    if k + 1 < s.len() {
        assert(s[k].date.days < s[k + 1].date.days);
    }
    prices::lemma_split(s, date.days as int, k + 1);
    assert forall|p: int| 0 <= p < book.positions@.len() implies (
    #[trigger] book.positions@[p]).ticker@ != targets@[i as int]@ by {
        assert(held(book.positions@)[p] == book.positions@[p].ticker@);
    }
}

/// A name without a bar on the day is never bought, and no target that could be bought is passed
/// over: one that is not held and trades on the day comes up.
pub proof fn no_purchase_is_passed_over(
    book: Book,
    targets: Vec<String>,
    from: usize,
    store: PriceStore,
    date: Date,
    timing: ExecutionTiming,
    r: Option<(usize, Number)>,
    j: int,
    k: int,
)
    requires
        call_ensures(Book::next_purchase, (&book, &targets, from, &store, date, timing), r),
        from <= j < targets@.len(),
        forall|p: int|
            0 <= p < book.positions@.len() ==> (#[trigger] book.positions@[p]).ticker@
                != targets@[j]@,
        store@.contains_key(targets@[j]@),
        prices::dates_increase(store@[targets@[j]@]),
        0 <= k < store@[targets@[j]@].len(),
        store@[targets@[j]@][k].date == date,
    ensures
        r matches Some((i, _)) && i <= j,
        r matches Some((i, _)) ==> {
            let s = store@[targets@[i as int]@];
            prices::dates_increase(s) ==> exists|q: int|
                0 <= q < s.len() && (#[trigger] s[q]).date == date
        },
{
    let s = store@[targets@[j]@];
    if k + 1 < s.len() {
        assert(s[k].date.days < s[k + 1].date.days);
    }
    prices::lemma_split(s, date.days as int, k + 1);
    assert(!held(book.positions@).contains(targets@[j]@)) by {
        if held(book.positions@).contains(targets@[j]@) {
            let p = choose|p: int|
                0 <= p < held(book.positions@).len() && held(book.positions@)[p] == targets@[j]@;
            assert(book.positions@[p].ticker@ == targets@[j]@);
        }
    }
    assert(buyable(book.positions@, store@, date.days as int, targets[j]@));
    let (i, _) = r->0;
    let t = store@[targets@[i as int]@];
    if prices::dates_increase(t) {
        prices::lemma_through(t, date.days as int);
        let q = prices::through(t, date.days as int) - 1;
        assert(t[q].date == date);
    }
}

/// What is sold is held and no longer wanted, and every such name is sold that has a bar on or
/// before the day; a name that is wanted stays.
pub proof fn unwanted_names_are_sold(
    book: Book,
    targets: Vec<String>,
    store: PriceStore,
    date: Date,
    timing: ExecutionTiming,
    r: Vec<String>,
    p: int,
    k: int,
)
    requires
        call_ensures(Book::sales, (&book, &targets, &store, date, timing), r),
        0 <= p < book.positions@.len(),
    ensures
        ({
            let t = book.positions@[p].ticker@;
            let s = store@[t];
            &&& (forall|j: int| 0 <= j < targets@.len() ==> (#[trigger] targets@[j])@ != t)
                && store@.contains_key(t) && prices::dates_increase(s) && 0 <= k < s.len()
                && s[k].date.days <= date.days ==> text::texts(r@).contains(t)
            &&& (exists|j: int| 0 <= j < targets@.len() && (#[trigger] targets@[j])@ == t)
                ==> !text::texts(r@).contains(t)
        }),
        forall|t: Seq<char>| #[trigger]
            text::texts(r@).contains(t) ==> exists|q: int|
                0 <= q < book.positions@.len() && (#[trigger] book.positions@[q]).ticker@ == t,
{
    let t = book.positions@[p].ticker@;
    let wanted = text::texts(targets@);
    assert(held(book.positions@)[p] == t);
    if exists|j: int| 0 <= j < targets@.len() && (#[trigger] targets@[j])@ == t {
        let j = choose|j: int| 0 <= j < targets@.len() && (#[trigger] targets@[j])@ == t;
        assert(wanted[j] == t);
    } else {
        assert(!wanted.contains(t)) by {
            if wanted.contains(t) {
                let j = choose|j: int| 0 <= j < wanted.len() && wanted[j] == t;
                assert(targets@[j]@ == t);
            }
        }
        if store@.contains_key(t) && prices::dates_increase(store@[t]) && 0 <= k < store@[t].len()
            && store@[t][k].date.days <= date.days {
            prices::lemma_through(store@[t], date.days as int);
            assert(sellable(
                book.positions@,
                store@,
                date.days as int,
                timing,
                text::texts(targets@),
                t,
            ));
        }
    }
    assert forall|t: Seq<char>| #[trigger] text::texts(r@).contains(t) implies exists|q: int|
        0 <= q < book.positions@.len() && (#[trigger] book.positions@[q]).ticker@ == t by {
        let h = held(book.positions@);
        assert(h.contains(t));
        let q = choose|q: int| 0 <= q < h.len() && h[q] == t;
        assert(book.positions@[q].ticker@ == t);
    }
}

/// A round trip carries over what was bought: buying a name and selling it again closes a trade
/// that has the shares, date and price of the purchase and the date and price of the sale, and
/// leaves the positions as they were.
pub proof fn a_round_trip_keeps_its_figures(
    bought: &mut Book,
    sold: &mut Book,
    ticker: &str,
    day_in: Date,
    day_out: Date,
    purchase: PurchaseFigures,
    sale: SaleFigures,
    i: usize,
)
    requires
        call_ensures(Book::bought, (bought, ticker, day_in, purchase), ()),
        call_ensures(Book::sold, (sold, i, day_out, sale), ()),
        *old(sold) == *final(bought),
        i == old(bought).positions@.len(),
    ensures
        final(sold).positions@ == old(bought).positions@,
        final(sold).closed@.len() == old(bought).closed@.len() + 1,
        ({
            let c = final(sold).closed@.last();
            &&& c.ticker@ == ticker@
            &&& c.entry_date == day_in
            &&& c.exit_date == day_out
            &&& c.shares == purchase.shares
            &&& c.entry_price == purchase.fill
            &&& c.exit_price == sale.fill
            &&& c.pnl == sale.pnl
        }),
        final(sold).trades@.len() == old(bought).trades@.len() + 2,
        ({
            let n = old(bought).trades@.len() as int;
            let a = final(sold).trades@[n];
            let b = final(sold).trades@[n + 1];
            &&& a.side == TradeSide::Buy && b.side == TradeSide::Sell
            &&& a.ticker@ == ticker@ && b.ticker@ == ticker@
            &&& a.date == day_in && b.date == day_out
            &&& a.shares == purchase.shares && b.shares == purchase.shares
            &&& a.price == purchase.fill && b.price == sale.fill
            &&& a.commission == purchase.commission && b.commission == sale.commission
        }),
{
    let n = old(bought).trades@.len() as int;
    let all = final(sold).trades@;
    assert(all.drop_last()[n] == all[n]);
    assert(final(sold).positions@ =~= final(bought).positions@.drop_last());
}

/// Wins add up: two lists of trades one after the other have the wins of both, a trade with a
/// profit above zero is one and any other is none.
pub proof fn wins_add_up(
    a: Vec<ClosedTrade>,
    b: Vec<ClosedTrade>,
    both: Vec<ClosedTrade>,
    ra: usize,
    rb: usize,
    r: usize,
)
    requires
        call_ensures(win_count, (&a,), ra),
        call_ensures(win_count, (&b,), rb),
        call_ensures(win_count, (&both,), r),
        both@ == a@ + b@,
    ensures
        r == ra + rb,
        a@.len() == 1 && 0 < a@[0].pnl.bits <= 0x7FF0_0000_0000_0000 ==> ra == 1,
        a@.len() == 1 && !(0 < a@[0].pnl.bits <= 0x7FF0_0000_0000_0000) ==> ra == 0,
{
    lemma_wins_of_both(a@, b@, b@.len() as int);
    reveal_with_fuel(wins_among, 2);
}

proof fn lemma_wins_of_both(a: Seq<ClosedTrade>, b: Seq<ClosedTrade>, n: int)
    requires
        0 <= n <= b.len(),
    ensures
        wins_among(a + b, a.len() + n) == wins_among(a, a.len() as int) + wins_among(b, n),
    decreases n,
{
    if n == 0 {
        lemma_wins_of_prefix(a, b, a.len() as int);
    } else {
        lemma_wins_of_both(a, b, n - 1);
        assert((a + b)[a.len() + n - 1] == b[n - 1]);
    }
}

proof fn lemma_wins_of_prefix(a: Seq<ClosedTrade>, b: Seq<ClosedTrade>, n: int)
    requires
        0 <= n <= a.len(),
    ensures
        wins_among(a + b, n) == wins_among(a, n),
    decreases n,
{
    if n > 0 {
        lemma_wins_of_prefix(a, b, n - 1);
        assert((a + b)[n - 1] == a[n - 1]);
    }
}

/// Liquidity is measured before the day of the fill, on the latest bars there are: twenty for the
/// dollar volume and one more for the returns, where there are that many.
pub proof fn liquidity_is_known_before_the_fill(
    series: PriceSeries,
    date: Date,
    r: (&[PriceBar], Option<&[PriceBar]>),
    k: int,
)
    requires
        call_ensures(liquidity, (&series, date), r),
        date.days > i32::MIN,
        prices::dates_increase(series@),
        0 <= k <= series@.len(),
        k > 0 ==> series@[k - 1].date.days < date.days,
        k < series@.len() ==> series@[k].date.days >= date.days,
    ensures
        k >= 20 ==> r.0@ == series@.subrange(k - 20, k),
        k < 20 ==> r.0@ == series@.take(k),
        k >= 21 ==> (r.1 matches Some(w) && w@ == series@.subrange(k - 21, k)),
        6 <= k < 21 ==> (r.1 matches Some(w) && w@ == series@.take(k)),
        k < 6 ==> r.1 is None,
{
    prices::lemma_split(series@, date.days - 1, k);
}

/// A holding worth less than one unit of money is dust.
pub proof fn less_than_one_is_dust(value: Number, r: bool)
    requires
        call_ensures(is_dust, (value,), r),
    ensures
        value.bits < 0x3FF0_0000_0000_0000 ==> r,
        0x3FF0_0000_0000_0000 <= value.bits < 0x7FF0_0000_0000_0000 ==> !r,
{
}

/// No more is spent than was allotted, nor than there is cash.
pub proof fn no_more_is_spent_than_there_is(alloc: Number, cash: Number, r: Number)
    requires
        call_ensures(spendable, (alloc, cash), r),
        alloc.bits < 0x7FF0_0000_0000_0000,
        cash.bits < 0x7FF0_0000_0000_0000,
    ensures
        r.bits <= alloc.bits && r.bits <= cash.bits,
        r == alloc || r == cash,
{
}

/// A position is found under its ticker, and a book without positions is in cash.
pub proof fn positions_are_found_under_their_ticker(
    b: Book,
    ticker: &str,
    r: Option<usize>,
    flat: bool,
    i: int,
)
    requires
        call_ensures(Book::find, (&b, ticker), r),
        call_ensures(Book::is_flat, (&b,), flat),
    ensures
        r matches Some(k) ==> k < b.positions@.len() && b.positions@[k as int].ticker@ == ticker@,
        0 <= i < b.positions@.len() && b.positions@[i].ticker@ == ticker@ ==> r is Some,
        flat <==> b.positions@.len() == 0,
        flat ==> r is None,
{
    let names = held(b.positions@);
    if 0 <= i < b.positions@.len() && b.positions@[i].ticker@ == ticker@ {
        assert(names[i] == ticker@);
    }
    if r is Some {
        assert(b.positions@.len() > 0);
    }
}

} // verus!
