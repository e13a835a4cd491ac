use quant_edge::backtest::book::{
    is_dust, liquidity, ref_price, spendable, win_count, Book, ClosedTrade, PurchaseFigures,
    SaleFigures, Totals, TradeSide,
};
use quant_edge::backtest::schedule::{default_benchmark, rebalance_days, ExecutionTiming};
use quant_edge::backtest::simulation::{benchmark_levels, period_ic, Simulation, SimulationError};
use quant_edge::calendar::Date;
use quant_edge::data::prices::{PriceSeries, PriceStore};
use quant_edge::data::source::PriceBar;
use quant_edge::metrics::ic;
use quant_edge::number::Number;
use quant_edge::risk::{BreakerState, DrawdownBreaker};
use quant_edge::signals::{top_picks, SignalScore};

fn n(x: f64) -> Number {
    Number::from_bits(x.to_bits())
}

fn f(x: Number) -> f64 {
    f64::from_bits(x.to_bits())
}

fn d(s: &str) -> Date {
    Date::from_text(s).unwrap()
}

/// Weekday bars from `start`; `price(i)` gives open and close of the i-th bar.
fn weekday_bars(start: &str, count: usize, price: impl Fn(usize) -> (f64, f64)) -> Vec<PriceBar> {
    let mut out = Vec::new();
    let mut date = d(start);
    while out.len() < count {
        if !date.is_weekend() {
            let (o, c) = price(out.len());
            out.push(PriceBar {
                date,
                open: n(o),
                high: n(o.max(c)),
                low: n(o.min(c)),
                close: n(c),
                adj_close: n(c),
                adj_open: n(o),
                volume: 10_000_000,
            });
        }
        date = date.plus_days(1);
    }
    out
}

fn store(items: Vec<(&str, Vec<PriceBar>)>) -> PriceStore {
    let mut s = PriceStore::new();
    for (t, bars) in items {
        s.insert(t.to_string(), PriceSeries::new(bars));
    }
    s
}

fn sc(ticker: &str, raw: f64, macro_on: bool) -> SignalScore {
    SignalScore {
        ticker: ticker.to_string(),
        industry: "Ind".to_string(),
        rank: 1,
        composite: n(50.0 + 50.0 * raw),
        macro_on,
    }
}

struct Config {
    start: Date,
    end: Date,
    every: u32,
    top_n: usize,
    timing: ExecutionTiming,
    macro_gate: bool,
    capital: f64,
    spread: f64,
    fee: f64,
    max_weight: Option<f64>,
    breaker: Option<DrawdownBreaker>,
}

fn config(start: &str, end: &str, every: u32) -> Config {
    Config {
        start: d(start),
        end: d(end),
        every,
        top_n: 1,
        timing: ExecutionTiming::NextOpen,
        macro_gate: true,
        capital: 100_000.0,
        spread: 0.0,
        fee: 0.0,
        max_weight: None,
        breaker: None,
    }
}

struct Outcome {
    equity: Vec<f64>,
    book: Book,
    sim: Simulation,
}

impl Outcome {
    fn total_return_pct(&self, c: &Config) -> f64 {
        (self.equity[self.equity.len() - 1] / c.capital - 1.0) * 100.0
    }
}

fn close_of(prices: &PriceStore, t: &str, date: Date) -> f64 {
    prices.get(t).and_then(|s| s.on_or_before(date)).map_or(0.0, |b| f(b.adj_close))
}

/// Moves the book to its targets: sales first, then equal entries for what is new.
fn execute(book: &mut Book, targets: &Vec<String>, prices: &PriceStore, date: Date, c: &Config) {
    for t in book.sales(targets, prices, date, c.timing) {
        let i = book.find(&t).unwrap();
        let reference = f(ref_price(prices.get(&t).unwrap(), date, c.timing).unwrap());
        let p = &book.positions[i];
        let shares = f(p.shares);
        let fill = reference * (1.0 - c.spread).max(0.0);
        let slippage = shares * (reference - fill);
        let basis = shares * f(p.entry_fill) + f(p.entry_commission);
        let pnl = shares * fill - c.fee - basis;
        let totals = Totals {
            cash: n(f(book.totals.cash) + shares * fill - c.fee),
            traded_notional: n(f(book.totals.traded_notional) + shares * fill),
            total_costs: n(f(book.totals.total_costs) + c.fee + slippage.max(0.0)),
        };
        book.sold(
            i,
            date,
            SaleFigures {
                fill: n(fill),
                commission: n(c.fee),
                slippage: n(slippage),
                pnl: n(pnl),
                return_pct: n(if basis > 0.0 { pnl / basis * 100.0 } else { 0.0 }),
                totals,
            },
        );
    }
    if targets.is_empty() {
        return;
    }
    let held: f64 = book
        .positions
        .iter()
        .map(|p| {
            let r = prices.get(&p.ticker).and_then(|s| ref_price(s, date, c.timing));
            f(p.shares) * r.map_or(0.0, f)
        })
        .sum();
    let equity = f(book.totals.cash) + held;
    let share = 1.0 / targets.len() as f64;
    let weight = c.max_weight.map_or(share, |m| share.min(m));
    let mut from = 0;
    while let Some((i, reference)) = book.next_purchase(targets, from, prices, date, c.timing) {
        from = i + 1;
        let spend = f(spendable(n(weight * equity), book.totals.cash));
        let fill = f(reference) * (1.0 + c.spread);
        let shares = (spend - c.fee).max(0.0) / fill;
        if is_dust(n(shares * fill)) {
            continue;
        }
        let slippage = shares * (fill - f(reference));
        let totals = Totals {
            cash: n(f(book.totals.cash) - shares * fill - c.fee),
            traded_notional: n(f(book.totals.traded_notional) + shares * fill),
            total_costs: n(f(book.totals.total_costs) + c.fee + slippage.max(0.0)),
        };
        book.bought(
            &targets[i],
            date,
            PurchaseFigures {
                shares: n(shares),
                fill: n(fill),
                commission: n(c.fee),
                slippage: n(slippage),
                totals,
            },
        );
    }
}

/// Runs a backtest, ranking with `rank`.
fn simulate(
    rank: impl Fn(Date) -> Result<Vec<SignalScore>, String>,
    prices: &PriceStore,
    bench: Option<&PriceSeries>,
    c: &Config,
) -> Result<Outcome, SimulationError> {
    let calendar = prices.calendar(c.start, c.end);
    let mut sim =
        Simulation::new(c.start, c.end, n(c.capital), c.every, c.timing, c.breaker.is_some(), calendar)?;
    let mut book = Book::new(n(c.capital));
    let mut state = BreakerState::default();
    let mut equity = Vec::new();
    while let Some(date) = sim.today() {
        if let Some(targets) = sim.open_day() {
            execute(&mut book, &targets, prices, date, c);
        }
        if sim.is_rebalance_day() {
            match rank(date) {
                Ok(scores) => {
                    let off = c.macro_gate && scores.iter().any(|s| !s.macro_on);
                    let picks = if off { Vec::new() } else { top_picks(&scores, None, c.top_n) };
                    let names: Vec<String> = picks.iter().map(|p| p.ticker.clone()).collect();
                    if let Some(now) = sim.ranked(&names) {
                        execute(&mut book, &now, prices, date, c);
                    }
                }
                Err(e) => sim.ranking_failed(&e),
            }
        }
        let value: f64 =
            book.positions.iter().map(|p| f(p.shares) * close_of(prices, &p.ticker, date)).sum();
        equity.push(f(book.totals.cash) + value);
        let reading = match (&c.breaker, bench.and_then(|b| b.on_or_before(date))) {
            (Some(b), Some(bar)) => {
                let level = f(bar.adj_close);
                let fall = state.observe(bar.adj_close).map_or(0.0, |p| (f(p) - level) / f(p));
                Some(b.step(&mut state, n(fall)))
            }
            _ => None,
        };
        let flat = book.is_flat();
        sim.close_day(flat, reading);
    }
    Ok(Outcome { equity, book, sim })
}

// ── Schedule ─────────────────────────────────────────────────────────────────

#[test]
fn rebalance_targets_on_weekends_roll_to_next_trading_day() {
    let cal: Vec<Date> =
        weekday_bars("2024-01-01", 23, |_| (1.0, 1.0)).into_iter().map(|b| b.date).collect();
    assert_eq!(
        rebalance_days(&cal, d("2024-01-01"), 5),
        vec![
            d("2024-01-01"), d("2024-01-08"), d("2024-01-11"), d("2024-01-16"),
            d("2024-01-22"), d("2024-01-26"), d("2024-01-31"),
        ]
    );
}

#[test]
fn rebalance_days_has_no_duplicates_when_targets_collapse() {
    let cal = vec![d("2024-01-05"), d("2024-01-08")];
    assert_eq!(rebalance_days(&cal, d("2024-01-05"), 1), vec![d("2024-01-05"), d("2024-01-08")]);
}

#[test]
fn weekend_start_date_still_rebalances() {
    let cal = vec![d("2024-01-08"), d("2024-01-09")];
    assert_eq!(rebalance_days(&cal, d("2024-01-06"), 30), vec![d("2024-01-08")]);
}

#[test]
fn the_benchmark_follows_the_market_of_most_names() {
    let t = |v: &[&str]| v.iter().map(|s| s.to_string()).collect::<Vec<String>>();
    assert_eq!(default_benchmark(&t(&["A.NS", "B.NS", "C"])), "^NSEI");
    assert_eq!(default_benchmark(&t(&["A.NS", "C"])), "^GSPC");
    assert_eq!(default_benchmark(&Vec::new()), "^GSPC");
}

// ── Fills ────────────────────────────────────────────────────────────────────

fn gap_market() -> PriceStore {
    store(vec![(
        "A",
        weekday_bars("2024-01-01", 12, |i| match i {
            0 => (100.0, 100.0),
            1 => (120.0, 130.0),
            _ => (130.0, 130.0),
        }),
    )])
}

fn pick_a(_: Date) -> Result<Vec<SignalScore>, String> {
    Ok(vec![sc("A", 0.9, true)])
}

fn rising(count: usize) -> Vec<PriceBar> {
    weekday_bars("2024-01-01", count, |i| (100.0 + i as f64, 100.0 + i as f64))
}

#[test]
fn next_open_fills_at_the_following_bars_open() {
    let c = config("2024-01-01", "2024-01-19", 365);
    let r = simulate(pick_a, &gap_market(), None, &c).unwrap();
    let buy = &r.book.trades[0];
    assert_eq!(buy.date, d("2024-01-02"), "must fill the day AFTER the decision");
    assert!((f(buy.price) - 120.0).abs() < 1e-9, "filled at the open, got {}", f(buy.price));
}

#[test]
fn same_close_fills_on_the_signal_bar_and_flatters_results() {
    let lag = config("2024-01-01", "2024-01-19", 365);
    let mut same = config("2024-01-01", "2024-01-19", 365);
    same.timing = ExecutionTiming::SameClose;
    let r_lag = simulate(pick_a, &gap_market(), None, &lag).unwrap();
    let r_same = simulate(pick_a, &gap_market(), None, &same).unwrap();
    assert_eq!(r_same.book.trades[0].date, d("2024-01-01"));
    assert!((f(r_same.book.trades[0].price) - 100.0).abs() < 1e-9);
    assert!((r_same.total_return_pct(&same) - 30.0).abs() < 1e-6);
    assert!((r_lag.total_return_pct(&lag) - (130.0 / 120.0 - 1.0) * 100.0).abs() < 1e-6);
}

#[test]
fn win_rate_is_computed_from_closed_round_trips() {
    let b = weekday_bars("2024-01-01", 30, |i| (100.0 - i as f64, 100.0 - i as f64));
    let prices = store(vec![("A", rising(30)), ("B", b)]);
    let c = config("2024-01-01", "2024-02-09", 7);
    let rank = |date: Date| {
        let phase = (date.days_since(d("2024-01-01")) / 7) % 3;
        Ok(match phase {
            0 | 2 => vec![sc("A", 0.9, true), sc("B", -0.9, true)],
            _ => vec![sc("B", 0.9, true), sc("A", -0.9, true)],
        })
    };
    let r = simulate(rank, &prices, None, &c).unwrap();
    let closed = &r.book.closed;
    assert!(closed.len() >= 2, "got {}", closed.len());
    assert!(f(closed.iter().find(|x| x.ticker == "A").unwrap().pnl) > 0.0, "A rose");
    assert!(f(closed.iter().find(|x| x.ticker == "B").unwrap().pnl) < 0.0, "B fell");
    let wins = win_count(closed);
    assert!(wins > 0 && wins < closed.len());
    assert_eq!(wins, closed.iter().filter(|x| f(x.pnl) > 0.0).count());
}

#[test]
fn risk_off_liquidates_to_cash_and_stays_there() {
    let prices = store(vec![("A", rising(40))]);
    let c = config("2024-01-01", "2024-02-23", 7);
    let rank = |date: Date| Ok(vec![sc("A", 0.9, date.days < d("2024-01-15").days)]);
    let r = simulate(rank, &prices, None, &c).unwrap();
    assert!(r.book.trades.iter().any(|t| t.side == TradeSide::Sell), "must sell on risk-off");
    assert!(r.sim.cash_days as f64 / r.equity.len() as f64 * 100.0 > 30.0);
    let tail: Vec<f64> = r.equity.iter().rev().take(10).copied().collect();
    assert!(tail.windows(2).all(|w| (w[0] - w[1]).abs() < 1e-6));
}

#[test]
fn macro_gate_can_be_disabled_in_the_spec() {
    let prices = store(vec![("A", rising(20))]);
    let mut c = config("2024-01-01", "2024-01-26", 7);
    c.macro_gate = false;
    let r = simulate(|_| Ok(vec![sc("A", 0.9, false)]), &prices, None, &c).unwrap();
    assert!(r.book.trades.iter().any(|t| t.side == TradeSide::Buy));
}

#[test]
fn failed_ranking_keeps_positions_and_is_reported() {
    let prices = store(vec![("A", rising(30))]);
    let c = config("2024-01-01", "2024-02-09", 7);
    let rank = |date: Date| {
        if date.days > d("2024-01-10").days {
            Err("network down".to_string())
        } else {
            Ok(vec![sc("A", 0.9, true)])
        }
    };
    let r = simulate(rank, &prices, None, &c).unwrap();
    assert!(!r.sim.notes.is_empty());
    assert_eq!(r.sim.notes[0], "ranking failed on 2024-01-15: network down (positions held)");
    assert!(!r.book.trades.iter().any(|t| t.side == TradeSide::Sell), "must not liquidate");
}

fn flip_flop(date: Date) -> Result<Vec<SignalScore>, String> {
    let k = date.days_since(d("2024-01-01")) / 7;
    Ok(vec![sc(if k % 2 == 0 { "A" } else { "B" }, 0.9, true)])
}

#[test]
fn costs_reduce_returns() {
    let prices = store(vec![("A", rising(40)), ("B", rising(40))]);
    let free = config("2024-01-01", "2024-02-23", 7);
    let mut costly = config("2024-01-01", "2024-02-23", 7);
    costly.spread = 0.005;
    costly.fee = 5.0;
    let r0 = simulate(flip_flop, &prices, None, &free).unwrap();
    let r1 = simulate(flip_flop, &prices, None, &costly).unwrap();
    assert!(r1.equity[r1.equity.len() - 1] < r0.equity[r0.equity.len() - 1]);
    assert!(f(r1.book.totals.total_costs) > 0.0);
    assert_eq!(f(r0.book.totals.total_costs), 0.0);
    assert!(f(r1.book.totals.traded_notional) > 0.0);
}

#[test]
fn results_are_deterministic() {
    let a = weekday_bars("2024-01-01", 30, |i| (100.0 + i as f64, 101.0 + i as f64));
    let b = weekday_bars("2024-01-01", 30, |i| (100.0 + (i % 5) as f64, 100.0 + (i % 4) as f64));
    let prices = store(vec![("A", a), ("B", b)]);
    let c = config("2024-01-01", "2024-02-09", 7);
    let r1 = simulate(flip_flop, &prices, None, &c).unwrap();
    let r2 = simulate(flip_flop, &prices, None, &c).unwrap();
    assert_eq!(r1.equity, r2.equity);
    assert_eq!(r1.book.trades.len(), r2.book.trades.len());
}

#[test]
fn rejects_inverted_dates_and_empty_data() {
    let bad = config("2024-02-01", "2024-01-01", 7);
    assert_eq!(
        simulate(pick_a, &gap_market(), None, &bad).err(),
        Some(SimulationError::EndNotAfterStart)
    );
    let ok = config("2024-01-01", "2024-02-01", 7);
    assert_eq!(
        simulate(pick_a, &PriceStore::new(), None, &ok).err(),
        Some(SimulationError::NoPrices)
    );
    let mut broke = config("2024-01-01", "2024-02-01", 7);
    broke.capital = 0.0;
    assert_eq!(
        simulate(pick_a, &gap_market(), None, &broke).err(),
        Some(SimulationError::CapitalNotPositive)
    );
}

#[test]
fn equity_starts_at_initial_capital_and_never_goes_negative() {
    let c = config("2024-01-01", "2024-01-19", 5);
    let r = simulate(pick_a, &gap_market(), None, &c).unwrap();
    assert!((r.equity[0] - c.capital).abs() < 1e-6);
    assert!(r.equity.iter().all(|v| *v > 0.0));
}

#[test]
fn win_rate_handles_empty_and_mixed() {
    assert_eq!(win_count(&Vec::new()), 0);
    let mk = |pnl: f64| ClosedTrade {
        ticker: "X".to_string(),
        entry_date: d("2024-01-01"),
        exit_date: d("2024-01-10"),
        shares: n(1.0),
        entry_price: n(1.0),
        exit_price: n(1.0),
        pnl: n(pnl),
        return_pct: n(0.0),
    };
    let wins = win_count(&vec![mk(1.0), mk(-1.0), mk(2.0), mk(-3.0)]);
    assert!((wins as f64 / 4.0 * 100.0 - 50.0).abs() < 1e-9);
}

#[test]
fn period_ic_rewards_a_predictive_ranking() {
    let mut items = Vec::new();
    let mut scores = Vec::new();
    for (i, t) in ["A", "B", "C", "D", "E", "F"].iter().enumerate() {
        let growth = 1.0 + 0.01 * (i as f64 + 1.0);
        let bars = weekday_bars("2024-01-01", 10, move |k| {
            (100.0 * growth.powi(k as i32), 100.0 * growth.powi(k as i32))
        });
        items.push((*t, bars));
        scores.push(sc(t, -0.9 + 0.3 * i as f64, true));
    }
    let pairs = period_ic(&scores, d("2024-01-01"), d("2024-01-12"), &store(items)).unwrap();
    let xs: Vec<Number> = pairs.iter().map(|p| p.composite).collect();
    let ys: Vec<Number> = pairs.iter().map(|p| n(f(p.to_close) / f(p.from_close) - 1.0)).collect();
    let s = ic::spearman(&xs, &ys).unwrap();
    assert_eq!(s.xs.len(), 6);
    assert_eq!(s.xs, s.ys, "the orders agree, so the rank correlation is one");
}

#[test]
fn period_ic_needs_enough_names() {
    let prices = store(vec![("A", weekday_bars("2024-01-01", 10, |_| (1.0, 1.0)))]);
    let scores = vec![sc("A", 0.5, true)];
    assert!(period_ic(&scores, d("2024-01-01"), d("2024-01-12"), &prices).is_none());
}

#[test]
fn without_a_cap_a_single_pick_takes_the_whole_book() {
    let prices = store(vec![("A", rising(20))]);
    let c = config("2024-01-01", "2024-01-26", 365);
    let r = simulate(pick_a, &prices, None, &c).unwrap();
    assert!(f(r.book.trades[0].shares) * f(r.book.trades[0].price) > c.capital * 0.99);
}

#[test]
fn max_position_weight_has_no_effect_when_the_equal_share_is_already_under_it() {
    let prices = store(vec![("A", rising(20)), ("B", rising(20))]);
    let mut c = config("2024-01-01", "2024-01-26", 365);
    c.top_n = 2;
    c.max_weight = Some(0.60);
    let rank = |_: Date| Ok(vec![sc("A", 0.9, true), sc("B", 0.5, true)]);
    let r = simulate(rank, &prices, None, &c).unwrap();
    let invested: f64 = r.book.trades.iter().map(|t| f(t.shares) * f(t.price)).sum();
    assert!(invested > c.capital * 0.95, "a non-binding cap must not leave capital idle");
}

#[test]
fn drawdown_breaker_forces_cash_after_a_crash_and_resumes_after_recovery() {
    let bench = PriceSeries::new(weekday_bars("2024-01-01", 40, |i| {
        let px = if i < 5 {
            100.0
        } else if i < 15 {
            60.0
        } else {
            100.0 + i as f64
        };
        (px, px)
    }));
    let prices = store(vec![("A", weekday_bars("2024-01-01", 40, |_| (50.0, 50.0)))]);
    let mut c = config("2024-01-01", "2024-02-23", 5);
    c.breaker = Some(DrawdownBreaker { threshold: n(0.20), resume_at: n(0.05) });
    let r = simulate(pick_a, &prices, Some(&bench), &c).unwrap();
    assert!(r.sim.trip_days > 0, "the benchmark's -40% crash should have tripped the breaker");
    assert!(r.sim.cash_days > 0, "tripping should have forced a liquidation to cash");
    assert!(r.sim.notes.is_empty(), "{:?}", r.sim.notes);
    let buys = r.book.trades.iter().filter(|t| t.side == TradeSide::Buy).count();
    assert!(buys >= 2, "expected a re-entry after the benchmark recovered, got {buys} buy(s)");
}

#[test]
fn drawdown_breaker_without_a_benchmark_never_trips_and_says_so() {
    let a = weekday_bars("2024-01-01", 30, |i| {
        let px = if i < 5 { 100.0 } else { 40.0 };
        (px, px)
    });
    let mut c = config("2024-01-01", "2024-01-31", 5);
    c.breaker = Some(DrawdownBreaker::default());
    let r = simulate(pick_a, &store(vec![("A", a)]), None, &c).unwrap();
    assert_eq!(r.sim.trip_days, 0);
    assert!(r.sim.notes.iter().any(|x| x.contains("no benchmark")), "{:?}", r.sim.notes);
}

#[test]
fn without_a_breaker_configured_it_never_trips() {
    let a = weekday_bars("2024-01-01", 30, |i| {
        let px = if i < 5 { 100.0 } else { 40.0 };
        (px, px)
    });
    let c = config("2024-01-01", "2024-01-31", 5);
    let r = simulate(pick_a, &store(vec![("A", a)]), None, &c).unwrap();
    assert_eq!(r.sim.trip_days, 0);
}

#[test]
fn a_benchmark_that_misses_days_has_no_levels() {
    let cal = vec![d("2024-01-02"), d("2024-01-03")];
    let late = PriceSeries::new(weekday_bars("2024-01-03", 2, |_| (1.0, 1.0)));
    assert!(benchmark_levels(&cal, &late).is_none());
    let full = PriceSeries::new(weekday_bars("2024-01-01", 3, |i| (1.0, 1.0 + i as f64)));
    assert_eq!(benchmark_levels(&cal, &full), Some(vec![n(2.0), n(3.0)]));
}

#[test]
fn liquidity_is_measured_before_the_day_of_the_fill() {
    let s = PriceSeries::new(weekday_bars("2024-01-01", 30, |i| (1.0, 1.0 + i as f64)));
    let (window, vol) = liquidity(&s, d("2024-02-01"));
    assert!(window.iter().all(|b| b.date.days < d("2024-02-01").days));
    assert_eq!(window.len(), 20);
    assert!(vol.is_some());
}
