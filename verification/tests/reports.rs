use quant_edge::backtest::book::{TradeRecord, TradeSide};
use quant_edge::backtest::report::{
    curve_points, print_backtest_report, BacktestReport, Curve, ResultCells, RiskCells, TradeCells,
};
use quant_edge::calendar::Date;
use quant_edge::correlations::concentration_guard::CorrelationWarning;
use quant_edge::daily::evening::{
    evening_lines, is_flagged, stale_threshold, today_move, DayMove,
};
use quant_edge::daily::morning::{
    format_market_context, format_no_portfolio, format_picks_section, format_portfolio_section,
    heading, index_line, rate_line, run_morning, IndexQuote, PickCells,
};
use quant_edge::llm::strategy_spec::StrategySpec;
use quant_edge::metrics::stats::DrawdownPeriod;
use quant_edge::number::Number;
use quant_edge::paper_trading::engine::{PaperPortfolio, Position};
use quant_edge::paper_trading::report::{
    print_portfolio_status, print_trade_log, PositionCells, StatusCells,
};
use quant_edge::portfolio::engine::RebalanceFrequency;
use quant_edge::portfolio::rebalancer::SwapEvent;
use quant_edge::report::cli;
use quant_edge::report::cli::{
    truncate, BarMarks, BaselineCells, BaselineReport, CliReporter, IndustryRow, RoleRow, RunConfig,
    SimulationReport, Summary, SummaryCells,
};
use quant_edge::roles::Role;
use quant_edge::signals::SignalScore;

fn n(x: f64) -> Number {
    Number::from_bits(x.to_bits())
}

fn d(s: &str) -> Date {
    Date::from_text(s).unwrap()
}

fn t(s: &str) -> String {
    s.to_string()
}

const RESET: &str = "\x1b[0m";
const BOLD: &str = "\x1b[1m";
const DIM: &str = "\x1b[2m";
const GREEN: &str = "\x1b[32m";
const RED: &str = "\x1b[31m";
const YELLOW: &str = "\x1b[33m";
const CYAN: &str = "\x1b[36m";
const WHITE: &str = "\x1b[97m";

// ── Backtest ─────────────────────────────────────────────────────────────────

fn trade(side: TradeSide) -> TradeRecord {
    TradeRecord {
        date: d("2024-01-05"),
        ticker: t("AAPL"),
        side,
        shares: n(2.0),
        price: n(10.0),
        commission: n(0.0),
        slippage_cost: n(0.0),
    }
}

fn backtest_report(trades: usize) -> BacktestReport {
    BacktestReport {
        cells: ResultCells {
            final_value: t("1050.00"),
            total_return: t("5.00"),
            annualised_return: t("6.00"),
            sharpe_ratio: t("1.10"),
            max_drawdown: t("-2.00"),
            win_rate: t("50.00"),
        },
        risk: RiskCells {
            beta: Some(t("0.90")),
            cvar_95: None,
            concentration: Some((t("0.250"), t("4.0"))),
            breaker_days: n(12.5),
            breaker_cell: t("12.5"),
        },
        curve: Some(Curve {
            levels: vec![0, 8, 4],
            first: d("2024-01-02"),
            last: d("2024-01-04"),
            min: t("1000"),
            max: t("1050"),
        }),
        trades: (0..trades)
            .map(|i| trade(if i % 2 == 0 { TradeSide::Buy } else { TradeSide::Sell }))
            .collect(),
        trade_cells: (0..trades).map(|_| TradeCells { shares: t("2.00"), price: t("10.00") }).collect(),
        ics: vec![n(0.1), n(-0.2)],
        ic_cells: vec![t("+0.1000"), t("-0.2000")],
        mean_ic: t("-0.0500"),
    }
}

#[test]
fn a_backtest_report_lists_its_figures() {
    let lines = print_backtest_report(&backtest_report(2), "Test");
    let has = |s: &String| assert!(lines.contains(s), "{s:?} is not in {lines:#?}");
    has(&format!("{BOLD}{WHITE}  BACKTEST REPORT — Test{RESET}"));
    has(&format!("  Final Portfolio Value   {:>14}", "1050.00"));
    has(&format!("  Total Return            {:>13}%", "5.00"));
    has(&format!("  Max Drawdown            {:>13}%", "-2.00"));
    has(&format!("  Trades Executed         {:>14}", 2));
    has(&format!("  Mean Signal IC          {:>14}", "-0.0500"));
    has(&format!("  IC Periods              {:>14}", 2));
    has(&format!("  Beta (vs. benchmark)    {:>14}", "0.90"));
    has(&format!("  Final HHI               {:>14}", "0.250"));
    has(&format!("  Effective # positions   {:>14}", "4.0"));
    has(&format!("  Drawdown breaker active {:>13}%  of days", "12.5"));
    has(&format!("  {:>8} ┤ █▄├ {}", "1000", "1050"));
    has(&t("  Dates: 2024-01-02 → 2024-01-04"));
    has(&format!("  2024-01-05  {:>6}  {GREEN}BUY {RESET}  {:>10}  {:>9}", "AAPL", "2.00", "10.00"));
    has(&format!("  2024-01-05  {:>6}  {RED}SELL{RESET}  {:>10}  {:>9}", "AAPL", "2.00", "10.00"));
    has(&format!("  Period {:>3}:  {GREEN}+0.1000{RESET}", 1));
    has(&format!("  Period {:>3}:  {RED}-0.2000{RESET}", 2));
    assert!(!lines.iter().any(|l| l.contains("CVaR")));
}

#[test]
fn only_the_last_twenty_trades_are_printed() {
    let lines = print_backtest_report(&backtest_report(25), "Test");
    assert_eq!(lines.iter().filter(|l| l.contains("AAPL")).count(), 20);
}

#[test]
fn a_long_curve_is_sampled() {
    assert_eq!(curve_points(3), vec![0, 1, 2]);
    assert_eq!(curve_points(180).len(), 60);
    assert_eq!(curve_points(180)[1], 3);
    assert!(curve_points(0).is_empty());
}

// ── Paper portfolio ──────────────────────────────────────────────────────────

fn position(ticker: &str, entry: &str, pnl: f64) -> Position {
    Position {
        ticker: t(ticker),
        shares: n(1.0),
        entry_price: n(10.0),
        entry_date: d(entry),
        current_price: n(10.0),
        unrealised_pnl: n(pnl),
    }
}

fn cells(pnl: &str) -> PositionCells {
    PositionCells { entry: t("10.00"), current: t("11.00"), shares: t("1.00"), pnl: t(pnl) }
}

fn portfolio() -> PaperPortfolio {
    let mut spec = StrategySpec::default();
    spec.name = t("Daily");
    let mut p = PaperPortfolio::new(spec, n(5.0), d("2024-01-01"));
    p.positions.push(position("LOW", "2024-01-01", -4.0));
    p.positions.push(position("TOP", "2024-01-11", 10.0));
    p
}

#[test]
fn a_portfolio_is_printed_with_its_best_position_first() {
    let c = StatusCells { total: t("27.00"), cash: t("5.00"), invested: t("22.00"), total_pnl: t("8.00") };
    let lines = print_portfolio_status(&portfolio(), d("2024-01-21"), &c, &vec![cells("-4.00"), cells("+10.00")]);
    let has = |s: &String| assert!(lines.contains(s), "{s:?} is not in {lines:#?}");
    has(&format!("{BOLD}{WHITE}  PAPER PORTFOLIO — Daily{RESET}"));
    has(&t("  Days Since Rebalance 20"));
    has(&t("  Rebalance Due        no"));
    has(&t("  Holding Period       30 days"));
    has(&format!("  Total Value          {:>14}", "27.00"));
    has(&format!("  Total P&L            {:>13}%", "8.00"));
    has(&format!("  Days Running         {:>14}", 20));
    let row = |ticker: &str, days: i32, colour: &str, pnl: &str| {
        format!(
            "  {:>8}  {:>9}  {:>9}  {:>9}  {:>8}  {colour}{:>9}%{RESET}",
            ticker, "10.00", "11.00", "1.00", days, pnl
        )
    };
    let top = lines.iter().position(|l| *l == row("TOP", 10, GREEN, "+10.00")).unwrap();
    assert_eq!(lines[top + 1], row("LOW", 20, RED, "-4.00"));
    let due = print_portfolio_status(&portfolio(), d("2024-01-31"), &c, &vec![cells("-4.00"), cells("+10.00")]);
    assert!(due.contains(&format!("  Rebalance Due        {YELLOW}YES{RESET}")));
    let mut empty = portfolio();
    empty.positions.clear();
    assert!(print_portfolio_status(&empty, d("2024-01-21"), &c, &vec![]).contains(&t("  No open positions.")));
}

// ── Evening and morning ──────────────────────────────────────────────────────

#[test]
fn large_moves_and_old_positions_are_flagged() {
    assert!(is_flagged(n(3.1)) && is_flagged(n(-3.1)) && !is_flagged(n(3.0)) && !is_flagged(n(f64::NAN)));
    assert_eq!(stale_threshold(25), 37);
    assert_eq!(today_move(n(10.0), n(0.0), n(5.0)), n(0.0));
    assert_eq!(today_move(n(10.0), n(9.0), n(5.0)), n(5.0));
    let p = portfolio();
    let moves = vec![
        DayMove { percent: n(-5.0), printed: t("-5.00") },
        DayMove { percent: n(1.0), printed: t("+1.00") },
    ];
    let lines = evening_lines(
        &p.positions,
        &vec![cells("-4.00"), cells("+10.00")],
        &moves,
        "27.00",
        "+8.00",
        d("2024-02-10"),
        25,
    );
    let has = |s: &String| assert!(lines.contains(s), "{s:?} is not in {lines:#?}");
    has(&format!("{BOLD}{WHITE}  EVENING REPORT — 2024-02-10{RESET}"));
    has(&format!(
        "  {:>4}  {:<14}  {:>9}  {:>9}  {:>9}  {:>7}  {GREEN}{:>7}%{RESET}  {GREEN}{}%  ",
        1, "TOP", "10.00", "11.00", "1.00", 30, "+10.00", "+1.00"
    ));
    has(&format!(
        "  {:>4}  {:<14}  {:>9}  {:>9}  {:>9}  {:>7}  {RED}{:>7}%{RESET}  {RED}{}% {YELLOW}⚠{RESET} \x1b[35mSTALE{RESET}",
        2, "LOW", "10.00", "11.00", "1.00", 40, "-4.00", "-5.00"
    ));
    has(&format!("  Total portfolio value : {:>12}", "27.00"));
    has(&format!("  P&L since inception   : {:>11}%", "+8.00"));
    has(&t("  Best today            : TOP (+1.00%)"));
    has(&t("  Worst today           : LOW (-5.00%)"));
    has(&format!("  {YELLOW}⚠  1 position(s) moved >±3% today — review warranted.{RESET}"));
    has(&format!("  \x1b[35mSTALE: 1 position(s) held beyond 2× holding period (37 days).{RESET}"));
}

fn score(ticker: &str, composite: f64) -> SignalScore {
    SignalScore {
        ticker: t(ticker),
        industry: t("Banks"),
        rank: 1,
        composite: n(composite),
        macro_on: true,
    }
}

#[test]
fn the_morning_report_has_its_sections() {
    assert!(heading(d("2024-02-10"), "60", 25, 7)
        .contains(&t("  Score threshold: 60   Holding period: 25 days   Universe: 7 tickers scored")));
    let none = format_picks_section("US PICKS", &Vec::new(), &Vec::new());
    assert_eq!(none[0], format!("  {BOLD}US PICKS{RESET}  (0 picks)"));
    assert!(none.contains(&t("  No picks cleared the score threshold.")));
    let pick = PickCells {
        score: t("71.0"),
        momentum: t("60.0"),
        fundamental: t("55.0"),
        week: Some(t("+1.0")),
        month: None,
    };
    let some = format_picks_section("US PICKS", &vec![score("AAPL", 71.0)], &vec![pick]);
    let row = format!(
        "  {:>4}  {:<14}  {GREEN}{:>6}{RESET}  {:>8}  {:>8}  {:>7}  {:>7}  {}",
        1, "AAPL", "71.0", "60.0", "55.0", "+1.0%", "   n/a", "Banks"
    );
    assert!(some.contains(&row), "{some:#?}");
    assert_eq!(
        index_line("S&P500", n(5000.0), n(4900.0), n(2.0), "5000.00", "+2.04"),
        format!("  {:>8}  {:>10}   {GREEN}↑+2.04%{RESET} vs 5d ago", "S&P500", "5000.00")
    );
    assert_eq!(
        index_line("S&P500", n(0.0), n(4900.0), n(2.0), "0.00", ""),
        format!("  {:>8}  no data", "S&P500")
    );
    assert_eq!(rate_line("USD/INR", n(83.0), "83.0000"), format!("  {:>8}  {:>10}", "USD/INR", "83.0000"));
    let section = format_portfolio_section(
        &portfolio(),
        &vec![cells("-4.00"), cells("+10.00")],
        "+8.00",
        d("2024-01-21"),
        25,
    );
    assert!(section.contains(&t("  Positions: 2   Days since rebalance: 20   Total P&L: +8.00%")));
    assert!(section.contains(&t("  Next rebalance in 5 day(s).")), "{section:#?}");
}

fn quote(label: &str, latest: f64, cell: &str, change: f64, change_cell: &str) -> IndexQuote {
    IndexQuote {
        label: t(label),
        latest: n(latest),
        prior: n(100.0),
        change: n(change),
        latest_cell: t(cell),
        change_cell: t(change_cell),
    }
}

#[test]
fn the_market_context_lists_indices_and_the_rate() {
    let quotes = vec![quote("Nifty50", 98.0, "98.00", -2.0, "-2.00"), quote("S&P500", 0.0, "", 0.0, "")];
    assert_eq!(
        format_market_context(&quotes, n(83.5), "83.5000"),
        vec![
            format!("  {BOLD}Market Context{RESET}  (live — fetched now)"),
            t("  ─────────────────────────────────────────"),
            t("   Nifty50       98.00   \x1b[31m↓-2.00%\x1b[0m vs 5d ago"),
            t("    S&P500  no data"),
            t("   USD/INR     83.5000"),
            t(""),
        ]
    );
    assert_eq!(format_market_context(&Vec::new(), n(0.0), "0.0000")[2], "   USD/INR  no data");
    assert_eq!(
        format_no_portfolio(),
        vec![t("  No paper portfolio. Run --paper-update to initialise."), t("")]
    );
}

#[test]
fn the_morning_report_shows_each_pick_under_its_market() {
    let cell = || PickCells {
        score: t("71.0"),
        momentum: t("60.0"),
        fundamental: t("55.0"),
        week: None,
        month: None,
    };
    let picks = vec![score("AAPL", 71.0), score("TCS.NS", 65.0), score("MSFT", 61.0)];
    let lines = run_morning(
        &vec![t("head")],
        &picks,
        &vec![cell()],
        &vec![cell(), cell()],
        &vec![t("context")],
        &vec![t("portfolio")],
    );
    assert_eq!(lines.len(), 1 + 6 + 7 + 1 + 1 + 2);
    assert_eq!(lines[0], "head");
    assert_eq!(lines[1], format!("  {BOLD}NSE PICKS{RESET}  (1 picks)"));
    assert!(lines[5].starts_with("     1  TCS.NS"));
    assert_eq!(lines[7], format!("  {BOLD}US PICKS{RESET}  (2 picks)"));
    assert!(lines[11].starts_with("     1  AAPL"));
    assert!(lines[12].starts_with("     2  MSFT"));
    assert_eq!(lines[14], "context");
    assert_eq!(lines[15], "portfolio");
    assert_eq!(lines[16], "");
    assert!(lines[17].contains("════"));
}

#[test]
fn a_rebalance_lists_its_trades() {
    let lines = print_trade_log(
        d("2024-02-10"),
        &vec![t("OLD @ 9.00 (10 shares, P&L -4.00%)")],
        &Vec::new(),
        &vec![t("NEW @ 5.00 (3 shares)"), t("TWO @ 2.00 (7 shares)")],
        2,
        "1030",
    );
    assert_eq!(
        lines,
        vec![
            t(""),
            t("\x1b[1m\x1b[97m  REBALANCE TRADE LOG — 2024-02-10\x1b[0m"),
            t("  ─────────────────────────────────────────"),
            t("  SOLD  (1):"),
            t("    ✗  OLD @ 9.00 (10 shares, P&L -4.00%)"),
            t("  KEPT  (0):"),
            t("  BOUGHT (2):"),
            t("    ✓  NEW @ 5.00 (3 shares)"),
            t("    ✓  TWO @ 2.00 (7 shares)"),
            t("  Total positions: 2   Portfolio value: $1030"),
            t(""),
        ]
    );
}

// ── Simulation ───────────────────────────────────────────────────────────────

#[test]
fn long_names_are_shortened() {
    assert_eq!(truncate("Banks", 5), "Banks");
    assert_eq!(truncate("Insurers", 5), "Insu…");
    assert_eq!(truncate("x", 0), "…");
}

fn swap(role: Role) -> SwapEvent {
    SwapEvent {
        date: d("2024-03-01"),
        industry_code: 1,
        industry_name: t("Semiconductors"),
        role,
        outgoing: t("INTC"),
        incoming: t("NVDA"),
    }
}

#[test]
fn swaps_are_counted_by_role_and_the_latest_are_shown() {
    let none = CliReporter::print_swap_log(&Vec::new());
    assert!(none.contains(&format!("  {DIM}No swaps during simulation period.{RESET}")));
    let mut v: Vec<SwapEvent> = (0..20).map(|_| swap(Role::DeepValue)).collect();
    v.push(swap(Role::MomentumLeader));
    let lines = CliReporter::print_swap_log(&v);
    assert!(lines.contains(&format!("{BOLD}{CYAN}  SWAP LOG  (21 total){RESET}")));
    assert_eq!(lines.iter().filter(|l| l.contains("INTC")).count(), 20);
    assert!(lines.contains(&format!("  {DIM}  … and 1 earlier swaps{RESET}")));
    let count = |role: Role, k: usize| {
        format!("  {DIM}{:<20}{RESET}  {CYAN}{}{RESET}  {}", role.label(), "█".repeat(k), k)
    };
    let first = lines.iter().position(|l| *l == count(Role::DeepValue, 20)).unwrap();
    assert_eq!(lines[first + 1], count(Role::MomentumLeader, 1));
}

#[test]
fn a_simulation_report_holds_every_section_in_order() {
    let x = SimulationReport {
        config: RunConfig {
            start_date: d("2024-01-01"),
            end_date: d("2024-12-31"),
            capital: t("100000.00"),
            rebalance_freq: RebalanceFrequency::Monthly,
            active_roles: vec![Role::DeepValue, Role::MomentumLeader],
            benchmark_ticker: t("SPY"),
        },
        summary: Summary {
            total_return: n(0.1),
            alpha: n(-0.1),
            max_drawdown: n(-0.3),
            trading_days: 250,
            total_swaps: 1,
        },
        cells: SummaryCells {
            total_return: t("+10.00"),
            benchmark_return: t("+20.00"),
            annualised_return: t("+10.00"),
            alpha: t("-10.00"),
            sharpe_ratio: t("1.00"),
            sortino_ratio: t("1.50"),
            max_drawdown: t("-30.00"),
            volatility: t("15.00"),
            calmar_ratio: t("0.33"),
            annualised_alpha: t("-10.00"),
        },
        roles: vec![
            RoleRow {
                role: Role::DeepValue,
                total_return: n(-0.1),
                swap_count: 1,
                return_cell: t("-10.00"),
                weight_cell: t("50.0"),
            },
            RoleRow {
                role: Role::MomentumLeader,
                total_return: n(0.2),
                swap_count: 0,
                return_cell: t("+20.00"),
                weight_cell: t("50.0"),
            },
        ],
        industries: (0..12)
            .map(|i| IndustryRow {
                industry_name: format!("Industry {i}"),
                total_return: n(0.1),
                return_cell: t("+10.00"),
            })
            .collect(),
        drawdowns: vec![DrawdownPeriod {
            peak_date: d("2024-02-01"),
            trough_date: d("2024-03-01"),
            recovery_date: Some(d("2024-04-01")),
            drawdown_pct: n(-0.3),
            recovery_days: Some(31),
        }],
        depths: vec![t("-30.00")],
        swaps: vec![swap(Role::DeepValue)],
        baseline: Some(BaselineReport {
            n_simulations: 1000,
            beat: n(30.0),
            cells: BaselineCells {
                strategy: t("+10.00"),
                median: t("+5.00"),
                p5: t("-5.00"),
                p95: t("+15.00"),
                beat: t("30.0"),
                lo: t("-0"),
                hi: t("+0"),
            },
            marks: BarMarks { p5: 4, median: 20, p95: 44, strategy: 30 },
        }),
    };
    let lines = CliReporter::print(&x);
    let at = |s: &String| lines.iter().position(|l| l == s).unwrap_or_else(|| panic!("{s:?} is not in {lines:#?}"));
    let mut last = 0;
    for s in [
        format!("{BOLD}Period      {RESET}2024-01-01 → 2024-12-31"),
        format!("{BOLD}Capital     {RESET}$100000.00"),
        format!("{BOLD}Rebalance   {RESET}Monthly"),
        format!("{BOLD}Roles       {RESET}{}, {}", Role::DeepValue.label(), Role::MomentumLeader.label()),
        format!("{BOLD}Benchmark   {RESET}SPY"),
        format!(
            "  {BOLD}Total Return       {RESET}{GREEN}{:>8}%{RESET}      {BOLD}Benchmark Return   {RESET}{:>8}%",
            "+10.00", "+20.00"
        ),
        format!(
            "  {BOLD}Max Drawdown       {RESET}{RED}{:>8}%{RESET}      {BOLD}Volatility (ann.)  {RESET}{:>8}%",
            "-30.00", "15.00"
        ),
        format!(
            "  {BOLD}Trading Days       {RESET}{:>8}           {BOLD}Total Swaps        {RESET}{:>8}",
            250, 1
        ),
        format!(
            "  {:<20}  {GREEN}{:>9}%{RESET}  {:>9}%  {:>8}",
            Role::MomentumLeader.label(),
            "+20.00",
            "50.0",
            0
        ),
        format!(
            "  {:<20}  {RED}{:>9}%{RESET}  {:>9}%  {:>8}",
            Role::DeepValue.label(),
            "-10.00",
            "50.0",
            1
        ),
        format!("  {:<40}  {GREEN}{:>9}%{RESET}", "Industry 9", "+10.00"),
        format!("  {DIM}  ...{RESET}"),
        format!("  {:<40}  {GREEN}{:>9}%{RESET}", "Industry 11", "+10.00"),
        format!(
            "  2024-02-01  2024-03-01  {RED}{:>9}%{RESET}  {:<12}  {GREEN}Recovered{RESET}",
            "-30.00",
            format!("{:>9}d", 31)
        ),
        format!(
            "  2024-03-01  {:<26}  {:<16}  {YELLOW}{:<10}{RESET}  {GREEN}{:<10}{RESET}",
            "Semiconductors",
            Role::DeepValue.label(),
            "INTC",
            "NVDA"
        ),
        format!("{BOLD}{CYAN}  MONTE CARLO BASELINE  (1000 random portfolios){RESET}"),
        format!("  {BOLD}Random beat strategy  {RESET}{YELLOW}{:>7}% of runs{RESET}", "30.0"),
        format!("  {DIM}│ = median random   ▲ = our strategy{RESET}"),
        format!("{DIM}Generated by portfolio-sim  •  not financial advice{RESET}"),
    ] {
        let here = at(&s);
        assert!(here > last, "{s:?} comes too early");
        last = here;
    }
    let mut bar = vec![' '; 51];
    for c in bar.iter_mut().take(45).skip(4) {
        *c = '░';
    }
    bar[20] = '│';
    bar[30] = '▲';
    at(&format!("  {CYAN}{}{RESET}", bar.into_iter().collect::<String>()));
    assert!(!lines.contains(&format!("  {:<40}  {GREEN}{:>9}%{RESET}", "Industry 12", "+10.00")));
}

#[test]
fn picks_are_printed_with_their_warnings() {
    let cells = || cli::PickCells {
        score: t("70"),
        momentum: t("+10"),
        fundamental: t("+5"),
        insider: t("+0"),
        sentiment: t("-3"),
        pairs: t("+1"),
        details: (0..5).map(|_| (t("+1.0"), t("+0.100"))).collect(),
    };
    let warnings = vec![CorrelationWarning {
        ticker: t("BAC"),
        correlated_with: t("JPM"),
        correlation: n(0.9),
    }];
    let lines = CliReporter::picks_report(
        &vec![score("JPM", 70.0), score("BAC", 50.0)],
        &vec![cells(), cells()],
        &warnings,
        "2024-01-05",
        "RISK-ON",
    );
    let has = |s: &String| assert!(lines.contains(s), "{s:?} is not in {lines:#?}");
    has(&format!("{BOLD}Date        {RESET}2024-01-05    {BOLD}Universe    {RESET}2 stocks"));
    has(&format!("{BOLD}Macro       {RESET}RISK-ON"));
    let row = |ticker: &str, colour: &str, warn: &str| {
        format!(
            "  {:<4}  {:<8}  {colour}{:>5}{RESET}{:1}  {:>6}  {:>7}  {:>5}  {:>6}  {:>4}  {:<30}  {}",
            1, ticker, "70", "", "+10", "+5", "+0", "-3", "+1", "Banks", warn
        )
    };
    has(&row("JPM", GREEN, ""));
    has(&row("BAC", YELLOW, &format!("{YELLOW}⚠ HIGH CORRELATION WITH JPM{RESET}")));
    has(&format!("    Momentum:      {:>6}  (raw: {})", "+1.0", "+0.100"));
    has(&format!("    Macro filter:  {GREEN}ON{RESET}"));
    assert_eq!(CliReporter::picks_file("2024-01-05"), "picks_20240105.json");
}
