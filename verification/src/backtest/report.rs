//! The report on a backtest.
//!
//! Every amount arrives printed, without padding; where a line or its colour
//! depends on it, the number comes along.

use vstd::prelude::*;
use vstd::string::*;

use crate::backtest::book::{TradeRecord, TradeSide};
use crate::calendar;
use crate::calendar::Date;
use crate::number::Number;
use crate::sheet;
use crate::text;

verus! {

/// Most points of the equity curve, give or take a fraction.
pub const CURVE_POINTS: usize = 60;

/// The results of a backtest, printed with two decimals.
#[derive(Debug)]
pub struct ResultCells {
    pub final_value: String,
    pub total_return: String,
    pub annualised_return: String,
    pub sharpe_ratio: String,
    pub max_drawdown: String,
    pub win_rate: String,
}

/// The lines above a backtest report, with its results.
pub open spec fn head_lines(name: Seq<char>, c: ResultCells, trades: nat) -> Seq<Seq<char>> {
    seq![
        ""@,
        "\x1b[1m\x1b[97m══════════════════════════════════════════════\x1b[0m"@,
        "\x1b[1m\x1b[97m  BACKTEST REPORT — "@ + name + "\x1b[0m"@,
        "\x1b[1m\x1b[97m══════════════════════════════════════════════\x1b[0m"@,
        ""@,
        "  \x1b[1mPerformance Summary\x1b[0m"@,
        "  ─────────────────────────────────────────"@,
        "  Final Portfolio Value   "@ + text::right_aligned(c.final_value@, 14),
        "  Total Return            "@ + text::right_aligned(c.total_return@, 13) + "%"@,
        "  Annualised Return       "@ + text::right_aligned(c.annualised_return@, 13) + "%"@,
        "  Sharpe Ratio            "@ + text::right_aligned(c.sharpe_ratio@, 14),
        "  Max Drawdown            "@ + text::right_aligned(c.max_drawdown@, 13) + "%"@,
        "  Win Rate                "@ + text::right_aligned(c.win_rate@, 13) + "%"@,
        "  Trades Executed         "@ + text::right_aligned(text::decimal(trades as nat), 14),
    ]
}

/// The lines about the coefficients of the signal.
pub open spec fn ic_summary(mean: Seq<char>, n: nat) -> Seq<Seq<char>> {
    seq![
        "  Mean Signal IC          "@ + text::right_aligned(mean, 14),
        "  IC Periods              "@ + text::right_aligned(text::decimal(n as nat), 14),
    ]
}

/// The risk figures of a backtest, where they are known: beta with two decimals, the tail loss in
/// percent with two, concentration with three and the effective number of positions with one.
#[derive(Debug)]
pub struct RiskCells {
    pub beta: Option<String>,
    pub cvar_95: Option<String>,
    pub concentration: Option<(String, String)>,
    /// Share of days on which the drawdown breaker was active, in percent.
    pub breaker_days: Number,
    pub breaker_cell: String,
}

/// The line of a figure, where it is known.
pub open spec fn known(label: Seq<char>, cell: Option<String>, width: int, unit: Seq<char>) -> Seq<
    Seq<char>,
> {
    match cell {
        Some(t) => seq![label + text::right_aligned(t@, width) + unit],
        None => seq![],
    }
}

/// The lines about risk; none where nothing is known of it.
pub open spec fn risk_lines(c: RiskCells) -> Seq<Seq<char>> {
    if c.beta is None && c.cvar_95 is None && c.concentration is None {
        seq![]
    } else {
        seq![
            ""@,
            "  \x1b[1mRisk\x1b[0m"@,
            "  ─────────────────────────────────────────"@,
        ] + known("  Beta (vs. benchmark)    "@, c.beta, 14, ""@) + known(
            "  95% CVaR (daily)        "@,
            c.cvar_95,
            13,
            "%"@,
        ) + (match c.concentration {
            Some(t) => seq![
                "  Final HHI               "@ + text::right_aligned(t.0@, 14),
                "  Effective # positions   "@ + text::right_aligned(t.1@, 14),
            ],
            None => seq![],
        }) + (if (Number { bits: 0 }).lt(c.breaker_days) {
            seq![
                "  Drawdown breaker active "@ + text::right_aligned(c.breaker_cell@, 13)
                    + "%  of days"@,
            ]
        } else {
            seq![]
        })
    }
}

// ── Equity curve ─────────────────────────────────────────────────────────────

/// Days between two points of the equity curve.
pub open spec fn curve_step(n: int) -> int {
    if n / 60 > 1 {
        n / 60
    } else {
        1
    }
}

/// The days of an equity curve of `n` days that are drawn: every so many from the first on.
pub fn curve_points(n: usize) -> (r: Vec<usize>)
    ensures
        forall|k: int| 0 <= k < r@.len() ==> (#[trigger] r@[k]) == k * curve_step(n as int) && r@[k] < n,
        r@.len() * curve_step(n as int) >= n,
{
    let step: usize = if n / CURVE_POINTS > 1 {
        n / CURVE_POINTS
    } else {
        1
    };
    let mut out: Vec<usize> = Vec::new();
    let mut i: usize = 0;
    proof {
        assert(0 * step == 0) by (nonlinear_arith);
    }
    while i < n
        invariant
            step == curve_step(n as int),
            1 <= step,
            i == out@.len() * step,
            forall|k: int|
                0 <= k < out@.len() ==> (#[trigger] out@[k]) == k * step && out@[k] < n,
        decreases n - i,
    {
        out.push(i);
        proof {
            assert((out@.len() - 1) * step + step == out@.len() * step) by (nonlinear_arith);
        }
        if step > n - i {
            proof {
                assert(out@.len() * step >= n);
            }
            return out;
        }
        i = i + step;
    }
    out
}

/// The block of a height from zero to eight, full for anything higher.
pub open spec fn block(level: usize) -> char {
    if level == 0 {
        ' '
    } else if level == 1 {
        '▁'
    } else if level == 2 {
        '▂'
    } else if level == 3 {
        '▃'
    } else if level == 4 {
        '▄'
    } else if level == 5 {
        '▅'
    } else if level == 6 {
        '▆'
    } else if level == 7 {
        '▇'
    } else {
        '█'
    }
}

/// The block of a height.
fn block_of(level: usize) -> (r: char)
    ensures
        r == block(level),
{
    match level {
        0 => ' ',
        1 => '▁',
        2 => '▂',
        3 => '▃',
        4 => '▄',
        5 => '▅',
        6 => '▆',
        7 => '▇',
        _ => '█',
    }
}

/// The blocks of heights.
pub open spec fn blocks(levels: Seq<usize>) -> Seq<char> {
    levels.map_values(|n: usize| block(n))
}

/// The blocks of heights.
fn blocks_text(levels: &Vec<usize>) -> (r: String)
    ensures
        r@ == blocks(levels@),
{
    let mut s: String = String::new();
    let mut i: usize = 0;
    proof {
        assert(s@ =~= blocks(levels@).take(0));
    }
    while i < levels.len()
        invariant
            i <= levels@.len(),
            s@ == blocks(levels@).take(i as int),
        decreases levels@.len() - i,
    {
        s.push(block_of(levels[i]));
        proof {
            let all = blocks(levels@);
            assert(all.take(i + 1) =~= all.take(i as int).push(all[i as int]));
        }
        i = i + 1;
    }
    proof {
        assert(blocks(levels@).take(levels@.len() as int) =~= blocks(levels@));
    }
    s
}

/// An equity curve: the heights of its points, its ends, and its lowest and highest value printed
/// as whole numbers.
#[derive(Debug)]
pub struct Curve {
    pub levels: Vec<usize>,
    pub first: Date,
    pub last: Date,
    pub min: String,
    pub max: String,
}

/// The lines of an equity curve; none where there is no day.
pub open spec fn curve_lines(c: Option<Curve>) -> Seq<Seq<char>> {
    match c {
        Some(x) => seq![
            "  "@ + text::right_aligned(x.min@, 8) + " ┤"@ + blocks(x.levels@) + "├ "@ + x.max@,
            "  Dates: "@ + calendar::day_text(x.first.days as int) + " → "@ + calendar::day_text(
                x.last.days as int,
            ),
        ],
        None => seq![],
    }
}

// ── Trades and coefficients ──────────────────────────────────────────────────

/// The side of a trade.
pub open spec fn side_cell(side: TradeSide) -> Seq<char> {
    match side {
        TradeSide::Buy => "\x1b[32mBUY \x1b[0m"@,
        TradeSide::Sell => "\x1b[31mSELL\x1b[0m"@,
    }
}

/// The side of a trade.
fn side_text(side: TradeSide) -> (r: &'static str)
    ensures
        r@ == side_cell(side),
{
    match side {
        TradeSide::Buy => "\x1b[32mBUY \x1b[0m",
        TradeSide::Sell => "\x1b[31mSELL\x1b[0m",
    }
}

/// The amounts of a trade, printed with two decimals.
#[derive(Debug)]
pub struct TradeCells {
    pub shares: String,
    pub price: String,
}

/// The row of a trade.
pub open spec fn trade_row(t: TradeRecord, c: TradeCells) -> Seq<char> {
    "  "@ + calendar::day_text(t.date.days as int) + "  "@ + text::right_aligned(t.ticker@, 6) + "  "@ + side_cell(t.side) + "  "@ + text::right_aligned(c.shares@, 10) + "  "@ + text::right_aligned(c.price@, 9)
}

/// The first of the last twenty trades.
pub open spec fn first_trade(n: int) -> int {
    if n > 20 {
        n - 20
    } else {
        0
    }
}

/// The rows of the trades from `from` to `to`.
pub open spec fn trade_rows(s: Seq<TradeRecord>, c: Seq<TradeCells>, from: int, to: int) -> Seq<
    Seq<char>,
> {
    Seq::new((to - from) as nat, |i: int| trade_row(s[from + i], c[from + i]))
}

/// The row of a trade, as text.
fn trade_text(t: &TradeRecord, c: &TradeCells) -> (r: String)
    requires
        t.date.in_range(),
    ensures
        r@ == trade_row(*t, *c),
{
    let mut s: String = "  ".to_owned();
    s.append(t.date.text().as_str());
    s.append("  ");
    s.append(text::pad_left(t.ticker.as_str(), 6).as_str());
    s.append("  ");
    s.append(side_text(t.side));
    s.append("  ");
    s.append(text::pad_left(c.shares.as_str(), 10).as_str());
    s.append("  ");
    s.append(text::pad_left(c.price.as_str(), 9).as_str());
    s
}

/// Green for a coefficient above zero, red for another.
pub open spec fn ic_colour(ic: Number) -> Seq<char> {
    if (Number { bits: 0 }).lt(ic) {
        "\x1b[32m"@
    } else {
        "\x1b[31m"@
    }
}

/// The colour of a coefficient.
fn colour_of_ic(ic: Number) -> (r: &'static str)
    ensures
        r@ == ic_colour(ic),
{
    if Number::zero().is_lt(ic) {
        "\x1b[32m"
    } else {
        "\x1b[31m"
    }
}

/// The row of a coefficient, printed with its sign and four decimals.
pub open spec fn ic_row(i: int, ic: Number, cell: Seq<char>) -> Seq<char> {
    "  Period "@ + text::right_aligned(text::decimal((i + 1) as nat), 3) + ":  "@ + ic_colour(ic) + cell + "\x1b[0m"@
}

/// The row of a coefficient, as text.
fn ic_text(i: usize, ic: Number, cell: &str) -> (r: String)
    requires
        i < usize::MAX,
    ensures
        r@ == ic_row(i as int, ic, cell@),
{
    let mut s: String = "  Period ".to_owned();
    s.append(text::pad_left(text::decimal_text(i as u64 + 1).as_str(), 3).as_str());
    s.append(":  ");
    s.append(colour_of_ic(ic));
    s.append(cell);
    s.append("\x1b[0m");
    s
}

/// The rows of the first `n` coefficients.
pub open spec fn ic_rows(ics: Seq<Number>, cells: Seq<String>, n: int) -> Seq<Seq<char>> {
    Seq::new(n as nat, |i: int| ic_row(i, ics[i], cells[i]@))
}

/// The lines above the equity curve.
pub open spec fn curve_head() -> Seq<Seq<char>> {
    seq![
        ""@,
        "  \x1b[1mEquity Curve (monthly samples)\x1b[0m"@,
        "  ─────────────────────────────────────────"@,
    ]
}

/// The lines above the trades.
pub open spec fn trade_head() -> Seq<Seq<char>> {
    seq![
        ""@,
        "  \x1b[1mRecent Trades (last 20)\x1b[0m"@,
        "  ─────────────────────────────────────────"@,
        "        Date  Ticker  Side      Shares      Price"@,
        "  ─────────────────────────────────────────"@,
    ]
}

/// The lines above the coefficients.
pub open spec fn ic_head() -> Seq<Seq<char>> {
    seq![
        ""@,
        "  \x1b[1mSignal IC Per Rebalance Period\x1b[0m"@,
        "  ─────────────────────────────────────────"@,
    ]
}

/// Everything that a backtest report shows.
#[derive(Debug)]
pub struct BacktestReport {
    pub cells: ResultCells,
    pub risk: RiskCells,
    pub curve: Option<Curve>,
    pub trades: Vec<TradeRecord>,
    pub trade_cells: Vec<TradeCells>,
    /// The coefficient of the signal in each period.
    pub ics: Vec<Number>,
    pub ic_cells: Vec<String>,
    /// Their mean, printed with four decimals.
    pub mean_ic: String,
}

impl BacktestReport {
    /// Every date can be printed, and every amount has been.
    pub open spec fn printable(&self) -> bool {
        &&& self.trade_cells@.len() == self.trades@.len()
        &&& self.ic_cells@.len() == self.ics@.len()
        &&& forall|i: int|
            0 <= i < self.trades@.len() ==> (#[trigger] self.trades@[i]).date.in_range()
        &&& self.curve matches Some(c) ==> c.first.in_range() && c.last.in_range()
    }
}

/// The lines of a backtest report.
pub open spec fn backtest_lines(x: BacktestReport, name: Seq<char>) -> Seq<Seq<char>> {
    let n = x.trades@.len() as int;
    let k = x.ics@.len();
    head_lines(name, x.cells, x.trades@.len()) + (if k > 0 {
        ic_summary(x.mean_ic@, k)
    } else {
        seq![]
    }) + risk_lines(x.risk) + curve_head() + curve_lines(x.curve) + trade_head() + trade_rows(
        x.trades@,
        x.trade_cells@,
        first_trade(n),
        n,
    ) + (if k > 0 {
        ic_head() + ic_rows(x.ics@, x.ic_cells@, k as int)
    } else {
        seq![]
    }) + seq![""@]
}

/// Adds the lines above a backtest report.
fn put_head(lines: &mut Vec<String>, name: &str, c: &ResultCells, trades: usize)
    ensures
        text::texts(final(lines)@) == text::texts(old(lines)@) + head_lines(name@, *c, trades as nat),
{
    let ghost before = text::texts(lines@);
    sheet::put(lines, "");
    sheet::put(lines, "\x1b[1m\x1b[97m══════════════════════════════════════════════\x1b[0m");
    sheet::put_three(lines, "\x1b[1m\x1b[97m  BACKTEST REPORT — ", name, "\x1b[0m");
    sheet::put(lines, "\x1b[1m\x1b[97m══════════════════════════════════════════════\x1b[0m");
    sheet::put(lines, "");
    sheet::put(lines, "  \x1b[1mPerformance Summary\x1b[0m");
    sheet::put(lines, "  ─────────────────────────────────────────");
    sheet::put_two(lines, "  Final Portfolio Value   ", text::pad_left(c.final_value.as_str(), 14).as_str());
    sheet::put_three(lines, "  Total Return            ", text::pad_left(c.total_return.as_str(), 13).as_str(), "%");
    sheet::put_three(lines, "  Annualised Return       ", text::pad_left(c.annualised_return.as_str(), 13).as_str(), "%");
    sheet::put_two(lines, "  Sharpe Ratio            ", text::pad_left(c.sharpe_ratio.as_str(), 14).as_str());
    sheet::put_three(lines, "  Max Drawdown            ", text::pad_left(c.max_drawdown.as_str(), 13).as_str(), "%");
    sheet::put_three(lines, "  Win Rate                ", text::pad_left(c.win_rate.as_str(), 13).as_str(), "%");
    sheet::put_two(lines, "  Trades Executed         ", text::pad_left(text::decimal_text(trades as u64).as_str(), 14).as_str());
    proof {
        assert(text::texts(lines@) =~= before + head_lines(name@, *c, trades as nat));
    }
}

/// Adds the lines about the coefficients.
fn put_ic_summary(lines: &mut Vec<String>, mean: &str, n: usize)
    ensures
        text::texts(final(lines)@) == text::texts(old(lines)@) + ic_summary(mean@, n as nat),
{
    let ghost before = text::texts(lines@);
    sheet::put_two(lines, "  Mean Signal IC          ", text::pad_left(mean, 14).as_str());
    sheet::put_two(lines, "  IC Periods              ", text::pad_left(text::decimal_text(n as u64).as_str(), 14).as_str());
    proof {
        assert(text::texts(lines@) =~= before + ic_summary(mean@, n as nat));
    }
}

/// Adds a figure, where it is known.
fn put_known(lines: &mut Vec<String>, label: &str, cell: &Option<String>, width: usize, unit: &str)
    ensures
        text::texts(final(lines)@) == text::texts(old(lines)@) + known(
            label@,
            *cell,
            width as int,
            unit@,
        ),
{
    let ghost before = text::texts(lines@);
    match cell {
        Some(t) => {
            sheet::put_three(lines, label, text::pad_left(t.as_str(), width).as_str(), unit);
        },
        None => {},
    }
    proof {
        assert(text::texts(lines@) =~= before + known(label@, *cell, width as int, unit@));
    }
}

/// Adds the lines about risk.
fn put_risk(lines: &mut Vec<String>, c: &RiskCells)
    ensures
        text::texts(final(lines)@) == text::texts(old(lines)@) + risk_lines(*c),
{
    let ghost before = text::texts(lines@);
    if c.beta.is_some() || c.cvar_95.is_some() || c.concentration.is_some() {
        sheet::put(lines, "");
        sheet::put(lines, "  \x1b[1mRisk\x1b[0m");
        sheet::put(lines, "  ─────────────────────────────────────────");
        put_known(lines, "  Beta (vs. benchmark)    ", &c.beta, 14, "");
        put_known(lines, "  95% CVaR (daily)        ", &c.cvar_95, 13, "%");
        match &c.concentration {
            Some(t) => {
                sheet::put_two(
                    lines,
                    "  Final HHI               ",
                    text::pad_left(t.0.as_str(), 14).as_str(),
                );
                sheet::put_two(
                    lines,
                    "  Effective # positions   ",
                    text::pad_left(t.1.as_str(), 14).as_str(),
                );
            },
            None => {},
        }
        if Number::zero().is_lt(c.breaker_days) {
            sheet::put_three(
                lines,
                "  Drawdown breaker active ",
                text::pad_left(c.breaker_cell.as_str(), 13).as_str(),
                "%  of days",
            );
        }
    }
    proof {
        assert(text::texts(lines@) =~= before + risk_lines(*c));
    }
}

/// Adds an equity curve.
pub fn print_equity_sparkline(lines: &mut Vec<String>, c: &Option<Curve>)
    requires
        c matches Some(x) ==> x.first.in_range() && x.last.in_range(),
    ensures
        text::texts(final(lines)@) == text::texts(old(lines)@) + curve_lines(*c),
{
    let ghost before = text::texts(lines@);
    match c {
        Some(x) => {
            let mut s: String = "  ".to_owned();
            s.append(text::pad_left(x.min.as_str(), 8).as_str());
            s.append(" ┤");
            s.append(blocks_text(&x.levels).as_str());
            s.append("├ ");
            s.append(x.max.as_str());
            sheet::put(lines, s.as_str());
            let mut d: String = "  Dates: ".to_owned();
            d.append(x.first.text().as_str());
            d.append(" → ");
            d.append(x.last.text().as_str());
            sheet::put(lines, d.as_str());
        },
        None => {},
    }
    proof {
        assert(text::texts(lines@) =~= before + curve_lines(*c));
    }
}

/// Adds the lines above the equity curve.
fn put_curve_head(lines: &mut Vec<String>)
    ensures
        text::texts(final(lines)@) == text::texts(old(lines)@) + curve_head(),
{
    let ghost before = text::texts(lines@);
    sheet::put(lines, "");
    sheet::put(lines, "  \x1b[1mEquity Curve (monthly samples)\x1b[0m");
    sheet::put(lines, "  ─────────────────────────────────────────");
    proof {
        assert(text::texts(lines@) =~= before + curve_head());
    }
}

/// Adds the lines above the trades.
fn put_trade_head(lines: &mut Vec<String>)
    ensures
        text::texts(final(lines)@) == text::texts(old(lines)@) + trade_head(),
{
    let ghost before = text::texts(lines@);
    sheet::put(lines, "");
    sheet::put(lines, "  \x1b[1mRecent Trades (last 20)\x1b[0m");
    sheet::put(lines, "  ─────────────────────────────────────────");
    sheet::put(lines, "        Date  Ticker  Side      Shares      Price");
    sheet::put(lines, "  ─────────────────────────────────────────");
    proof {
        assert(text::texts(lines@) =~= before + trade_head());
    }
}

/// Adds the lines above the coefficients.
fn put_ic_head(lines: &mut Vec<String>)
    ensures
        text::texts(final(lines)@) == text::texts(old(lines)@) + ic_head(),
{
    let ghost before = text::texts(lines@);
    sheet::put(lines, "");
    sheet::put(lines, "  \x1b[1mSignal IC Per Rebalance Period\x1b[0m");
    sheet::put(lines, "  ─────────────────────────────────────────");
    proof {
        assert(text::texts(lines@) =~= before + ic_head());
    }
}

/// The report on a backtest.
pub fn print_backtest_report(x: &BacktestReport, spec_name: &str) -> (r: Vec<String>)
    requires
        x.printable(),
    ensures
        text::texts(r@) == backtest_lines(*x, spec_name@),
{
    let mut lines: Vec<String> = Vec::new();
    let n: usize = x.trades.len();
    let k: usize = x.ics.len();
    put_head(&mut lines, spec_name, &x.cells, n);
    if k > 0 {
        put_ic_summary(&mut lines, x.mean_ic.as_str(), k);
    }
    put_risk(&mut lines, &x.risk);
    put_curve_head(&mut lines);
    print_equity_sparkline(&mut lines, &x.curve);
    put_trade_head(&mut lines);
    let ghost above = text::texts(lines@);
    proof {
        assert(above =~= head_lines(spec_name@, x.cells, x.trades@.len()) + (if k > 0 {
            ic_summary(x.mean_ic@, k as nat)
        } else {
            seq![]
        }) + risk_lines(x.risk) + curve_head() + curve_lines(x.curve) + trade_head());
    }
    let from: usize = if n > 20 {
        n - 20
    } else {
        0
    };
    let mut i: usize = from;
    proof {
        assert(above =~= above + trade_rows(x.trades@, x.trade_cells@, from as int, from as int));
    }
    while i < n
        invariant
            from <= i <= n == x.trades@.len(),
            x.printable(),
            text::texts(lines@) == above + trade_rows(
                x.trades@,
                x.trade_cells@,
                from as int,
                i as int,
            ),
        decreases n - i,
    {
        sheet::put(&mut lines, trade_text(&x.trades[i], &x.trade_cells[i]).as_str());
        proof {
            let shorter = trade_rows(x.trades@, x.trade_cells@, from as int, i as int);
            let longer = trade_rows(x.trades@, x.trade_cells@, from as int, i + 1);
            assert(above + longer =~= (above + shorter).push(
                trade_row(x.trades@[i as int], x.trade_cells@[i as int]),
            ));
        }
        i = i + 1;
    }
    if k > 0 {
        put_ic_head(&mut lines);
        let ghost head = text::texts(lines@);
        let mut j: usize = 0;
        proof {
            assert(head =~= head + ic_rows(x.ics@, x.ic_cells@, 0));
        }
        while j < k
            invariant
                j <= k == x.ics@.len(),
                x.printable(),
                text::texts(lines@) == head + ic_rows(x.ics@, x.ic_cells@, j as int),
            decreases k - j,
        {
            sheet::put(&mut lines, ic_text(j, x.ics[j], x.ic_cells[j].as_str()).as_str());
            proof {
                let shorter = ic_rows(x.ics@, x.ic_cells@, j as int);
                let longer = ic_rows(x.ics@, x.ic_cells@, j + 1);
                assert(head + longer =~= (head + shorter).push(
                    ic_row(j as int, x.ics@[j as int], x.ic_cells@[j as int]@),
                ));
            }
            j = j + 1;
        }
    }
    sheet::put(&mut lines, "");
    proof {
        assert(text::texts(lines@) =~= backtest_lines(*x, spec_name@));
    }
    lines
}

// ── What the report says ─────────────────────────────────────────────────────

/// Each result stands under its own label.
pub proof fn results_stand_under_their_labels(x: BacktestReport, name: &str, r: Vec<String>)
    requires
        x.printable(),
        call_ensures(print_backtest_report, (&x, name), r),
    ensures
        sheet::has_line(
            r@,
            "  Final Portfolio Value   "@ + text::right_aligned(x.cells.final_value@, 14),
        ),
        sheet::has_line(
            r@,
            "  Total Return            "@ + text::right_aligned(x.cells.total_return@, 13) + "%"@,
        ),
        sheet::has_line(
            r@,
            "  Annualised Return       "@ + text::right_aligned(x.cells.annualised_return@, 13)
                + "%"@,
        ),
        sheet::has_line(
            r@,
            "  Sharpe Ratio            "@ + text::right_aligned(x.cells.sharpe_ratio@, 14),
        ),
        sheet::has_line(
            r@,
            "  Max Drawdown            "@ + text::right_aligned(x.cells.max_drawdown@, 13) + "%"@,
        ),
        sheet::has_line(
            r@,
            "  Win Rate                "@ + text::right_aligned(x.cells.win_rate@, 13) + "%"@,
        ),
        sheet::has_line(
            r@,
            "  Trades Executed         "@ + text::right_aligned(
                text::decimal(x.trades@.len() as nat),
                14,
            ),
        ),
        x.ics@.len() > 0 ==> sheet::has_line(
            r@,
            "  Mean Signal IC          "@ + text::right_aligned(x.mean_ic@, 14),
        ) && sheet::has_line(
            r@,
            "  IC Periods              "@ + text::right_aligned(
                text::decimal(x.ics@.len() as nat),
                14,
            ),
        ),
{
    let all = text::texts(r@);
    let top = head_lines(name@, x.cells, x.trades@.len());
    assert(all == backtest_lines(x, name@));
    assert(all.len() == r@.len());
    assert(top.len() == 14);
    assert forall|k: int| 0 <= k < 14 implies #[trigger] all[k] == top[k] by {}
    sheet::lemma_has_line(r@, 7);
    sheet::lemma_has_line(r@, 8);
    sheet::lemma_has_line(r@, 9);
    sheet::lemma_has_line(r@, 10);
    sheet::lemma_has_line(r@, 11);
    sheet::lemma_has_line(r@, 12);
    sheet::lemma_has_line(r@, 13);
    assert(all[7] == top[7] && all[8] == top[8] && all[9] == top[9] && all[10] == top[10]);
    assert(all[11] == top[11] && all[12] == top[12] && all[13] == top[13]);
    if x.ics@.len() > 0 {
        let more = ic_summary(x.mean_ic@, x.ics@.len());
        assert(all[14] == more[0] && all[15] == more[1]);
        sheet::lemma_has_line(r@, 14);
        sheet::lemma_has_line(r@, 15);
    }
}

/// Each of the last twenty trades has a row with its own date, ticker, side, shares and price, the
/// rows following each other in the order of the trades.
pub proof fn the_last_twenty_trades_are_listed(x: BacktestReport, name: &str, r: Vec<String>) -> (at:
    int)
    requires
        x.printable(),
        call_ensures(print_backtest_report, (&x, name), r),
    ensures
        forall|i: int|
            0 <= i < x.trades@.len() && i + 20 >= x.trades@.len() ==> 0 <= at + i < r@.len() && {
                let t = #[trigger] x.trades@[i];
                let c = x.trade_cells@[i];
                r@[at + i]@ == "  "@ + calendar::day_text(t.date.days as int) + "  "@
                    + text::right_aligned(t.ticker@, 6) + "  "@ + (if t.side == TradeSide::Buy {
                    "\x1b[32mBUY \x1b[0m"@
                } else {
                    "\x1b[31mSELL\x1b[0m"@
                }) + "  "@ + text::right_aligned(c.shares@, 10) + "  "@ + text::right_aligned(
                    c.price@,
                    9,
                )
            },
{
    let all = text::texts(r@);
    let n = x.trades@.len() as int;
    let k = x.ics@.len();
    let front = head_lines(name@, x.cells, x.trades@.len()) + (if k > 0 {
        ic_summary(x.mean_ic@, k)
    } else {
        seq![]
    }) + risk_lines(x.risk) + curve_head() + curve_lines(x.curve) + trade_head();
    let rows = trade_rows(x.trades@, x.trade_cells@, first_trade(n), n);
    let back = (if k > 0 {
        ic_head() + ic_rows(x.ics@, x.ic_cells@, k as int)
    } else {
        seq![]
    }) + seq![""@];
    assert(all =~= front + rows + back);
    assert(all.len() == r@.len());
    let at = front.len() - first_trade(n);
    assert forall|i: int| 0 <= i < n && i + 20 >= n implies 0 <= at + i < r@.len() && {
        let t = #[trigger] x.trades@[i];
        let c = x.trade_cells@[i];
        r@[at + i]@ == "  "@ + calendar::day_text(t.date.days as int) + "  "@ + text::right_aligned(
            t.ticker@,
            6,
        ) + "  "@ + (if t.side == TradeSide::Buy {
            "\x1b[32mBUY \x1b[0m"@
        } else {
            "\x1b[31mSELL\x1b[0m"@
        }) + "  "@ + text::right_aligned(c.shares@, 10) + "  "@ + text::right_aligned(c.price@, 9)
    } by {
        let j = i - first_trade(n);
        assert(rows[j] == trade_row(x.trades@[i], x.trade_cells@[i]));
        assert(all[at + i] == rows[j]);
        assert(all[at + i] == r@[at + i]@);
    }
    at
}

/// A curve is drawn from its first day on at even steps, every day of a short one and no more than
/// a hundred and twenty days of a long one.
pub proof fn curves_are_sampled_evenly(n: usize, r: Vec<usize>, k: int)
    requires
        call_ensures(curve_points, (n,), r),
    ensures
        n > 0 ==> r@.len() > 0 && r@[0] == 0,
        0 < n < 120 ==> r@.len() == n,
        r@.len() <= 120,
        n >= 60 ==> r@.len() >= 60,
        0 < k < r@.len() - 1 ==> r@[k + 1] - r@[k] == r@[k] - r@[k - 1] && r@[k] < r@[k + 1],
        0 <= k < r@.len() ==> r@[k] < n,
{
    let s = curve_step(n as int);
    let m = r@.len() as int;
    assert(s >= 1);
    if n > 0 {
        assert(m > 0) by (nonlinear_arith)
            requires
                m >= 0,
                m * s >= n,
                n > 0,
        ;
        assert(r@[0] == 0 * s);
        assert(r@[m - 1] == (m - 1) * s);
        assert((m - 1) * s < n);
        assert(60 * (n as int / 60) <= n < 60 * (n as int / 60) + 60);
        if n < 120 {
            assert(s == 1);
        } else {
            assert(m <= 120) by (nonlinear_arith)
                requires
                    (m - 1) * s < n,
                    n < 60 * s + 60,
                    s >= 1,
            ;
        }
        if n >= 60 {
            assert(s == n as int / 60);
            assert(m >= 60) by (nonlinear_arith)
                requires
                    m * s >= n,
                    n >= 60 * s,
                    s >= 1,
            ;
        }
    } else if m > 0 {
        assert(r@[0] < n);
    }
    if 0 < k < m - 1 {
        assert(r@[k + 1] == (k + 1) * s && r@[k] == k * s && r@[k - 1] == (k - 1) * s);
        assert((k + 1) * s - k * s == s && k * s - (k - 1) * s == s) by (nonlinear_arith);
    }
}

/// A curve is drawn between its lowest and its highest value, one block to a point: nothing for the
/// lowest height and a block of as many eighths as the height for the others.
pub proof fn curves_are_drawn_in_eighths(lines: &mut Vec<String>, c: Curve, k: int) -> (drawn: Seq<
    char,
>)
    requires
        c.first.in_range(),
        c.last.in_range(),
        call_ensures(print_equity_sparkline, (lines, &Some(c)), ()),
    ensures
        final(lines)@.len() == old(lines)@.len() + 2,
        final(lines)@[old(lines)@.len() as int]@ == "  "@ + text::right_aligned(c.min@, 8) + " ┤"@
            + drawn + "├ "@ + c.max@,
        final(lines)@[old(lines)@.len() as int + 1]@ == "  Dates: "@ + calendar::day_text(
            c.first.days as int,
        ) + " → "@ + calendar::day_text(c.last.days as int),
        drawn.len() == c.levels@.len(),
        0 <= k < drawn.len() && c.levels@[k] == 0 ==> drawn[k] == ' ',
        0 <= k < drawn.len() && 1 <= c.levels@[k] <= 8 ==> drawn[k] as int == 0x2580 + c.levels@[k],
        0 <= k < drawn.len() && c.levels@[k] > 8 ==> drawn[k] as int == 0x2588,
{
    let before = text::texts(old(lines)@);
    let after = text::texts(final(lines)@);
    let n = old(lines)@.len() as int;
    let two = curve_lines(Some(c));
    assert(after == before + two);
    assert(before.len() == n);
    assert(after.len() == final(lines)@.len());
    assert(after[n] == two[0] && after[n + 1] == two[1]);
    assert(after[n] == final(lines)@[n]@ && after[n + 1] == final(lines)@[n + 1]@);
    blocks(c.levels@)
}

} // verus!
