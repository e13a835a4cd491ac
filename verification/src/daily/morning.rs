//! The morning report: the day's picks by market, the market context and the
//! state of the paper portfolio.

use vstd::prelude::*;
use vstd::string::*;

use crate::backtest::schedule;
use crate::calendar;
use crate::calendar::Date;
use crate::data::source::PriceBar;
use crate::number::Number;
use crate::order;
use crate::paper_trading::engine::{PaperPortfolio, Position};
use crate::paper_trading::report;
use crate::paper_trading::report::PositionCells;
use crate::sheet;
use crate::signals;
use crate::signals::{ScoreView, SignalScore};
use crate::text;

verus! {

/// Encoding of 70, the score from which a pick is shown in green.
pub const GREEN_SCORE: u64 = 0x4051_8000_0000_0000;

/// Encoding of 60, the score from which a pick is shown in yellow.
pub const YELLOW_SCORE: u64 = 0x404E_0000_0000_0000;

/// Days of bars that recent returns are read from.
pub const RETURN_LOOKBACK_DAYS: i64 = 35;

/// The picks listed on the NSE.
pub open spec fn nse_picks(s: Seq<ScoreView>) -> Seq<ScoreView> {
    s.filter(|x: ScoreView| schedule::nse_listed(x.ticker))
}

/// The picks listed elsewhere.
pub open spec fn us_picks(s: Seq<ScoreView>) -> Seq<ScoreView> {
    s.filter(|x: ScoreView| !schedule::nse_listed(x.ticker))
}

/// Parts the picks by market: those listed on the NSE, and the rest.
pub fn split_by_market(picks: &Vec<SignalScore>) -> (r: (Vec<SignalScore>, Vec<SignalScore>))
    ensures
        signals::views(r.0@) == nse_picks(signals::views(picks@)),
        signals::views(r.1@) == us_picks(signals::views(picks@)),
{
    let ghost all = signals::views(picks@);
    let ghost here = |x: ScoreView| schedule::nse_listed(x.ticker);
    let ghost there = |x: ScoreView| !schedule::nse_listed(x.ticker);
    let mut nse: Vec<SignalScore> = Vec::new();
    let mut us: Vec<SignalScore> = Vec::new();
    let mut i: usize = 0;
    proof {
        reveal(Seq::filter);
        assert(all.take(0) =~= seq![]);
        assert(signals::views(nse@) =~= all.take(0).filter(here));
        assert(signals::views(us@) =~= all.take(0).filter(there));
    }
    while i < picks.len()
        invariant
            i <= picks.len(),
            all == signals::views(picks@),
            here == (|x: ScoreView| schedule::nse_listed(x.ticker)),
            there == (|x: ScoreView| !schedule::nse_listed(x.ticker)),
            signals::views(nse@) == all.take(i as int).filter(here),
            signals::views(us@) == all.take(i as int).filter(there),
        decreases picks.len() - i,
    {
        let ghost before = (nse@, us@);
        proof {
            reveal(Seq::filter);
            assert(all.take(i + 1).drop_last() =~= all.take(i as int));
            assert(all.take(i + 1).last() == picks@[i as int]@);
        }
        if text::ends_with(picks[i].ticker.as_str(), ".NS") {
            nse.push(picks[i].clone());
            proof {
                assert(signals::views(nse@) =~= signals::views(before.0).push(picks@[i as int]@));
            }
        } else {
            us.push(picks[i].clone());
            proof {
                assert(signals::views(us@) =~= signals::views(before.1).push(picks@[i as int]@));
            }
        }
        i = i + 1;
    }
    proof {
        assert(all.take(picks.len() as int) =~= all);
    }
    (nse, us)
}

/// Every pick is shown once: under the NSE or under the rest.
pub proof fn every_pick_has_one_market(s: Seq<ScoreView>)
    ensures
        nse_picks(s).len() + us_picks(s).len() == s.len(),
    decreases s.len(),
{
    reveal(Seq::filter);
    if s.len() > 0 {
        every_pick_has_one_market(s.drop_last());
    }
}

/// The two closes that a return over `n` bars is read from: that of the `n`-th last bar and the
/// latest, where there are so many bars and both are prices.
pub open spec fn return_ends(bars: Seq<PriceBar>, n: int) -> Option<(Number, Number)> {
    let latest = bars.last().adj_close;
    let prior = bars[bars.len() - n].adj_close;
    if bars.len() > 0 && bars.len() >= n && !latest.le(Number { bits: 0 }) && (Number {
        bits: 0,
    }).lt(prior) {
        Some((prior, latest))
    } else {
        None
    }
}

/// The closes that the returns over a week, five days back, and over a month, twenty days back,
/// are read from.
pub fn recent_returns(bars: &Vec<PriceBar>) -> (r: (
    Option<(Number, Number)>,
    Option<(Number, Number)>,
))
    ensures
        r.0 == return_ends(bars@, 6),
        r.1 == return_ends(bars@, 21),
{
    let n: usize = bars.len();
    if n == 0 {
        return (None, None);
    }
    let latest: Number = bars[n - 1].adj_close;
    if latest.is_le(Number::zero()) {
        return (None, None);
    }
    let week: Option<(Number, Number)> = if n >= 6 && Number::zero().is_lt(bars[n - 6].adj_close) {
        Some((bars[n - 6].adj_close, latest))
    } else {
        None
    };
    let month: Option<(Number, Number)> = if n >= 21 && Number::zero().is_lt(
        bars[n - 21].adj_close,
    ) {
        Some((bars[n - 21].adj_close, latest))
    } else {
        None
    };
    (week, month)
}

/// A pick's figures, printed with one decimal.
#[derive(Debug)]
pub struct PickCells {
    pub score: String,
    pub momentum: String,
    pub fundamental: String,
    /// Return over a week, printed with its sign; nothing where it is not known.
    pub week: Option<String>,
    pub month: Option<String>,
}

/// A return, or that it is not known.
pub open spec fn return_cell(printed: Option<String>) -> Seq<char> {
    match printed {
        Some(s) => s@ + "%"@,
        None => "   n/a"@,
    }
}

/// The colour of a score.
pub open spec fn score_colour(score: Number) -> Seq<char> {
    if (Number { bits: GREEN_SCORE }).le(score) {
        "\x1b[32m"@
    } else if (Number { bits: YELLOW_SCORE }).le(score) {
        "\x1b[33m"@
    } else {
        "\x1b[0m"@
    }
}

/// The row of a pick.
pub open spec fn pick_row(rank: int, p: ScoreView, c: PickCells) -> Seq<char> {
    "  "@ + text::right_aligned(text::decimal(rank as nat), 4) + "  "@ + text::left_aligned(
        p.ticker,
        14,
    ) + "  "@ + score_colour(p.composite) + text::right_aligned(c.score@, 6) + "\x1b[0m  "@
        + text::right_aligned(c.momentum@, 8) + "  "@ + text::right_aligned(c.fundamental@, 8)
        + "  "@ + text::right_aligned(return_cell(c.week), 7) + "  "@ + text::right_aligned(
        return_cell(c.month),
        7,
    ) + "  "@ + p.industry
}

/// The section of a market's picks.
pub open spec fn picks_section(
    title: Seq<char>,
    picks: Seq<ScoreView>,
    cells: Seq<PickCells>,
) -> Seq<Seq<char>> {
    seq![
        "  \x1b[1m"@ + title + "\x1b[0m  ("@ + text::decimal(picks.len()) + " picks)"@,
        "  ─────────────────────────────────────────────────────────────────────────────────────────────"@,
    ] + (if picks.len() == 0 {
        seq!["  No picks cleared the score threshold."@]
    } else {
        seq![
            "  Rank  Ticker           Score      Mom%     Fund%      1W%      1M%  Industry"@,
            "  ─────────────────────────────────────────────────────────────────────────────────────────────"@,
        ] + Seq::new(picks.len(), |i: int| pick_row(i + 1, picks[i], cells[i]))
    }) + seq![""@]
}

/// A return as a cell.
fn return_text(printed: &Option<String>) -> (r: String)
    ensures
        r@ == return_cell(*printed),
{
    match printed {
        Some(s) => {
            let mut t: String = s.clone();
            t.append("%");
            t
        },
        None => "   n/a".to_owned(),
    }
}

/// The row of a pick, as text.
fn row_text(rank: usize, p: &SignalScore, c: &PickCells) -> (r: String)
    ensures
        r@ == pick_row(rank as int, p@, *c),
{
    let mut s: String = "  ".to_owned();
    s.append(text::pad_left(text::decimal_text(rank as u64).as_str(), 4).as_str());
    s.append("  ");
    s.append(text::pad_right(p.ticker.as_str(), 14).as_str());
    s.append("  ");
    let green: Number = Number { bits: GREEN_SCORE };
    let yellow: Number = Number { bits: YELLOW_SCORE };
    if green.is_le(p.composite) {
        s.append("\x1b[32m");
    } else if yellow.is_le(p.composite) {
        s.append("\x1b[33m");
    } else {
        s.append("\x1b[0m");
    }
    s.append(text::pad_left(c.score.as_str(), 6).as_str());
    s.append("\x1b[0m  ");
    s.append(text::pad_left(c.momentum.as_str(), 8).as_str());
    s.append("  ");
    s.append(text::pad_left(c.fundamental.as_str(), 8).as_str());
    s.append("  ");
    s.append(text::pad_left(return_text(&c.week).as_str(), 7).as_str());
    s.append("  ");
    s.append(text::pad_left(return_text(&c.month).as_str(), 7).as_str());
    s.append("  ");
    s.append(p.industry.as_str());
    s
}

/// The section of a market's picks.
pub fn format_picks_section(title: &str, picks: &Vec<SignalScore>, cells: &Vec<PickCells>) -> (r:
    Vec<String>)
    requires
        cells@.len() == picks@.len(),
    ensures
        text::texts(r@) == picks_section(title@, signals::views(picks@), cells@),
{
    let ghost seen = signals::views(picks@);
    let mut lines: Vec<String> = Vec::new();
    let mut head: String = "  \x1b[1m".to_owned();
    head.append(title);
    head.append("\x1b[0m  (");
    head.append(text::decimal_text(picks.len() as u64).as_str());
    head.append(" picks)");
    sheet::put(&mut lines, head.as_str());
    sheet::put(
        &mut lines,
        "  ─────────────────────────────────────────────────────────────────────────────────────────────",
    );
    let ghost part1 = seq![
        "  \x1b[1m"@ + title@ + "\x1b[0m  ("@ + text::decimal(picks@.len()) + " picks)"@,
        "  ─────────────────────────────────────────────────────────────────────────────────────────────"@,
    ];
    proof {
        assert(text::texts(lines@) =~= part1);
    }
    if picks.len() == 0 {
        sheet::put(&mut lines, "  No picks cleared the score threshold.");
        sheet::put(&mut lines, "");
        proof {
            assert(text::texts(lines@) =~= picks_section(title@, seen, cells@));
        }
        return lines;
    }
    sheet::put(
        &mut lines,
        "  Rank  Ticker           Score      Mom%     Fund%      1W%      1M%  Industry",
    );
    sheet::put(
        &mut lines,
        "  ─────────────────────────────────────────────────────────────────────────────────────────────",
    );
    let ghost part2 = seq![
        "  Rank  Ticker           Score      Mom%     Fund%      1W%      1M%  Industry"@,
        "  ─────────────────────────────────────────────────────────────────────────────────────────────"@,
    ];
    let ghost all = Seq::new(seen.len(), |i: int| pick_row(i + 1, seen[i], cells@[i]));
    proof {
        assert(text::texts(lines@) =~= part1 + (part2 + all.take(0)));
    }
    let mut i: usize = 0;
    while i < picks.len()
        invariant
            i <= picks.len(),
            cells@.len() == picks@.len(),
            seen == signals::views(picks@),
            all == Seq::new(seen.len(), |i: int| pick_row(i + 1, seen[i], cells@[i])),
            text::texts(lines@) == part1 + (part2 + all.take(i as int)),
        decreases picks.len() - i,
    {
        let line: String = row_text(i + 1, &picks[i], &cells[i]);
        sheet::put(&mut lines, line.as_str());
        proof {
            assert(all[i as int] == line@);
            assert(all.take(i + 1) =~= all.take(i as int).push(line@));
            assert(text::texts(lines@) =~= part1 + (part2 + all.take(i + 1)));
        }
        i = i + 1;
    }
    sheet::put(&mut lines, "");
    proof {
        assert(all.take(seen.len() as int) =~= all);
        assert(text::texts(lines@) =~= picks_section(title@, seen, cells@));
    }
    lines
}

/// The line of an index: its level and its change against the first close of the week before.
pub open spec fn index_line_text(
    label: Seq<char>,
    latest: Number,
    prior: Number,
    change: Number,
    latest_cell: Seq<char>,
    change_cell: Seq<char>,
) -> Seq<char> {
    if (Number { bits: 0 }).lt(latest) && (Number { bits: 0 }).lt(prior) {
        "  "@ + text::right_aligned(label, 8) + "  "@ + text::right_aligned(latest_cell, 10) + "   "@
            + (if (Number { bits: 0 }).le(change) {
            "\x1b[32m↑"@
        } else {
            "\x1b[31m↓"@
        }) + change_cell + "%\x1b[0m vs 5d ago"@
    } else {
        "  "@ + text::right_aligned(label, 8) + "  no data"@
    }
}

/// The line of an index, where `change` is the change in percent, printed as `change_cell`.
pub fn index_line(
    label: &str,
    latest: Number,
    prior: Number,
    change: Number,
    latest_cell: &str,
    change_cell: &str,
) -> (r: String)
    ensures
        r@ == index_line_text(label@, latest, prior, change, latest_cell@, change_cell@),
{
    let mut s: String = "  ".to_owned();
    s.append(text::pad_left(label, 8).as_str());
    if Number::zero().is_lt(latest) && Number::zero().is_lt(prior) {
        s.append("  ");
        s.append(text::pad_left(latest_cell, 10).as_str());
        s.append("   ");
        if Number::zero().is_le(change) {
            s.append("\x1b[32m↑");
        } else {
            s.append("\x1b[31m↓");
        }
        s.append(change_cell);
        s.append("%\x1b[0m vs 5d ago");
    } else {
        s.append("  no data");
    }
    s
}

/// The line of an exchange rate.
pub open spec fn rate_line_text(label: Seq<char>, rate: Number, cell: Seq<char>) -> Seq<char> {
    if (Number { bits: 0 }).lt(rate) {
        "  "@ + text::right_aligned(label, 8) + "  "@ + text::right_aligned(cell, 10)
    } else {
        "  "@ + text::right_aligned(label, 8) + "  no data"@
    }
}

/// The line of an exchange rate.
pub fn rate_line(label: &str, rate: Number, cell: &str) -> (r: String)
    ensures
        r@ == rate_line_text(label@, rate, cell@),
{
    let mut s: String = "  ".to_owned();
    s.append(text::pad_left(label, 8).as_str());
    if Number::zero().is_lt(rate) {
        s.append("  ");
        s.append(text::pad_left(cell, 10).as_str());
    } else {
        s.append("  no data");
    }
    s
}

/// An index against the first close of the week before; the change is in percent.
#[derive(Debug)]
pub struct IndexQuote {
    pub label: String,
    pub latest: Number,
    pub prior: Number,
    pub change: Number,
    pub latest_cell: String,
    pub change_cell: String,
}

/// The line of a quoted index.
pub open spec fn quote_text(q: IndexQuote) -> Seq<char> {
    index_line_text(q.label@, q.latest, q.prior, q.change, q.latest_cell@, q.change_cell@)
}

/// The lines of quoted indices.
pub open spec fn quote_lines(s: Seq<IndexQuote>) -> Seq<Seq<char>> {
    s.map_values(|q: IndexQuote| quote_text(q))
}

/// The section on the market: indices, then the rate of the dollar in rupees.
pub open spec fn context_section(s: Seq<IndexQuote>, rate: Number, cell: Seq<char>) -> Seq<
    Seq<char>,
> {
    seq![
        "  \x1b[1mMarket Context\x1b[0m  (live — fetched now)"@,
        "  ─────────────────────────────────────────"@,
    ] + quote_lines(s) + seq![rate_line_text("USD/INR"@, rate, cell), ""@]
}

/// The section on the market.
pub fn format_market_context(quotes: &Vec<IndexQuote>, rate: Number, cell: &str) -> (r: Vec<String>)
    ensures
        text::texts(r@) == context_section(quotes@, rate, cell@),
{
    let mut lines: Vec<String> = Vec::new();
    sheet::put(&mut lines, "  \x1b[1mMarket Context\x1b[0m  (live — fetched now)");
    sheet::put(&mut lines, "  ─────────────────────────────────────────");
    let ghost head = seq![
        "  \x1b[1mMarket Context\x1b[0m  (live — fetched now)"@,
        "  ─────────────────────────────────────────"@,
    ];
    let ghost all = quote_lines(quotes@);
    proof {
        assert(text::texts(lines@) =~= head + all.take(0));
    }
    let mut i: usize = 0;
    while i < quotes.len()
        invariant
            i <= quotes.len(),
            all == quote_lines(quotes@),
            text::texts(lines@) == head + all.take(i as int),
        decreases quotes.len() - i,
    {
        let q: &IndexQuote = &quotes[i];
        let line: String = index_line(
            q.label.as_str(),
            q.latest,
            q.prior,
            q.change,
            q.latest_cell.as_str(),
            q.change_cell.as_str(),
        );
        sheet::put(&mut lines, line.as_str());
        proof {
            assert(all[i as int] == line@);
            assert(all.take(i + 1) =~= all.take(i as int).push(line@));
            assert(text::texts(lines@) =~= head + all.take(i + 1));
        }
        i = i + 1;
    }
    let last: String = rate_line("USD/INR", rate, cell);
    sheet::put(&mut lines, last.as_str());
    sheet::put(&mut lines, "");
    proof {
        assert(all.take(quotes@.len() as int) =~= all);
        assert(text::texts(lines@) =~= context_section(quotes@, rate, cell@));
    }
    lines
}

/// The row of a position.
pub open spec fn position_row(p: Position, c: PositionCells, today: Date) -> Seq<char> {
    "  "@ + text::left_aligned(p.ticker@, 14) + "  entry "@ + text::right_aligned(c.entry@, 8)
        + "  current "@ + text::right_aligned(c.current@, 8) + "  "@ + text::right_aligned(
        text::signed_decimal(today.days - p.entry_date.days),
        3,
    ) + "d  "@ + sheet::sign_colour(p.unrealised_pnl) + "P&L "@ + c.pnl@ + "%\x1b[0m"@
}

/// The alert below the positions: that a rebalance is due, or in how many days.
pub open spec fn rebalance_alert(due: bool, days_left: int) -> Seq<char> {
    if due {
        "  \x1b[1m\x1b[33m⚠  REBALANCE DUE — new picks ready. Run --paper-update to execute.\x1b[0m"@
    } else {
        "  Next rebalance in "@ + text::signed_decimal(
            if days_left > 0 {
                days_left
            } else {
                0
            },
        ) + " day(s)."@
    }
}

/// The section of the paper portfolio.
pub open spec fn portfolio_section(
    p: PaperPortfolio,
    cells: Seq<PositionCells>,
    order: Seq<usize>,
    total_pnl: Seq<char>,
    today: Date,
    holding_days: u32,
) -> Seq<Seq<char>> {
    let held = today.days - p.last_rebalance_date.days;
    seq![
        "  \x1b[1mPaper Portfolio Status\x1b[0m"@,
        "  ─────────────────────────────────────────"@,
        "  Positions: "@ + text::decimal(p.positions@.len()) + "   Days since rebalance: "@
            + text::signed_decimal(held) + "   Total P&L: "@ + total_pnl + "%"@,
    ] + Seq::new(
        order.len(),
        |k: int| position_row(p.positions@[order[k] as int], cells[order[k] as int], today),
    ) + seq![
        ""@,
        rebalance_alert(
            held >= p.strategy_spec.holding_period_days,
            holding_days - held,
        ),
        ""@,
    ]
}

/// The row of a position, as text.
fn position_text(p: &Position, c: &PositionCells, today: Date) -> (r: String)
    ensures
        r@ == position_row(*p, *c, today),
{
    let mut s: String = "  ".to_owned();
    s.append(text::pad_right(p.ticker.as_str(), 14).as_str());
    s.append("  entry ");
    s.append(text::pad_left(c.entry.as_str(), 8).as_str());
    s.append("  current ");
    s.append(text::pad_left(c.current.as_str(), 8).as_str());
    s.append("  ");
    s.append(text::pad_left(text::signed_text(today.days_since(p.entry_date)).as_str(), 3).as_str());
    s.append("d  ");
    s.append(sheet::colour_of_sign(p.unrealised_pnl));
    s.append("P&L ");
    s.append(c.pnl.as_str());
    s.append("%\x1b[0m");
    s
}

/// The section of the paper portfolio: its positions by decreasing gain and when to rebalance.
pub fn format_portfolio_section(
    p: &PaperPortfolio,
    cells: &Vec<PositionCells>,
    total_pnl: &str,
    today: Date,
    holding_days: u32,
) -> (r: Vec<String>)
    requires
        cells@.len() == p.positions@.len(),
    ensures
        exists|order: Seq<usize>| #[trigger]
            order::is_descending(report::gains(p.positions@), order) && text::texts(r@)
                == portfolio_section(*p, cells@, order, total_pnl@, today, holding_days),
{
    let held: i64 = p.days_since_rebalance(today);
    let mut lines: Vec<String> = Vec::new();
    sheet::put(&mut lines, "  \x1b[1mPaper Portfolio Status\x1b[0m");
    sheet::put(&mut lines, "  ─────────────────────────────────────────");
    let mut counts: String = "  Positions: ".to_owned();
    counts.append(text::decimal_text(p.positions.len() as u64).as_str());
    counts.append("   Days since rebalance: ");
    counts.append(text::signed_text(held).as_str());
    counts.append("   Total P&L: ");
    counts.append(total_pnl);
    counts.append("%");
    sheet::put(&mut lines, counts.as_str());
    let ghost part1 = seq![
        "  \x1b[1mPaper Portfolio Status\x1b[0m"@,
        "  ─────────────────────────────────────────"@,
        counts@,
    ];
    let order: Vec<usize> = report::by_gain(&p.positions);
    let ghost all = Seq::new(
        order@.len(),
        |k: int| position_row(p.positions@[order@[k] as int], cells@[order@[k] as int], today),
    );
    proof {
        assert(text::texts(lines@) =~= part1 + all.take(0));
    }
    let mut k: usize = 0;
    while k < order.len()
        invariant
            k <= order.len(),
            cells@.len() == p.positions@.len(),
            order::is_descending(report::gains(p.positions@), order@),
            all == Seq::new(
                order@.len(),
                |k: int|
                    position_row(p.positions@[order@[k] as int], cells@[order@[k] as int], today),
            ),
            text::texts(lines@) == part1 + all.take(k as int),
        decreases order.len() - k,
    {
        let i: usize = order[k];
        proof {
            assert(order@[k as int] < report::gains(p.positions@).len());
        }
        let line: String = position_text(&p.positions[i], &cells[i], today);
        sheet::put(&mut lines, line.as_str());
        proof {
            assert(all[k as int] == line@);
            assert(all.take(k + 1) =~= all.take(k as int).push(line@));
            assert(text::texts(lines@) =~= part1 + all.take(k + 1));
        }
        k = k + 1;
    }
    proof {
        assert(all.take(order.len() as int) =~= all);
    }
    sheet::put(&mut lines, "");
    if p.rebalance_due(today) {
        sheet::put(
            &mut lines,
            "  \x1b[1m\x1b[33m⚠  REBALANCE DUE — new picks ready. Run --paper-update to execute.\x1b[0m",
        );
    } else {
        let rest: i64 = holding_days as i64 - held;
        let days_left: i64 = if rest > 0 {
            rest
        } else {
            0
        };
        let mut alert: String = "  Next rebalance in ".to_owned();
        alert.append(text::signed_text(days_left).as_str());
        alert.append(" day(s).");
        sheet::put(&mut lines, alert.as_str());
    }
    sheet::put(&mut lines, "");
    proof {
        assert(text::texts(lines@) =~= portfolio_section(
            *p,
            cells@,
            order@,
            total_pnl@,
            today,
            holding_days,
        ));
    }
    lines
}

/// The heading of the report.
pub open spec fn heading_lines(
    today: Date,
    threshold: Seq<char>,
    holding_days: u32,
    scored: nat,
) -> Seq<Seq<char>> {
    seq![
        ""@,
        "\x1b[1m\x1b[97m══════════════════════════════════════════════════════════════\x1b[0m"@,
        "\x1b[1m\x1b[97m  MORNING REPORT — "@ + calendar::day_text(today.days as int)
            + "\x1b[0m"@,
        "\x1b[1m\x1b[97m══════════════════════════════════════════════════════════════\x1b[0m"@,
        "  Score threshold: "@ + threshold + "   Holding period: "@ + text::decimal(
            holding_days as nat,
        ) + " days   Universe: "@ + text::decimal(scored) + " tickers scored"@,
        ""@,
    ]
}

/// The heading of the report.
pub fn heading(today: Date, threshold: &str, holding_days: u32, scored: usize) -> (r: Vec<String>)
    requires
        today.in_range(),
    ensures
        text::texts(r@) == heading_lines(today, threshold@, holding_days, scored as nat),
{
    let mut lines: Vec<String> = Vec::new();
    sheet::put(&mut lines, "");
    sheet::put(
        &mut lines,
        "\x1b[1m\x1b[97m══════════════════════════════════════════════════════════════\x1b[0m",
    );
    let mut title: String = "\x1b[1m\x1b[97m  MORNING REPORT — ".to_owned();
    title.append(today.text().as_str());
    title.append("\x1b[0m");
    sheet::put(&mut lines, title.as_str());
    sheet::put(
        &mut lines,
        "\x1b[1m\x1b[97m══════════════════════════════════════════════════════════════\x1b[0m",
    );
    let mut s: String = "  Score threshold: ".to_owned();
    s.append(threshold);
    s.append("   Holding period: ");
    s.append(text::decimal_text(holding_days as u64).as_str());
    s.append(" days   Universe: ");
    s.append(text::decimal_text(scored as u64).as_str());
    s.append(" tickers scored");
    sheet::put(&mut lines, s.as_str());
    sheet::put(&mut lines, "");
    proof {
        assert(text::texts(lines@) =~= heading_lines(
            today,
            threshold@,
            holding_days,
            scored as nat,
        ));
    }
    lines
}

/// What is said where there is no portfolio.
pub fn format_no_portfolio() -> (r: Vec<String>)
    ensures
        text::texts(r@) == seq![
            "  No paper portfolio. Run --paper-update to initialise."@,
            ""@,
        ],
{
    let mut lines: Vec<String> = Vec::new();
    sheet::put(&mut lines, "  No paper portfolio. Run --paper-update to initialise.");
    sheet::put(&mut lines, "");
    proof {
        assert(text::texts(lines@) =~= seq![
            "  No paper portfolio. Run --paper-update to initialise."@,
            ""@,
        ]);
    }
    lines
}

/// The whole report: the heading, the picks of both markets, what is said of the market and of the
/// portfolio, and a closing line. The picks are those that score at least the threshold, as
/// `score_based_picks` clamps them.
pub open spec fn morning_lines(
    head: Seq<Seq<char>>,
    picks: Seq<ScoreView>,
    nse_cells: Seq<PickCells>,
    us_cells: Seq<PickCells>,
    context: Seq<Seq<char>>,
    portfolio: Seq<Seq<char>>,
) -> Seq<Seq<char>> {
    head + picks_section("NSE PICKS"@, nse_picks(picks), nse_cells) + picks_section(
        "US PICKS"@,
        us_picks(picks),
        us_cells,
    ) + context + portfolio + seq![
        ""@,
        "\x1b[1m\x1b[97m══════════════════════════════════════════════════════════════\x1b[0m"@,
    ]
}

/// Puts the report together from the picks, the figures of each market's, and the sections on the
/// market and the portfolio.
pub fn run_morning(
    head: &Vec<String>,
    picks: &Vec<SignalScore>,
    nse_cells: &Vec<PickCells>,
    us_cells: &Vec<PickCells>,
    context: &Vec<String>,
    portfolio: &Vec<String>,
) -> (r: Vec<String>)
    requires
        nse_cells@.len() == nse_picks(signals::views(picks@)).len(),
        us_cells@.len() == us_picks(signals::views(picks@)).len(),
    ensures
        text::texts(r@) == morning_lines(
            text::texts(head@),
            signals::views(picks@),
            nse_cells@,
            us_cells@,
            text::texts(context@),
            text::texts(portfolio@),
        ),
{
    let (nse, us): (Vec<SignalScore>, Vec<SignalScore>) = split_by_market(picks);
    proof {
        assert(signals::views(nse@).len() == nse@.len());
        assert(signals::views(us@).len() == us@.len());
    }
    let mut lines: Vec<String> = Vec::new();
    sheet::put_all(&mut lines, head);
    sheet::put_all(&mut lines, &format_picks_section("NSE PICKS", &nse, nse_cells));
    sheet::put_all(&mut lines, &format_picks_section("US PICKS", &us, us_cells));
    sheet::put_all(&mut lines, context);
    sheet::put_all(&mut lines, portfolio);
    sheet::put(&mut lines, "");
    sheet::put(
        &mut lines,
        "\x1b[1m\x1b[97m══════════════════════════════════════════════════════════════\x1b[0m",
    );
    proof {
        assert(text::texts(lines@) =~= morning_lines(
            text::texts(head@),
            signals::views(picks@),
            nse_cells@,
            us_cells@,
            text::texts(context@),
            text::texts(portfolio@),
        ));
    }
    lines
}

// ── What the report says ─────────────────────────────────────────────────────

/// The first list holds exactly the picks whose ticker ends in `.NS`, the second exactly the
/// others, and both keep the order of the picks.
pub proof fn picks_are_parted_by_their_ticker(
    picks: Vec<SignalScore>,
    r: (Vec<SignalScore>, Vec<SignalScore>),
)
    requires
        call_ensures(split_by_market, (&picks,), r),
    ensures
        r.0@.len() + r.1@.len() == picks@.len(),
        forall|k: int|
            0 <= k < r.0@.len() ==> ".NS"@.is_suffix_of((#[trigger] r.0@[k]).ticker@),
        forall|k: int|
            0 <= k < r.1@.len() ==> !".NS"@.is_suffix_of((#[trigger] r.1@[k]).ticker@),
        forall|i: int|
            0 <= i < picks@.len() ==> signals::views(r.0@).contains((#[trigger] picks@[i])@)
                || signals::views(r.1@).contains(picks@[i]@),
{
    let v = signals::views(picks@);
    let nse = |x: ScoreView| schedule::nse_listed(x.ticker);
    let other = |x: ScoreView| !schedule::nse_listed(x.ticker);
    let a = order::lemma_filter_positions(v, nse);
    let b = order::lemma_filter_positions(v, other);
    every_pick_has_one_market(v);
    assert(signals::views(r.0@).len() == r.0@.len());
    assert(signals::views(r.1@).len() == r.1@.len());
    assert forall|k: int| 0 <= k < r.0@.len() implies ".NS"@.is_suffix_of(
        (#[trigger] r.0@[k]).ticker@,
    ) by {
        assert(signals::views(r.0@)[k] == r.0@[k]@);
        assert(nse(v[a[k]]));
    }
    assert forall|k: int| 0 <= k < r.1@.len() implies !".NS"@.is_suffix_of(
        (#[trigger] r.1@[k]).ticker@,
    ) by {
        assert(signals::views(r.1@)[k] == r.1@[k]@);
        assert(other(v[b[k]]));
    }
    assert forall|i: int| 0 <= i < picks@.len() implies signals::views(r.0@).contains(
        (#[trigger] picks@[i])@,
    ) || signals::views(r.1@).contains(picks@[i]@) by {
        assert(v[i] == picks@[i]@);
        if nse(v[i]) {
            let k = choose|k: int| 0 <= k < a.len() && #[trigger] a[k] == i;
            assert(signals::views(r.0@)[k] == v[i]);
        } else {
            assert(other(v[i]));
            let k = choose|k: int| 0 <= k < b.len() && #[trigger] b[k] == i;
            assert(signals::views(r.1@)[k] == v[i]);
        }
    }
}

/// A week's return runs over the last five days of bars and a month's over the last twenty, each
/// from one adjusted close to the latest; there is none with fewer bars.
pub proof fn recent_returns_are_adjusted(
    bars: Vec<PriceBar>,
    r: (Option<(Number, Number)>, Option<(Number, Number)>),
)
    requires
        call_ensures(recent_returns, (&bars,), r),
    ensures
        bars@.len() < 6 ==> r.0 is None,
        bars@.len() < 21 ==> r.1 is None,
        bars@.len() >= 6 && 0 < bars@[bars@.len() - 1].adj_close.bits < 0x7FF0_0000_0000_0000 && 0
            < bars@[bars@.len() - 6].adj_close.bits < 0x7FF0_0000_0000_0000 ==> r.0 == Some(
            (bars@[bars@.len() - 6].adj_close, bars@[bars@.len() - 1].adj_close),
        ),
        bars@.len() >= 21 && 0 < bars@[bars@.len() - 1].adj_close.bits < 0x7FF0_0000_0000_0000 && 0
            < bars@[bars@.len() - 21].adj_close.bits < 0x7FF0_0000_0000_0000 ==> r.1 == Some(
            (bars@[bars@.len() - 21].adj_close, bars@[bars@.len() - 1].adj_close),
        ),
{
}

/// Each pick has a row of its own, in the order of the picks and after four lines of heading: it
/// starts with the rank, counted from one, and the ticker, ends with the industry, and shows the
/// score in green from 70, in yellow from 60 and plain below.
pub proof fn rows_show_each_pick_in_its_colour(
    title: &str,
    picks: Vec<SignalScore>,
    cells: Vec<PickCells>,
    r: Vec<String>,
    i: int,
) -> (middle: (Seq<char>, Seq<char>))
    requires
        cells@.len() == picks@.len(),
        call_ensures(format_picks_section, (title, &picks, &cells), r),
        0 <= i < picks@.len(),
    ensures
        r@.len() == picks@.len() + 5,
        r@[i + 4]@ == "  "@ + text::right_aligned(text::decimal((i + 1) as nat), 4) + "  "@
            + text::left_aligned(picks@[i].ticker@, 14) + "  "@ + middle.0 + text::right_aligned(
            cells@[i].score@,
            6,
        ) + middle.1 + picks@[i].industry@,
        0x4051_8000_0000_0000 <= picks@[i].composite.bits < 0x7FF0_0000_0000_0000 ==> middle.0
            == "\x1b[32m"@,
        0x404E_0000_0000_0000 <= picks@[i].composite.bits < 0x4051_8000_0000_0000 ==> middle.0
            == "\x1b[33m"@,
        picks@[i].composite.bits < 0x404E_0000_0000_0000 ==> middle.0 == "\x1b[0m"@,
{
    let v = signals::views(picks@);
    let all = picks_section(title@, v, cells@);
    assert(text::texts(r@).len() == r@.len());
    assert(v[i] == picks@[i]@);
    assert(text::texts(r@)[i + 4] == r@[i + 4]@);
    assert(all[i + 4] == pick_row(i + 1, v[i], cells@[i]));
    let c = cells@[i];
    let rest = "\x1b[0m  "@ + text::right_aligned(c.momentum@, 8) + "  "@ + text::right_aligned(
        c.fundamental@,
        8,
    ) + "  "@ + text::right_aligned(return_cell(c.week), 7) + "  "@ + text::right_aligned(
        return_cell(c.month),
        7,
    ) + "  "@;
    let colour = score_colour(v[i].composite);
    assert(r@[i + 4]@ =~= "  "@ + text::right_aligned(text::decimal((i + 1) as nat), 4) + "  "@
        + text::left_aligned(picks@[i].ticker@, 14) + "  "@ + colour + text::right_aligned(
        c.score@,
        6,
    ) + rest + picks@[i].industry@);
    (colour, rest)
}

/// An index that rose or stood still is shown with an arrow up, one that fell with an arrow down;
/// without a price at either end nothing is shown.
pub proof fn indices_point_where_they_went(
    label: &str,
    latest: Number,
    prior: Number,
    change: Number,
    latest_cell: &str,
    change_cell: &str,
    r: String,
)
    requires
        call_ensures(index_line, (label, latest, prior, change, latest_cell, change_cell), r),
    ensures
        ({
            let front = "  "@ + text::right_aligned(label@, 8) + "  "@ + text::right_aligned(
                latest_cell@,
                10,
            ) + "   "@;
            let priced = 0 < latest.bits < 0x7FF0_0000_0000_0000 && 0 < prior.bits
                < 0x7FF0_0000_0000_0000;
            let missing = latest.bits == 0 || latest.bits >= 0x8000_0000_0000_0000 || prior.bits
                == 0 || prior.bits >= 0x8000_0000_0000_0000;
            &&& priced && change.bits < 0x7FF0_0000_0000_0000 ==> r@ == front + "\x1b[32m↑"@
                + change_cell@ + "%\x1b[0m vs 5d ago"@
            &&& priced && 0x8000_0000_0000_0000 < change.bits < 0xFFF0_0000_0000_0000 ==> r@
                == front + "\x1b[31m↓"@ + change_cell@ + "%\x1b[0m vs 5d ago"@
            &&& missing ==> r@ == "  "@ + text::right_aligned(label@, 8) + "  no data"@
        }),
{
}

/// An exchange rate is shown where it is a rate.
pub proof fn rates_are_shown_where_known(label: &str, rate: Number, cell: &str, r: String)
    requires
        call_ensures(rate_line, (label, rate, cell), r),
    ensures
        0 < rate.bits < 0x7FF0_0000_0000_0000 ==> r@ == "  "@ + text::right_aligned(label@, 8)
            + "  "@ + text::right_aligned(cell@, 10),
        rate.bits == 0 || rate.bits >= 0x8000_0000_0000_0000 ==> r@ == "  "@ + text::right_aligned(
            label@,
            8,
        ) + "  no data"@,
{
}

/// The portfolio's positions are listed by decreasing gain, each with its own entry price, current
/// price and gain, and with the days since it was entered.
pub proof fn positions_are_listed_by_gain(
    p: PaperPortfolio,
    cells: Vec<PositionCells>,
    total_pnl: &str,
    today: Date,
    holding_days: u32,
    r: Vec<String>,
) -> (order: Seq<int>)
    requires
        cells@.len() == p.positions@.len(),
        call_ensures(format_portfolio_section, (&p, &cells, total_pnl, today, holding_days), r),
    ensures
        r@.len() == p.positions@.len() + 6,
        order.len() == p.positions@.len(),
        forall|k: int|
            0 <= k < order.len() ==> 0 <= (#[trigger] order[k]) < p.positions@.len() && {
                let q = p.positions@[order[k]];
                let c = cells@[order[k]];
                r@[k + 3]@ == "  "@ + text::left_aligned(q.ticker@, 14) + "  entry "@
                    + text::right_aligned(c.entry@, 8) + "  current "@ + text::right_aligned(
                    c.current@,
                    8,
                ) + "  "@ + text::right_aligned(
                    text::signed_decimal(today.days - q.entry_date.days),
                    3,
                ) + "d  "@ + sheet::sign_colour(q.unrealised_pnl) + "P&L "@ + c.pnl@ + "%\x1b[0m"@
            },
        forall|j: int, k: int|
            0 <= j < k < order.len() ==> p.positions@[#[trigger] order[j]].unrealised_pnl.place()
                >= p.positions@[#[trigger] order[k]].unrealised_pnl.place() && order[j] != order[k],
        today.days - p.last_rebalance_date.days >= p.strategy_spec.holding_period_days ==> r@[r@.len()
            - 2]@
            == "  \x1b[1m\x1b[33m⚠  REBALANCE DUE — new picks ready. Run --paper-update to execute.\x1b[0m"@,
        0 <= today.days - p.last_rebalance_date.days < p.strategy_spec.holding_period_days
            && p.strategy_spec.holding_period_days == holding_days ==> r@[r@.len() - 2]@
            == "  Next rebalance in "@ + text::signed_decimal(
            p.last_rebalance_date.days + holding_days - today.days,
        ) + " day(s)."@,
{
    let args = (&p, &cells, total_pnl, today, holding_days);
    let found = choose|order: Seq<usize>| #[trigger]
        order::is_descending(report::gains(args.0.positions@), order) && text::texts(r@)
            == portfolio_section(p, cells@, order, total_pnl@, today, holding_days);
    let all = portfolio_section(p, cells@, found, total_pnl@, today, holding_days);
    let gains = report::gains(p.positions@);
    let order = found.map_values(|x: usize| x as int);
    assert(text::texts(r@).len() == r@.len());
    assert forall|k: int| 0 <= k < r@.len() implies #[trigger] r@[k]@ == all[k] by {
        assert(text::texts(r@)[k] == r@[k]@);
    }
    assert forall|k: int| 0 <= k < order.len() implies 0 <= (#[trigger] order[k])
        < p.positions@.len() && {
        let q = p.positions@[order[k]];
        let c = cells@[order[k]];
        r@[k + 3]@ == "  "@ + text::left_aligned(q.ticker@, 14) + "  entry "@ + text::right_aligned(
            c.entry@,
            8,
        ) + "  current "@ + text::right_aligned(c.current@, 8) + "  "@ + text::right_aligned(
            text::signed_decimal(today.days - q.entry_date.days),
            3,
        ) + "d  "@ + sheet::sign_colour(q.unrealised_pnl) + "P&L "@ + c.pnl@ + "%\x1b[0m"@
    } by {
        assert(order[k] == found[k] as int);
        assert(found[k] < gains.len());
        assert(r@[k + 3]@ == all[k + 3]);
        assert(all[k + 3] == position_row(
            p.positions@[found[k] as int],
            cells@[found[k] as int],
            today,
        ));
    }
    assert forall|j: int, k: int| 0 <= j < k < order.len() implies p.positions@[
    #[trigger] order[j]].unrealised_pnl.place() >= p.positions@[
    #[trigger] order[k]].unrealised_pnl.place() && order[j] != order[k] by {
        assert(order::descends(gains, found[j] as int, found[k] as int));
        assert(found[j] < gains.len() && found[k] < gains.len());
        assert(gains[found[j] as int] == p.positions@[order[j]].unrealised_pnl);
        assert(gains[found[k] as int] == p.positions@[order[k]].unrealised_pnl);
    }
    let n = r@.len() as int;
    assert(r@[n - 2]@ == all[n - 2]);
    let held = today.days - p.last_rebalance_date.days;
    assert(all[n - 2] == rebalance_alert(
        held >= p.strategy_spec.holding_period_days,
        holding_days - held,
    ));
    order
}

/// The report gives its sections in this order: the heading, the picks of India, those of the
/// United States, the market and the portfolio.
pub proof fn sections_come_in_order(
    head: Vec<String>,
    picks: Vec<SignalScore>,
    parted: (Vec<SignalScore>, Vec<SignalScore>),
    nse_cells: Vec<PickCells>,
    us_cells: Vec<PickCells>,
    context: Vec<String>,
    portfolio: Vec<String>,
    nse: Vec<String>,
    us: Vec<String>,
    r: Vec<String>,
)
    requires
        call_ensures(split_by_market, (&picks,), parted),
        nse_cells@.len() == parted.0@.len(),
        us_cells@.len() == parted.1@.len(),
        call_ensures(format_picks_section, ("NSE PICKS", &parted.0, &nse_cells), nse),
        call_ensures(format_picks_section, ("US PICKS", &parted.1, &us_cells), us),
        call_ensures(
            run_morning,
            (&head, &picks, &nse_cells, &us_cells, &context, &portfolio),
            r,
        ),
    ensures
        (text::texts(head@) + text::texts(nse@) + text::texts(us@) + text::texts(context@)
            + text::texts(portfolio@)).is_prefix_of(text::texts(r@)),
{
    let front = text::texts(head@) + text::texts(nse@) + text::texts(us@) + text::texts(context@)
        + text::texts(portfolio@);
    assert(text::texts(r@).take(front.len() as int) =~= front);
}

} // verus!
