//! The status table of a paper portfolio.

use vstd::prelude::*;
use vstd::string::*;

use crate::calendar;
use crate::calendar::Date;
use crate::number::Number;
use crate::order;
use crate::paper_trading::engine::{PaperPortfolio, Position};
use crate::sheet;
use crate::text;

verus! {

/// A position's amounts, printed with two decimals.
#[derive(Debug)]
pub struct PositionCells {
    pub entry: String,
    pub current: String,
    pub shares: String,
    /// Printed with its sign.
    pub pnl: String,
}

/// A portfolio's amounts, printed with two decimals.
#[derive(Debug)]
pub struct StatusCells {
    pub total: String,
    pub cash: String,
    pub invested: String,
    pub total_pnl: String,
}

/// A line of amount under a label.
pub open spec fn amount_line(label: Seq<char>, amount: Seq<char>, width: int) -> Seq<char> {
    label + text::right_aligned(amount, width)
}

/// The lines above the table.
pub open spec fn head_lines(p: PaperPortfolio, c: StatusCells, today: Date) -> Seq<Seq<char>> {
    seq![
        ""@,
        "\x1b[1m\x1b[97m══════════════════════════════════════════════\x1b[0m"@,
        "\x1b[1m\x1b[97m  PAPER PORTFOLIO — "@ + p.strategy_spec.name@ + "\x1b[0m"@,
        "\x1b[1m\x1b[97m══════════════════════════════════════════════\x1b[0m"@,
        ""@,
        "  Inception Date       "@ + calendar::day_text(p.inception_date.days as int),
        "  Last Rebalance       "@ + calendar::day_text(p.last_rebalance_date.days as int),
        "  Days Since Rebalance "@ + text::signed_decimal(today.days - p.last_rebalance_date.days),
        "  Rebalance Due        "@ + (if today.days - p.last_rebalance_date.days
            >= p.strategy_spec.holding_period_days {
            "\x1b[33mYES\x1b[0m"@
        } else {
            "no"@
        }),
        "  Holding Period       "@ + text::decimal(p.strategy_spec.holding_period_days as nat)
            + " days"@,
        ""@,
        "  \x1b[1mPortfolio Summary\x1b[0m"@,
        "  ─────────────────────────────────────────"@,
        amount_line("  Total Value          "@, c.total@, 14),
        amount_line("  Cash                 "@, c.cash@, 14),
        amount_line("  Invested             "@, c.invested@, 14),
        amount_line("  Total P&L            "@, c.total_pnl@, 13) + "%"@,
        amount_line(
            "  Days Running         "@,
            text::signed_decimal(today.days - p.inception_date.days),
            14,
        ),
        ""@,
    ]
}

/// The row of a position.
pub open spec fn position_row(p: Position, c: PositionCells, today: Date) -> Seq<char> {
    "  "@ + text::right_aligned(p.ticker@, 8) + "  "@ + text::right_aligned(c.entry@, 9) + "  "@
        + text::right_aligned(c.current@, 9) + "  "@ + text::right_aligned(c.shares@, 9) + "  "@
        + text::right_aligned(text::signed_decimal(today.days - p.entry_date.days), 8) + "  "@
        + sheet::sign_colour(p.unrealised_pnl) + text::right_aligned(c.pnl@, 9) + "%\x1b[0m"@
}

/// The lines above the positions.
pub open spec fn table_head() -> Seq<Seq<char>> {
    seq![
        "  \x1b[1mOpen Positions\x1b[0m"@,
        "  ─────────────────────────────────────────────────────────────────"@,
        "    Ticker      Entry    Current     Shares      Days  Unreal P&L"@,
        "  ─────────────────────────────────────────────────────────────────"@,
    ]
}

/// The rows of positions in a given order.
pub open spec fn rows(
    s: Seq<Position>,
    cells: Seq<PositionCells>,
    order: Seq<usize>,
    today: Date,
) -> Seq<Seq<char>> {
    Seq::new(
        order.len(),
        |k: int| position_row(s[order[k] as int], cells[order[k] as int], today),
    )
}

/// The gains of positions.
pub open spec fn gains(s: Seq<Position>) -> Seq<Number> {
    s.map_values(|p: Position| p.unrealised_pnl)
}

/// The positions by decreasing gain.
pub fn by_gain(positions: &Vec<Position>) -> (p: Vec<usize>)
    ensures
        order::is_descending(gains(positions@), p@),
{
    let mut v: Vec<Number> = Vec::new();
    let mut i: usize = 0;
    while i < positions.len()
        invariant
            i <= positions.len(),
            v.len() == i,
            forall|k: int| 0 <= k < i ==> (#[trigger] v@[k]) == positions@[k].unrealised_pnl,
        decreases positions.len() - i,
    {
        v.push(positions[i].unrealised_pnl);
        i = i + 1;
    }
    proof {
        assert(v@ =~= gains(positions@));
    }
    order::descending_order(&v)
}

/// Adds an amount under a label.
fn put_amount(lines: &mut Vec<String>, label: &str, amount: &str, width: usize, unit: &str)
    ensures
        text::texts(final(lines)@) == text::texts(old(lines)@).push(
            amount_line(label@, amount@, width as int) + unit@,
        ),
{
    let mut s: String = label.to_owned();
    s.append(text::pad_left(amount, width).as_str());
    s.append(unit);
    sheet::put(lines, s.as_str());
}

/// Adds a line of two parts.
fn put_pair(lines: &mut Vec<String>, label: &str, value: &str)
    ensures
        text::texts(final(lines)@) == text::texts(old(lines)@).push(label@ + value@),
{
    let mut s: String = label.to_owned();
    s.append(value);
    sheet::put(lines, s.as_str());
}

/// Adds the lines above the table.
fn put_head(lines: &mut Vec<String>, p: &PaperPortfolio, c: &StatusCells, today: Date)
    requires
        p.inception_date.in_range(),
        p.last_rebalance_date.in_range(),
    ensures
        text::texts(final(lines)@) == text::texts(old(lines)@) + head_lines(*p, *c, today),
{
    let ghost before = text::texts(lines@);
    let empty: &str = "";
    sheet::put(lines, "");
    sheet::put(
        lines,
        "\x1b[1m\x1b[97m══════════════════════════════════════════════\x1b[0m",
    );
    let mut title: String = "\x1b[1m\x1b[97m  PAPER PORTFOLIO — ".to_owned();
    title.append(p.strategy_spec.name.as_str());
    title.append("\x1b[0m");
    sheet::put(lines, title.as_str());
    sheet::put(
        lines,
        "\x1b[1m\x1b[97m══════════════════════════════════════════════\x1b[0m",
    );
    sheet::put(lines, "");
    put_pair(lines, "  Inception Date       ", p.inception_date.text().as_str());
    put_pair(lines, "  Last Rebalance       ", p.last_rebalance_date.text().as_str());
    put_pair(
        lines,
        "  Days Since Rebalance ",
        text::signed_text(p.days_since_rebalance(today)).as_str(),
    );
    let due: &str = if p.rebalance_due(today) {
        "\x1b[33mYES\x1b[0m"
    } else {
        "no"
    };
    put_pair(lines, "  Rebalance Due        ", due);
    let mut period: String = "  Holding Period       ".to_owned();
    period.append(text::decimal_text(p.strategy_spec.holding_period_days as u64).as_str());
    period.append(" days");
    sheet::put(lines, period.as_str());
    sheet::put(lines, "");
    sheet::put(lines, "  \x1b[1mPortfolio Summary\x1b[0m");
    sheet::put(lines, "  ─────────────────────────────────────────");
    put_amount(lines, "  Total Value          ", c.total.as_str(), 14, empty);
    put_amount(lines, "  Cash                 ", c.cash.as_str(), 14, empty);
    put_amount(lines, "  Invested             ", c.invested.as_str(), 14, empty);
    put_amount(lines, "  Total P&L            ", c.total_pnl.as_str(), 13, "%");
    let running: String = text::signed_text(today.days_since(p.inception_date));
    put_amount(lines, "  Days Running         ", running.as_str(), 14, empty);
    sheet::put(lines, "");
    proof {
        reveal_strlit("");
        let h = head_lines(*p, *c, today);
        let t1 = amount_line("  Total Value          "@, c.total@, 14);
        let t2 = amount_line("  Cash                 "@, c.cash@, 14);
        let t3 = amount_line("  Invested             "@, c.invested@, 14);
        let t5 = amount_line("  Days Running         "@, running@, 14);
        assert(t1 + ""@ =~= t1);
        assert(t2 + ""@ =~= t2);
        assert(t3 + ""@ =~= t3);
        assert(t5 + ""@ =~= t5);
        assert(text::texts(lines@) =~= before + h);
    }
}

/// The row of a position, as text.
fn row_text(p: &Position, c: &PositionCells, today: Date) -> (r: String)
    ensures
        r@ == position_row(*p, *c, today),
{
    let mut s: String = "  ".to_owned();
    s.append(text::pad_left(p.ticker.as_str(), 8).as_str());
    s.append("  ");
    s.append(text::pad_left(c.entry.as_str(), 9).as_str());
    s.append("  ");
    s.append(text::pad_left(c.current.as_str(), 9).as_str());
    s.append("  ");
    s.append(text::pad_left(c.shares.as_str(), 9).as_str());
    s.append("  ");
    let days: String = text::signed_text(today.days_since(p.entry_date));
    s.append(text::pad_left(days.as_str(), 8).as_str());
    s.append("  ");
    s.append(sheet::colour_of_sign(p.unrealised_pnl));
    s.append(text::pad_left(c.pnl.as_str(), 9).as_str());
    s.append("%\x1b[0m");
    s
}

/// The status of a portfolio: a summary and its positions by decreasing gain.
pub fn print_portfolio_status(
    p: &PaperPortfolio,
    today: Date,
    c: &StatusCells,
    cells: &Vec<PositionCells>,
) -> (r: Vec<String>)
    requires
        p.inception_date.in_range(),
        p.last_rebalance_date.in_range(),
        cells@.len() == p.positions@.len(),
    ensures
        p.positions@.len() == 0 ==> text::texts(r@) == head_lines(*p, *c, today).push(
            "  No open positions."@,
        ).push(""@),
        p.positions@.len() > 0 ==> exists|order: Seq<usize>| #[trigger]
            order::is_descending(gains(p.positions@), order) && text::texts(r@) == (head_lines(
                *p,
                *c,
                today,
            ) + table_head() + rows(p.positions@, cells@, order, today)).push(""@),
{
    let mut lines: Vec<String> = Vec::new();
    put_head(&mut lines, p, c, today);
    let ghost head = head_lines(*p, *c, today);
    proof {
        assert(text::texts(lines@) =~= head);
    }
    if p.positions.len() == 0 {
        sheet::put(&mut lines, "  No open positions.");
    } else {
        sheet::put(&mut lines, "  \x1b[1mOpen Positions\x1b[0m");
        sheet::put(
            &mut lines,
            "  ─────────────────────────────────────────────────────────────────",
        );
        sheet::put(
            &mut lines,
            "    Ticker      Entry    Current     Shares      Days  Unreal P&L",
        );
        sheet::put(
            &mut lines,
            "  ─────────────────────────────────────────────────────────────────",
        );
        proof {
            assert(text::texts(lines@) =~= head + table_head());
        }
        let order: Vec<usize> = by_gain(&p.positions);
        let mut k: usize = 0;
        proof {
            assert(rows(p.positions@, cells@, order@, today).take(0) =~= seq![]);
        }
        while k < order.len()
            invariant
                k <= order.len(),
                cells@.len() == p.positions@.len(),
                order::is_descending(gains(p.positions@), order@),
                text::texts(lines@) == head + table_head() + rows(
                    p.positions@,
                    cells@,
                    order@,
                    today,
                ).take(k as int),
            decreases order.len() - k,
        {
            let i: usize = order[k];
            proof {
                assert(order@[k as int] < gains(p.positions@).len());
            }
            let row: String = row_text(&p.positions[i], &cells[i], today);
            sheet::put(&mut lines, row.as_str());
            proof {
                let all = rows(p.positions@, cells@, order@, today);
                assert(all[k as int] == row@);
                assert(all.take(k + 1) =~= all.take(k as int).push(row@));
                assert(text::texts(lines@) =~= head + table_head() + all.take(k + 1));
            }
            k = k + 1;
        }
        proof {
            let all = rows(p.positions@, cells@, order@, today);
            assert(all.take(order.len() as int) =~= all);
        }
    }
    sheet::put(&mut lines, "");
    lines
}

// ── Trade log ────────────────────────────────────────────────────────────────

/// A list of trades under a heading with their number.
pub open spec fn trade_list(
    heading: Seq<char>,
    mark: Seq<char>,
    trades: Seq<Seq<char>>,
) -> Seq<Seq<char>> {
    seq![heading + text::decimal(trades.len()) + "):"@] + trades.map_values(
        |t: Seq<char>| mark + t,
    )
}

/// The log of a rebalance: what was sold, kept and bought, and what the portfolio then holds.
pub open spec fn trade_log(
    today: Date,
    sold: Seq<Seq<char>>,
    kept: Seq<Seq<char>>,
    bought: Seq<Seq<char>>,
    positions: nat,
    value: Seq<char>,
) -> Seq<Seq<char>> {
    seq![
        ""@,
        "\x1b[1m\x1b[97m  REBALANCE TRADE LOG — "@ + calendar::day_text(today.days as int)
            + "\x1b[0m"@,
        "  ─────────────────────────────────────────"@,
    ] + trade_list("  SOLD  ("@, "    ✗  "@, sold) + trade_list("  KEPT  ("@, "    →  "@, kept)
        + trade_list("  BOUGHT ("@, "    ✓  "@, bought) + seq![
        "  Total positions: "@ + text::decimal(positions) + "   Portfolio value: $"@ + value,
        ""@,
    ]
}

/// Adds a list of trades.
fn put_trades(lines: &mut Vec<String>, heading: &str, mark: &str, trades: &Vec<String>)
    ensures
        text::texts(final(lines)@) == text::texts(old(lines)@) + trade_list(
            heading@,
            mark@,
            text::texts(trades@),
        ),
{
    let ghost before = text::texts(lines@);
    let mut first: String = heading.to_owned();
    first.append(text::decimal_text(trades.len() as u64).as_str());
    first.append("):");
    sheet::put(lines, first.as_str());
    let ghost all = text::texts(trades@).map_values(|t: Seq<char>| mark@ + t);
    proof {
        assert(text::texts(lines@) =~= before + (seq![first@] + all.take(0)));
    }
    let mut i: usize = 0;
    while i < trades.len()
        invariant
            i <= trades.len(),
            all == text::texts(trades@).map_values(|t: Seq<char>| mark@ + t),
            text::texts(lines@) == before + (seq![first@] + all.take(i as int)),
        decreases trades.len() - i,
    {
        sheet::put_two(lines, mark, trades[i].as_str());
        proof {
            assert(all[i as int] == mark@ + trades@[i as int]@);
            assert(all.take(i + 1) =~= all.take(i as int).push(all[i as int]));
            assert(text::texts(lines@) =~= before + (seq![first@] + all.take(i + 1)));
        }
        i = i + 1;
    }
    proof {
        assert(all.take(trades@.len() as int) =~= all);
        assert(text::texts(trades@).len() == trades@.len());
    }
}

/// The log of a rebalance, of trades printed by the caller.
pub fn print_trade_log(
    today: Date,
    sold: &Vec<String>,
    kept: &Vec<String>,
    bought: &Vec<String>,
    positions: usize,
    value: &str,
) -> (r: Vec<String>)
    requires
        today.in_range(),
    ensures
        text::texts(r@) == trade_log(
            today,
            text::texts(sold@),
            text::texts(kept@),
            text::texts(bought@),
            positions as nat,
            value@,
        ),
{
    let mut lines: Vec<String> = Vec::new();
    sheet::put(&mut lines, "");
    let day: String = today.text();
    sheet::put_three(
        &mut lines,
        "\x1b[1m\x1b[97m  REBALANCE TRADE LOG — ",
        day.as_str(),
        "\x1b[0m",
    );
    sheet::put(&mut lines, "  ─────────────────────────────────────────");
    put_trades(&mut lines, "  SOLD  (", "    ✗  ", sold);
    put_trades(&mut lines, "  KEPT  (", "    →  ", kept);
    put_trades(&mut lines, "  BOUGHT (", "    ✓  ", bought);
    let mut last: String = "  Total positions: ".to_owned();
    last.append(text::decimal_text(positions as u64).as_str());
    last.append("   Portfolio value: $");
    last.append(value);
    sheet::put(&mut lines, last.as_str());
    sheet::put(&mut lines, "");
    proof {
        assert(text::texts(lines@) =~= trade_log(
            today,
            text::texts(sold@),
            text::texts(kept@),
            text::texts(bought@),
            positions as nat,
            value@,
        ));
    }
    lines
}

// ── What the status says ─────────────────────────────────────────────────────

/// Each amount stands under its own label, and a rebalance is due once the holding period has
/// passed since the last one.
pub proof fn amounts_stand_under_their_labels(
    p: PaperPortfolio,
    today: Date,
    c: StatusCells,
    cells: Vec<PositionCells>,
    r: Vec<String>,
)
    requires
        p.inception_date.in_range(),
        p.last_rebalance_date.in_range(),
        cells@.len() == p.positions@.len(),
        call_ensures(print_portfolio_status, (&p, today, &c, &cells), r),
    ensures
        sheet::has_line(
            r@,
            "  Inception Date       "@ + calendar::day_text(p.inception_date.days as int),
        ),
        sheet::has_line(
            r@,
            "  Last Rebalance       "@ + calendar::day_text(p.last_rebalance_date.days as int),
        ),
        today.days - p.last_rebalance_date.days >= p.strategy_spec.holding_period_days
            ==> sheet::has_line(r@, "  Rebalance Due        "@ + "\x1b[33mYES\x1b[0m"@),
        today.days - p.last_rebalance_date.days < p.strategy_spec.holding_period_days
            ==> sheet::has_line(r@, "  Rebalance Due        "@ + "no"@),
        sheet::has_line(r@, "  Total Value          "@ + text::right_aligned(c.total@, 14)),
        sheet::has_line(r@, "  Cash                 "@ + text::right_aligned(c.cash@, 14)),
        sheet::has_line(r@, "  Invested             "@ + text::right_aligned(c.invested@, 14)),
        sheet::has_line(
            r@,
            "  Total P&L            "@ + text::right_aligned(c.total_pnl@, 13) + "%"@,
        ),
        sheet::has_line(
            r@,
            "  Days Running         "@ + text::right_aligned(
                text::signed_decimal(today.days - p.inception_date.days),
                14,
            ),
        ),
{
    let all = text::texts(r@);
    let top = head_lines(p, c, today);
    assert(all.len() == r@.len());
    assert(top.len() == 19);
    assert(all.len() >= 19 && forall|k: int| 0 <= k < 19 ==> #[trigger] all[k] == top[k]) by {
        if p.positions@.len() > 0 {
            let args = (&p, today, &c, &cells);
            let order = choose|order: Seq<usize>| #[trigger]
                order::is_descending(gains(args.0.positions@), order) && all == (top + table_head()
                    + rows(p.positions@, cells@, order, today)).push(""@);
        }
    }
    sheet::lemma_has_line(r@, 5);
    sheet::lemma_has_line(r@, 6);
    sheet::lemma_has_line(r@, 8);
    sheet::lemma_has_line(r@, 13);
    sheet::lemma_has_line(r@, 14);
    sheet::lemma_has_line(r@, 15);
    sheet::lemma_has_line(r@, 16);
    sheet::lemma_has_line(r@, 17);
    assert(all[5] == top[5] && all[6] == top[6] && all[8] == top[8] && all[13] == top[13]);
    assert(all[14] == top[14] && all[15] == top[15] && all[16] == top[16] && all[17] == top[17]);
}

/// Positions are listed by decreasing gain, each with its own entry price, current price, shares,
/// days held and gain.
pub proof fn positions_are_listed_by_gain(
    p: PaperPortfolio,
    today: Date,
    c: StatusCells,
    cells: Vec<PositionCells>,
    r: Vec<String>,
) -> (order: Seq<int>)
    requires
        p.inception_date.in_range(),
        p.last_rebalance_date.in_range(),
        cells@.len() == p.positions@.len(),
        p.positions@.len() > 0,
        call_ensures(print_portfolio_status, (&p, today, &c, &cells), r),
    ensures
        order.len() == p.positions@.len(),
        r@.len() == order.len() + 24,
        forall|k: int|
            0 <= k < order.len() ==> 0 <= (#[trigger] order[k]) < p.positions@.len() && {
                let q = p.positions@[order[k]];
                let x = cells@[order[k]];
                r@[k + 23]@ == "  "@ + text::right_aligned(q.ticker@, 8) + "  "@
                    + text::right_aligned(x.entry@, 9) + "  "@ + text::right_aligned(x.current@, 9)
                    + "  "@ + text::right_aligned(x.shares@, 9) + "  "@ + text::right_aligned(
                    text::signed_decimal(today.days - q.entry_date.days),
                    8,
                ) + "  "@ + sheet::sign_colour(q.unrealised_pnl) + text::right_aligned(x.pnl@, 9)
                    + "%\x1b[0m"@
            },
        forall|j: int, k: int|
            0 <= j < k < order.len() ==> p.positions@[#[trigger] order[j]].unrealised_pnl.place()
                >= p.positions@[#[trigger] order[k]].unrealised_pnl.place() && order[j] != order[k],
{
    let all = text::texts(r@);
    let top = head_lines(p, c, today);
    let args = (&p, today, &c, &cells);
    let found = choose|order: Seq<usize>| #[trigger]
        order::is_descending(gains(args.0.positions@), order) && all == (top + table_head() + rows(
            p.positions@,
            cells@,
            order,
            today,
        )).push(""@);
    let listed = rows(p.positions@, cells@, found, today);
    let g = gains(p.positions@);
    let order = found.map_values(|x: usize| x as int);
    assert(all.len() == r@.len());
    assert(top.len() == 19);
    assert(table_head().len() == 4);
    assert forall|k: int| 0 <= k < order.len() implies 0 <= (#[trigger] order[k])
        < p.positions@.len() && {
        let q = p.positions@[order[k]];
        let x = cells@[order[k]];
        r@[k + 23]@ == "  "@ + text::right_aligned(q.ticker@, 8) + "  "@ + text::right_aligned(
            x.entry@,
            9,
        ) + "  "@ + text::right_aligned(x.current@, 9) + "  "@ + text::right_aligned(x.shares@, 9)
            + "  "@ + text::right_aligned(text::signed_decimal(today.days - q.entry_date.days), 8)
            + "  "@ + sheet::sign_colour(q.unrealised_pnl) + text::right_aligned(x.pnl@, 9)
            + "%\x1b[0m"@
    } by {
        assert(order[k] == found[k] as int);
        assert(found[k] < g.len());
        assert(all[k + 23] == listed[k]);
        assert(listed[k] == position_row(
            p.positions@[found[k] as int],
            cells@[found[k] as int],
            today,
        ));
        assert(all[k + 23] == r@[k + 23]@);
    }
    assert forall|j: int, k: int| 0 <= j < k < order.len() implies p.positions@[
    #[trigger] order[j]].unrealised_pnl.place() >= p.positions@[
    #[trigger] order[k]].unrealised_pnl.place() && order[j] != order[k] by {
        assert(order::descends(g, found[j] as int, found[k] as int));
        assert(found[j] < g.len() && found[k] < g.len());
        assert(g[found[j] as int] == p.positions@[order[j]].unrealised_pnl);
        assert(g[found[k] as int] == p.positions@[order[k]].unrealised_pnl);
    }
    order
}

/// What was sold, kept and bought is listed under its own heading and with its own mark, in this
/// order, and each heading gives the number of trades below it.
pub proof fn trades_are_listed_under_their_heading(
    today: Date,
    sold: Vec<String>,
    kept: Vec<String>,
    bought: Vec<String>,
    positions: usize,
    value: &str,
    r: Vec<String>,
    i: int,
)
    requires
        today.in_range(),
        call_ensures(print_trade_log, (today, &sold, &kept, &bought, positions, value), r),
    ensures
        ({
            let a = sold@.len() as int;
            let b = a + kept@.len();
            let c = b + bought@.len();
            &&& r@.len() == c + 8
            &&& r@[3]@ == "  SOLD  ("@ + text::decimal(sold@.len()) + "):"@
            &&& 0 <= i < sold@.len() ==> r@[4 + i]@ == "    ✗  "@ + sold@[i]@
            &&& r@[a + 4]@ == "  KEPT  ("@ + text::decimal(kept@.len()) + "):"@
            &&& 0 <= i < kept@.len() ==> r@[a + 5 + i]@ == "    →  "@ + kept@[i]@
            &&& r@[b + 5]@ == "  BOUGHT ("@ + text::decimal(bought@.len()) + "):"@
            &&& 0 <= i < bought@.len() ==> r@[b + 6 + i]@ == "    ✓  "@ + bought@[i]@
            &&& r@[c + 6]@ == "  Total positions: "@ + text::decimal(positions as nat)
                + "   Portfolio value: $"@ + value@
        }),
{
    let all = text::texts(r@);
    let a = sold@.len() as int;
    let b = a + kept@.len();
    let c = b + bought@.len();
    let s = text::texts(sold@);
    let k = text::texts(kept@);
    let t = text::texts(bought@);
    assert(all == trade_log(today, s, k, t, positions as nat, value@));
    assert(all.len() == r@.len());
    let sl = trade_list("  SOLD  ("@, "    ✗  "@, s);
    let kl = trade_list("  KEPT  ("@, "    →  "@, k);
    let bl = trade_list("  BOUGHT ("@, "    ✓  "@, t);
    assert(sl.len() == a + 1 && kl.len() == kept@.len() + 1 && bl.len() == bought@.len() + 1);
    assert(all[3] == sl[0] && all[3] == r@[3]@);
    assert(all[a + 4] == kl[0] && all[a + 4] == r@[a + 4]@);
    assert(all[b + 5] == bl[0] && all[b + 5] == r@[b + 5]@);
    assert(all[c + 6] == r@[c + 6]@);
    if 0 <= i < sold@.len() {
        assert(all[4 + i] == sl[i + 1] && all[4 + i] == r@[4 + i]@);
        assert(sl[i + 1] == "    ✗  "@ + s[i]);
    }
    if 0 <= i < kept@.len() {
        assert(all[a + 5 + i] == kl[i + 1] && all[a + 5 + i] == r@[a + 5 + i]@);
        assert(kl[i + 1] == "    →  "@ + k[i]);
    }
    if 0 <= i < bought@.len() {
        assert(all[b + 6 + i] == bl[i + 1] && all[b + 6 + i] == r@[b + 6 + i]@);
        assert(bl[i + 1] == "    ✓  "@ + t[i]);
    }
}

} // verus!
