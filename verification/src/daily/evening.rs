//! The evening report: positions marked to market, the day's moves and what
//! needs a second look.

use vstd::prelude::*;
use vstd::string::*;

use crate::calendar;
use crate::calendar::Date;
use crate::number::Number;
use crate::order;
use crate::paper_trading::engine::Position;
use crate::paper_trading::report;
use crate::paper_trading::report::PositionCells;
use crate::sheet;
use crate::text;

verus! {

/// Encoding of 3, the percentage beyond which a day's move is flagged.
pub const FLAG_MOVE: u64 = 0x4008_0000_0000_0000;

/// What is said where there is no portfolio.
pub const NO_PORTFOLIO: &'static str = "No paper portfolio found. Run --paper-update to initialise.";

/// A position's move today.
#[derive(Debug)]
pub struct DayMove {
    /// In percent.
    pub percent: Number,
    /// Printed with its sign and two decimals.
    pub printed: String,
}

/// Whether a move calls for a second look.
pub open spec fn flagged(percent: Number) -> bool {
    !percent.nan() && percent.magnitude() > FLAG_MOVE
}

/// Whether a move is larger than three percent, up or down.
pub fn is_flagged(percent: Number) -> (r: bool)
    ensures
        r == flagged(percent),
{
    let limit: Number = Number { bits: FLAG_MOVE };
    limit.is_lt(percent.abs())
}

/// The day's move: `change`, the move in percent from the previous close to the latest price,
/// where both are prices, and otherwise zero.
pub fn today_move(latest: Number, previous: Number, change: Number) -> (r: Number)
    ensures
        r == (if (Number { bits: 0 }).lt(latest) && (Number { bits: 0 }).lt(previous) {
            change
        } else {
            Number { bits: 0 }
        }),
{
    if Number::zero().is_lt(latest) && Number::zero().is_lt(previous) {
        change
    } else {
        Number::zero()
    }
}

/// Days after which a position counts as stale: one and a half holding periods.
pub fn stale_threshold(holding_days: u32) -> (r: i64)
    ensures
        r == (3 * holding_days as int) / 2,
{
    (3 * holding_days as i64) / 2
}

/// Whether a position has been held too long.
pub open spec fn stale(p: Position, today: Date, threshold: int) -> bool {
    today.days - p.entry_date.days > threshold
}

/// The moves of positions.
pub open spec fn percents(s: Seq<DayMove>) -> Seq<Number> {
    s.map_values(|m: DayMove| m.percent)
}

/// How many of the first `n` moves are flagged.
pub open spec fn flag_count(s: Seq<DayMove>, n: int) -> int
    decreases n,
{
    if n <= 0 {
        0
    } else {
        flag_count(s, n - 1) + if flagged(s[n - 1].percent) {
            1int
        } else {
            0
        }
    }
}

/// How many of the first `n` positions are stale.
pub open spec fn stale_count(s: Seq<Position>, today: Date, threshold: int, n: int) -> int
    decreases n,
{
    if n <= 0 {
        0
    } else {
        stale_count(s, today, threshold, n - 1) + if stale(s[n - 1], today, threshold) {
            1int
        } else {
            0
        }
    }
}

/// The row of a position.
pub open spec fn row(
    rank: int,
    p: Position,
    c: PositionCells,
    m: DayMove,
    today: Date,
    threshold: int,
) -> Seq<char> {
    "  "@ + text::right_aligned(text::decimal(rank as nat), 4) + "  "@ + text::left_aligned(
        p.ticker@,
        14,
    ) + "  "@ + text::right_aligned(c.entry@, 9) + "  "@ + text::right_aligned(c.current@, 9)
        + "  "@ + text::right_aligned(c.shares@, 9) + "  "@ + text::right_aligned(
        text::signed_decimal(today.days - p.entry_date.days),
        7,
    ) + "  "@ + sheet::sign_colour(p.unrealised_pnl) + text::right_aligned(c.pnl@, 7)
        + "%\x1b[0m  "@ + sheet::sign_colour(m.percent) + m.printed@ + "%"@ + (if flagged(
        m.percent,
    ) {
        " \x1b[33m⚠\x1b[0m"@
    } else {
        "  "@
    }) + (if stale(p, today, threshold) {
        " \x1b[35mSTALE\x1b[0m"@
    } else {
        ""@
    })
}

/// The lines above the positions.
pub open spec fn head(today: Date) -> Seq<Seq<char>> {
    seq![
        ""@,
        "\x1b[1m\x1b[97m══════════════════════════════════════════════════════════════\x1b[0m"@,
        "\x1b[1m\x1b[97m  EVENING REPORT — "@ + calendar::day_text(today.days as int)
            + "\x1b[0m"@,
        "\x1b[1m\x1b[97m══════════════════════════════════════════════════════════════\x1b[0m"@,
        ""@,
        "  \x1b[1mOpen Positions — End of Day\x1b[0m"@,
        "  ──────────────────────────────────────────────────────────────────────────────────"@,
        "  Rank  Ticker              Entry    Current     Shares     Days      P&L%  Today"@,
        "  ──────────────────────────────────────────────────────────────────────────────────"@,
    ]
}

/// The rows of positions in a given order.
pub open spec fn rows(
    s: Seq<Position>,
    cells: Seq<PositionCells>,
    moves: Seq<DayMove>,
    order: Seq<usize>,
    today: Date,
    threshold: int,
) -> Seq<Seq<char>> {
    Seq::new(
        order.len(),
        |k: int|
            row(
                k + 1,
                s[order[k] as int],
                cells[order[k] as int],
                moves[order[k] as int],
                today,
                threshold,
            ),
    )
}

/// A line that names a position and its move.
pub open spec fn move_line(label: Seq<char>, p: Position, m: DayMove) -> Seq<char> {
    label + p.ticker@ + " ("@ + m.printed@ + "%)"@
}

/// The lines below the positions: totals, the best and the worst move, and warnings. `best` orders
/// the positions by decreasing move.
pub open spec fn tail(
    s: Seq<Position>,
    moves: Seq<DayMove>,
    best: Seq<usize>,
    total: Seq<char>,
    total_pnl: Seq<char>,
    today: Date,
    threshold: int,
) -> Seq<Seq<char>> {
    seq![
        ""@,
        "  \x1b[1mSummary\x1b[0m"@,
        "  ─────────────────────────────────────────"@,
        "  Total portfolio value : "@ + text::right_aligned(total, 12),
        "  P&L since inception   : "@ + text::right_aligned(total_pnl, 11) + "%"@,
    ] + (if s.len() > 0 {
        let first = best[0] as int;
        let last = best[best.len() - 1] as int;
        seq![
            move_line("  Best today            : "@, s[first], moves[first]),
            move_line("  Worst today           : "@, s[last], moves[last]),
        ]
    } else {
        seq![]
    }) + (if flag_count(moves, moves.len() as int) > 0 {
        seq![
            ""@,
            "  \x1b[33m⚠  "@ + text::decimal(flag_count(moves, moves.len() as int) as nat)
                + " position(s) moved >±3% today — review warranted.\x1b[0m"@,
        ]
    } else {
        seq![]
    }) + (if stale_count(s, today, threshold, s.len() as int) > 0 {
        seq![
            "  \x1b[35mSTALE: "@ + text::decimal(
                stale_count(s, today, threshold, s.len() as int) as nat,
            ) + " position(s) held beyond 2× holding period ("@ + text::signed_decimal(threshold)
                + " days).\x1b[0m"@,
        ]
    } else {
        seq![]
    }) + seq![
        ""@,
        "\x1b[1m\x1b[97m══════════════════════════════════════════════════════════════\x1b[0m"@,
    ]
}

/// The row of a position, as text.
fn row_text(
    rank: usize,
    p: &Position,
    c: &PositionCells,
    m: &DayMove,
    today: Date,
    threshold: i64,
) -> (r: String)
    ensures
        r@ == row(rank as int, *p, *c, *m, today, threshold as int),
{
    let days: i64 = today.days_since(p.entry_date);
    let mut s: String = "  ".to_owned();
    s.append(text::pad_left(text::decimal_text(rank as u64).as_str(), 4).as_str());
    s.append("  ");
    s.append(text::pad_right(p.ticker.as_str(), 14).as_str());
    s.append("  ");
    s.append(text::pad_left(c.entry.as_str(), 9).as_str());
    s.append("  ");
    s.append(text::pad_left(c.current.as_str(), 9).as_str());
    s.append("  ");
    s.append(text::pad_left(c.shares.as_str(), 9).as_str());
    s.append("  ");
    s.append(text::pad_left(text::signed_text(days).as_str(), 7).as_str());
    s.append("  ");
    s.append(sheet::colour_of_sign(p.unrealised_pnl));
    s.append(text::pad_left(c.pnl.as_str(), 7).as_str());
    s.append("%\x1b[0m  ");
    s.append(sheet::colour_of_sign(m.percent));
    s.append(m.printed.as_str());
    s.append("%");
    if is_flagged(m.percent) {
        s.append(" \x1b[33m⚠\x1b[0m");
    } else {
        s.append("  ");
    }
    if days > threshold {
        s.append(" \x1b[35mSTALE\x1b[0m");
    } else {
        s.append("");
    }
    s
}

/// Adds the lines above the positions.
fn put_head(lines: &mut Vec<String>, today: Date)
    requires
        today.in_range(),
    ensures
        text::texts(final(lines)@) == text::texts(old(lines)@) + head(today),
{
    let ghost before = text::texts(lines@);
    sheet::put(lines, "");
    sheet::put(
        lines,
        "\x1b[1m\x1b[97m══════════════════════════════════════════════════════════════\x1b[0m",
    );
    let mut title: String = "\x1b[1m\x1b[97m  EVENING REPORT — ".to_owned();
    title.append(today.text().as_str());
    title.append("\x1b[0m");
    sheet::put(lines, title.as_str());
    sheet::put(
        lines,
        "\x1b[1m\x1b[97m══════════════════════════════════════════════════════════════\x1b[0m",
    );
    sheet::put(lines, "");
    sheet::put(lines, "  \x1b[1mOpen Positions — End of Day\x1b[0m");
    sheet::put(
        lines,
        "  ──────────────────────────────────────────────────────────────────────────────────",
    );
    sheet::put(
        lines,
        "  Rank  Ticker              Entry    Current     Shares     Days      P&L%  Today",
    );
    sheet::put(
        lines,
        "  ──────────────────────────────────────────────────────────────────────────────────",
    );
    proof {
        assert(text::texts(lines@) =~= before + head(today));
    }
}

/// The positions by decreasing move.
pub fn by_move(moves: &Vec<DayMove>) -> (p: Vec<usize>)
    ensures
        order::is_descending(percents(moves@), p@),
{
    let mut v: Vec<Number> = Vec::new();
    let mut i: usize = 0;
    while i < moves.len()
        invariant
            i <= moves.len(),
            v.len() == i,
            forall|k: int| 0 <= k < i ==> (#[trigger] v@[k]) == moves@[k].percent,
        decreases moves.len() - i,
    {
        v.push(moves[i].percent);
        i = i + 1;
    }
    proof {
        assert(v@ =~= percents(moves@));
    }
    order::descending_order(&v)
}

/// How many moves are flagged.
pub fn count_flagged(moves: &Vec<DayMove>) -> (r: usize)
    ensures
        r == flag_count(moves@, moves@.len() as int),
{
    let mut n: usize = 0;
    let mut i: usize = 0;
    while i < moves.len()
        invariant
            i <= moves.len(),
            n <= i,
            n == flag_count(moves@, i as int),
        decreases moves.len() - i,
    {
        if is_flagged(moves[i].percent) {
            n = n + 1;
        }
        i = i + 1;
    }
    n
}

/// How many positions are stale.
pub fn count_stale(positions: &Vec<Position>, today: Date, threshold: i64) -> (r: usize)
    ensures
        r == stale_count(positions@, today, threshold as int, positions@.len() as int),
{
    let mut n: usize = 0;
    let mut i: usize = 0;
    while i < positions.len()
        invariant
            i <= positions.len(),
            n <= i,
            n == stale_count(positions@, today, threshold as int, i as int),
        decreases positions.len() - i,
    {
        if today.days_since(positions[i].entry_date) > threshold {
            n = n + 1;
        }
        i = i + 1;
    }
    n
}

/// Adds a line that names a position and its move.
fn put_move(lines: &mut Vec<String>, label: &str, p: &Position, m: &DayMove)
    ensures
        text::texts(final(lines)@) == text::texts(old(lines)@).push(move_line(label@, *p, *m)),
{
    let mut s: String = label.to_owned();
    s.append(p.ticker.as_str());
    s.append(" (");
    s.append(m.printed.as_str());
    s.append("%)");
    sheet::put(lines, s.as_str());
}

/// Adds the lines below the positions.
fn put_tail(
    lines: &mut Vec<String>,
    positions: &Vec<Position>,
    moves: &Vec<DayMove>,
    best: &Vec<usize>,
    total: &str,
    total_pnl: &str,
    today: Date,
    threshold: i64,
)
    requires
        moves@.len() == positions@.len(),
        order::is_descending(percents(moves@), best@),
        threshold >= 0,
    ensures
        text::texts(final(lines)@) == text::texts(old(lines)@) + tail(
            positions@,
            moves@,
            best@,
            total@,
            total_pnl@,
            today,
            threshold as int,
        ),
{
    let ghost before = text::texts(lines@);
    sheet::put(lines, "");
    sheet::put(lines, "  \x1b[1mSummary\x1b[0m");
    sheet::put(lines, "  ─────────────────────────────────────────");
    let mut value: String = "  Total portfolio value : ".to_owned();
    value.append(text::pad_left(total, 12).as_str());
    sheet::put(lines, value.as_str());
    let mut gain: String = "  P&L since inception   : ".to_owned();
    gain.append(text::pad_left(total_pnl, 11).as_str());
    gain.append("%");
    sheet::put(lines, gain.as_str());
    let ghost part1 = seq![
        ""@,
        "  \x1b[1mSummary\x1b[0m"@,
        "  ─────────────────────────────────────────"@,
        "  Total portfolio value : "@ + text::right_aligned(total@, 12),
        "  P&L since inception   : "@ + text::right_aligned(total_pnl@, 11) + "%"@,
    ];
    proof {
        assert(text::texts(lines@) =~= before + part1);
    }
    let ghost part2 = if positions@.len() > 0 {
        let first = best@[0] as int;
        let last = best@[best@.len() - 1] as int;
        seq![
            move_line("  Best today            : "@, positions@[first], moves@[first]),
            move_line("  Worst today           : "@, positions@[last], moves@[last]),
        ]
    } else {
        seq![]
    };
    if positions.len() > 0 {
        proof {
            assert(best@[0] < percents(moves@).len());
            assert(best@[best@.len() - 1] < percents(moves@).len());
        }
        let first: usize = best[0];
        let last: usize = best[best.len() - 1];
        put_move(lines, "  Best today            : ", &positions[first], &moves[first]);
        put_move(lines, "  Worst today           : ", &positions[last], &moves[last]);
    }
    proof {
        assert(text::texts(lines@) =~= before + (part1 + part2));
    }
    let n_flagged: usize = count_flagged(moves);
    let ghost part3 = if flag_count(moves@, moves@.len() as int) > 0 {
        seq![
            ""@,
            "  \x1b[33m⚠  "@ + text::decimal(flag_count(moves@, moves@.len() as int) as nat)
                + " position(s) moved >±3% today — review warranted.\x1b[0m"@,
        ]
    } else {
        seq![]
    };
    if n_flagged > 0 {
        sheet::put(lines, "");
        let mut s: String = "  \x1b[33m⚠  ".to_owned();
        s.append(text::decimal_text(n_flagged as u64).as_str());
        s.append(" position(s) moved >±3% today — review warranted.\x1b[0m");
        sheet::put(lines, s.as_str());
    }
    proof {
        assert(text::texts(lines@) =~= before + (part1 + part2 + part3));
    }
    let n_stale: usize = count_stale(positions, today, threshold);
    let ghost part4 = if stale_count(
        positions@,
        today,
        threshold as int,
        positions@.len() as int,
    ) > 0 {
        seq![
            "  \x1b[35mSTALE: "@ + text::decimal(
                stale_count(positions@, today, threshold as int, positions@.len() as int) as nat,
            ) + " position(s) held beyond 2× holding period ("@ + text::signed_decimal(
                threshold as int,
            ) + " days).\x1b[0m"@,
        ]
    } else {
        seq![]
    };
    if n_stale > 0 {
        let mut s: String = "  \x1b[35mSTALE: ".to_owned();
        s.append(text::decimal_text(n_stale as u64).as_str());
        s.append(" position(s) held beyond 2× holding period (");
        s.append(text::signed_text(threshold).as_str());
        s.append(" days).\x1b[0m");
        sheet::put(lines, s.as_str());
    }
    proof {
        assert(text::texts(lines@) =~= before + (part1 + part2 + part3 + part4));
    }
    sheet::put(lines, "");
    sheet::put(
        lines,
        "\x1b[1m\x1b[97m══════════════════════════════════════════════════════════════\x1b[0m",
    );
    proof {
        let part5 = seq![
            ""@,
            "\x1b[1m\x1b[97m══════════════════════════════════════════════════════════════\x1b[0m"@,
        ];
        assert(text::texts(lines@) =~= before + (part1 + part2 + part3 + part4 + part5));
    }
}

/// The evening report on marked positions, each with its printed amounts and its move today.
pub fn evening_lines(
    positions: &Vec<Position>,
    cells: &Vec<PositionCells>,
    moves: &Vec<DayMove>,
    total: &str,
    total_pnl: &str,
    today: Date,
    holding_days: u32,
) -> (r: Vec<String>)
    requires
        today.in_range(),
        cells@.len() == positions@.len(),
        moves@.len() == positions@.len(),
    ensures
        exists|ranks: Seq<usize>, best: Seq<usize>|
            #![trigger order::is_descending(report::gains(positions@), ranks),
                order::is_descending(percents(moves@), best)]
            order::is_descending(report::gains(positions@), ranks) && order::is_descending(
                percents(moves@),
                best,
            ) && text::texts(r@) == head(today) + rows(
                positions@,
                cells@,
                moves@,
                ranks,
                today,
                (3 * holding_days as int) / 2,
            ) + tail(
                positions@,
                moves@,
                best,
                total@,
                total_pnl@,
                today,
                (3 * holding_days as int) / 2,
            ),
{
    let threshold: i64 = stale_threshold(holding_days);
    let mut lines: Vec<String> = Vec::new();
    put_head(&mut lines, today);
    let ranks: Vec<usize> = report::by_gain(positions);
    let best: Vec<usize> = by_move(moves);
    let ghost all = rows(positions@, cells@, moves@, ranks@, today, threshold as int);
    let mut k: usize = 0;
    proof {
        assert(text::texts(lines@) =~= head(today) + all.take(0));
    }
    while k < ranks.len()
        invariant
            k <= ranks.len(),
            cells@.len() == positions@.len(),
            moves@.len() == positions@.len(),
            order::is_descending(report::gains(positions@), ranks@),
            all == rows(positions@, cells@, moves@, ranks@, today, threshold as int),
            text::texts(lines@) == head(today) + all.take(k as int),
        decreases ranks.len() - k,
    {
        let i: usize = ranks[k];
        proof {
            assert(ranks@[k as int] < report::gains(positions@).len());
        }
        let line: String = row_text(k + 1, &positions[i], &cells[i], &moves[i], today, threshold);
        sheet::put(&mut lines, line.as_str());
        proof {
            assert(all[k as int] == line@);
            assert(all.take(k + 1) =~= all.take(k as int).push(line@));
            assert(text::texts(lines@) =~= head(today) + all.take(k + 1));
        }
        k = k + 1;
    }
    proof {
        assert(all.take(ranks.len() as int) =~= all);
    }
    put_tail(&mut lines, positions, moves, &best, total, total_pnl, today, threshold);
    proof {
        assert(order::is_descending(report::gains(positions@), ranks@));
        assert(order::is_descending(percents(moves@), best@));
    }
    lines
}

// ── What the report says ─────────────────────────────────────────────────────

/// A move is flagged where it is greater than three percent, up or down, and not otherwise.
pub proof fn moves_beyond_three_percent_are_flagged(percent: Number, r: bool)
    requires
        call_ensures(is_flagged, (percent,), r),
    ensures
        percent.bits <= 0x4008_0000_0000_0000 ==> !r,
        0x4008_0000_0000_0000 < percent.bits < 0x7FF0_0000_0000_0000 ==> r,
        0x8000_0000_0000_0000 <= percent.bits <= 0xC008_0000_0000_0000 ==> !r,
        0xC008_0000_0000_0000 < percent.bits < 0xFFF0_0000_0000_0000 ==> r,
{
}

/// A move is known where both prices are; otherwise it counts as none.
pub proof fn moves_need_two_prices(latest: Number, previous: Number, change: Number, r: Number)
    requires
        call_ensures(today_move, (latest, previous, change), r),
    ensures
        0 < latest.bits < 0x7FF0_0000_0000_0000 && 0 < previous.bits < 0x7FF0_0000_0000_0000 ==> r
            == change,
        latest.bits == 0 || latest.bits >= 0x8000_0000_0000_0000 ==> r.bits == 0,
        previous.bits == 0 || previous.bits >= 0x8000_0000_0000_0000 ==> r.bits == 0,
{
}

/// A position goes stale after one and a half holding periods, in whole days.
pub proof fn positions_go_stale_after_one_and_a_half_periods(
    holding_days: u32,
    threshold: i64,
    p: Vec<Position>,
    today: Date,
    r: usize,
)
    requires
        call_ensures(stale_threshold, (holding_days,), threshold),
        call_ensures(count_stale, (&p, today, threshold), r),
        p@.len() == 1,
    ensures
        2 * threshold <= 3 * holding_days < 2 * threshold + 2,
        r == (if 2 * (today.days - p@[0].entry_date.days) > 3 * holding_days {
            1int
        } else {
            0int
        }),
{
    reveal_with_fuel(stale_count, 3);
}

proof fn lemma_flag_count(s: Seq<DayMove>, n: int)
    requires
        0 <= n <= s.len(),
    ensures
        flag_count(s, n) == s.take(n).filter(|m: DayMove| flagged(m.percent)).len(),
    decreases n,
{
    reveal(Seq::filter);
    if n > 0 {
        lemma_flag_count(s, n - 1);
        assert(s.take(n).drop_last() =~= s.take(n - 1));
        assert(s.take(n).last() == s[n - 1]);
    }
}

proof fn lemma_stale_count(s: Seq<Position>, today: Date, threshold: int, n: int)
    requires
        0 <= n <= s.len(),
    ensures
        stale_count(s, today, threshold, n) == s.take(n).filter(
            |p: Position| today.days - p.entry_date.days > threshold,
        ).len(),
    decreases n,
{
    reveal(Seq::filter);
    if n > 0 {
        lemma_stale_count(s, today, threshold, n - 1);
        assert(s.take(n).drop_last() =~= s.take(n - 1));
        assert(s.take(n).last() == s[n - 1]);
    }
}

/// The counts are of the moves that are flagged and of the positions held for more days than the
/// threshold.
pub proof fn counts_are_of_flagged_moves_and_stale_positions(
    moves: Vec<DayMove>,
    positions: Vec<Position>,
    today: Date,
    threshold: i64,
    n: usize,
    m: usize,
)
    requires
        call_ensures(count_flagged, (&moves,), n),
        call_ensures(count_stale, (&positions, today, threshold), m),
    ensures
        n == moves@.filter(
            |x: DayMove|
                0x4008_0000_0000_0000 < x.percent.bits % 0x8000_0000_0000_0000
                    <= 0x7FF0_0000_0000_0000,
        ).len(),
        m == positions@.filter(|p: Position| today.days - p.entry_date.days > threshold).len(),
{
    let a = |x: DayMove| flagged(x.percent);
    let b = |x: DayMove|
        0x4008_0000_0000_0000 < x.percent.bits % 0x8000_0000_0000_0000 <= 0x7FF0_0000_0000_0000;
    assert forall|x: DayMove| #[trigger] a(x) == b(x) by {}
    assert(a =~= b);
    lemma_flag_count(moves@, moves@.len() as int);
    assert(moves@.take(moves@.len() as int) =~= moves@);
    lemma_stale_count(positions@, today, threshold as int, positions@.len() as int);
    assert(positions@.take(positions@.len() as int) =~= positions@);
}

/// The best move named is one that no other exceeds, and the worst one that exceeds no other; each
/// is given with its own ticker.
pub proof fn the_best_and_the_worst_move_are_named(
    positions: Vec<Position>,
    cells: Vec<PositionCells>,
    moves: Vec<DayMove>,
    total: &str,
    total_pnl: &str,
    today: Date,
    holding_days: u32,
    r: Vec<String>,
) -> (ends: (int, int))
    requires
        today.in_range(),
        positions@.len() > 0,
        cells@.len() == positions@.len(),
        moves@.len() == positions@.len(),
        call_ensures(
            evening_lines,
            (&positions, &cells, &moves, total, total_pnl, today, holding_days),
            r,
        ),
    ensures
        0 <= ends.0 < positions@.len(),
        0 <= ends.1 < positions@.len(),
        forall|i: int|
            0 <= i < moves@.len() ==> (#[trigger] moves@[i]).percent.place()
                <= moves@[ends.0].percent.place() && moves@[ends.1].percent.place()
                <= moves@[i].percent.place(),
        sheet::has_line(
            r@,
            "  Best today            : "@ + positions@[ends.0].ticker@ + " ("@
                + moves@[ends.0].printed@ + "%)"@,
        ),
        sheet::has_line(
            r@,
            "  Worst today           : "@ + positions@[ends.1].ticker@ + " ("@
                + moves@[ends.1].printed@ + "%)"@,
        ),
{
    let t = (3 * holding_days as int) / 2;
    let args = (&positions, &cells, &moves, total, total_pnl, today, holding_days);
    let (ranks, best) = choose|ranks: Seq<usize>, best: Seq<usize>|
        #![trigger order::is_descending(report::gains(args.0@), ranks),
            order::is_descending(percents(args.2@), best)]
        order::is_descending(report::gains(args.0@), ranks) && order::is_descending(
            percents(args.2@),
            best,
        ) && text::texts(r@) == head(today) + rows(positions@, cells@, moves@, ranks, today, t)
            + tail(positions@, moves@, best, total@, total_pnl@, today, t);
    let v = percents(moves@);
    let n = moves@.len() as int;
    let front = head(today) + rows(positions@, cells@, moves@, ranks, today, t);
    let back = tail(positions@, moves@, best, total@, total_pnl@, today, t);
    let first = best[0] as int;
    let last = best[n - 1] as int;
    assert(best[0] < v.len());
    assert(best[n - 1] < v.len());
    assert forall|i: int| 0 <= i < n implies (#[trigger] moves@[i]).percent.place()
        <= moves@[first].percent.place() && moves@[last].percent.place()
        <= moves@[i].percent.place() by {
        order::every_position_is_listed(v, best, i);
        let k = choose|k: int| 0 <= k < best.len() && #[trigger] best[k] == i;
        assert(v[i] == moves@[i].percent);
        assert(v[first] == moves@[first].percent);
        assert(v[last] == moves@[last].percent);
        if k > 0 {
            assert(order::descends(v, best[0] as int, best[k] as int));
        }
        if k < n - 1 {
            assert(order::descends(v, best[k] as int, best[n - 1] as int));
        }
    }
    let all = text::texts(r@);
    assert(all.len() == r@.len());
    assert(all == front + back);
    let k = front.len() as int + 5;
    assert(back[5] == move_line("  Best today            : "@, positions@[first], moves@[first]));
    assert(back[6] == move_line("  Worst today           : "@, positions@[last], moves@[last]));
    assert(all[k] == back[5]);
    assert(all[k + 1] == back[6]);
    assert(r@[k]@ == back[5]);
    assert(r@[k + 1]@ == back[6]);
    (first, last)
}

/// Positions are listed by decreasing gain below nine lines of heading, each once and with its own
/// prices, gain and move; a stale one says so.
pub proof fn positions_are_listed_with_their_own_figures(
    positions: Vec<Position>,
    cells: Vec<PositionCells>,
    moves: Vec<DayMove>,
    total: &str,
    total_pnl: &str,
    today: Date,
    holding_days: u32,
    r: Vec<String>,
) -> (order: Seq<int>)
    requires
        today.in_range(),
        cells@.len() == positions@.len(),
        moves@.len() == positions@.len(),
        call_ensures(
            evening_lines,
            (&positions, &cells, &moves, total, total_pnl, today, holding_days),
            r,
        ),
    ensures
        order.len() == positions@.len(),
        r@.len() >= order.len() + 9,
        forall|j: int, k: int|
            0 <= j < k < order.len() ==> positions@[#[trigger] order[j]].unrealised_pnl.place()
                >= positions@[#[trigger] order[k]].unrealised_pnl.place() && order[j] != order[k],
        forall|k: int|
            0 <= k < order.len() ==> 0 <= (#[trigger] order[k]) < positions@.len() && {
                let p = positions@[order[k]];
                let c = cells@[order[k]];
                let m = moves@[order[k]];
                let line = "  "@ + text::right_aligned(text::decimal((k + 1) as nat), 4) + "  "@
                    + text::left_aligned(p.ticker@, 14) + "  "@ + text::right_aligned(c.entry@, 9)
                    + "  "@ + text::right_aligned(c.current@, 9) + "  "@ + text::right_aligned(
                    c.shares@,
                    9,
                ) + "  "@ + text::right_aligned(
                    text::signed_decimal(today.days - p.entry_date.days),
                    7,
                ) + "  "@ + sheet::sign_colour(p.unrealised_pnl) + text::right_aligned(c.pnl@, 7)
                    + "%\x1b[0m  "@ + sheet::sign_colour(m.percent) + m.printed@ + "%"@;
                &&& line.is_prefix_of(r@[k + 9]@)
                &&& 2 * (today.days - p.entry_date.days) > 3 * holding_days
                    ==> " \x1b[35mSTALE\x1b[0m"@.is_suffix_of(r@[k + 9]@)
                &&& 2 * (today.days - p.entry_date.days) <= 3 * holding_days && m.percent.bits == 0
                    ==> r@[k + 9]@ == line + "  "@
            },
{
    let t = (3 * holding_days as int) / 2;
    let args = (&positions, &cells, &moves, total, total_pnl, today, holding_days);
    let (ranks, best) = choose|ranks: Seq<usize>, best: Seq<usize>|
        #![trigger order::is_descending(report::gains(args.0@), ranks),
            order::is_descending(percents(args.2@), best)]
        order::is_descending(report::gains(args.0@), ranks) && order::is_descending(
            percents(args.2@),
            best,
        ) && text::texts(r@) == head(today) + rows(positions@, cells@, moves@, ranks, today, t)
            + tail(positions@, moves@, best, total@, total_pnl@, today, t);
    let middle = rows(positions@, cells@, moves@, ranks, today, t);
    let all = text::texts(r@);
    let gains = report::gains(positions@);
    let order = ranks.map_values(|x: usize| x as int);
    assert(all.len() == r@.len());
    assert(head(today).len() == 9);
    assert forall|j: int, k: int| 0 <= j < k < order.len() implies positions@[
    #[trigger] order[j]].unrealised_pnl.place() >= positions@[
    #[trigger] order[k]].unrealised_pnl.place() && order[j] != order[k] by {
        assert(order::descends(gains, ranks[j] as int, ranks[k] as int));
        assert(ranks[j] < gains.len() && ranks[k] < gains.len());
        assert(gains[ranks[j] as int] == positions@[order[j]].unrealised_pnl);
        assert(gains[ranks[k] as int] == positions@[order[k]].unrealised_pnl);
    }
    assert forall|k: int| 0 <= k < order.len() implies 0 <= (#[trigger] order[k]) < positions@.len()
        && {
        let p = positions@[order[k]];
        let c = cells@[order[k]];
        let m = moves@[order[k]];
        let line = "  "@ + text::right_aligned(text::decimal((k + 1) as nat), 4) + "  "@
            + text::left_aligned(p.ticker@, 14) + "  "@ + text::right_aligned(c.entry@, 9) + "  "@
            + text::right_aligned(c.current@, 9) + "  "@ + text::right_aligned(c.shares@, 9) + "  "@
            + text::right_aligned(text::signed_decimal(today.days - p.entry_date.days), 7) + "  "@
            + sheet::sign_colour(p.unrealised_pnl) + text::right_aligned(c.pnl@, 7)
            + "%\x1b[0m  "@ + sheet::sign_colour(m.percent) + m.printed@ + "%"@;
        &&& line.is_prefix_of(r@[k + 9]@)
        &&& 2 * (today.days - p.entry_date.days) > 3 * holding_days
            ==> " \x1b[35mSTALE\x1b[0m"@.is_suffix_of(r@[k + 9]@)
        &&& 2 * (today.days - p.entry_date.days) <= 3 * holding_days && m.percent.bits == 0
            ==> r@[k + 9]@ == line + "  "@
    } by {
        assert(order[k] == ranks[k] as int);
        assert(ranks[k] < gains.len());
        let p = positions@[order[k]];
        let c = cells@[order[k]];
        let m = moves@[order[k]];
        let line = "  "@ + text::right_aligned(text::decimal((k + 1) as nat), 4) + "  "@
            + text::left_aligned(p.ticker@, 14) + "  "@ + text::right_aligned(c.entry@, 9) + "  "@
            + text::right_aligned(c.current@, 9) + "  "@ + text::right_aligned(c.shares@, 9) + "  "@
            + text::right_aligned(text::signed_decimal(today.days - p.entry_date.days), 7) + "  "@
            + sheet::sign_colour(p.unrealised_pnl) + text::right_aligned(c.pnl@, 7)
            + "%\x1b[0m  "@ + sheet::sign_colour(m.percent) + m.printed@ + "%"@;
        let shown = row(k + 1, p, c, m, today, t);
        assert(all[k + 9] == middle[k]);
        assert(middle[k] == shown);
        assert(r@[k + 9]@ == shown);
        let flag = if flagged(m.percent) {
            " \x1b[33m⚠\x1b[0m"@
        } else {
            "  "@
        };
        let mark = if stale(p, today, t) {
            " \x1b[35mSTALE\x1b[0m"@
        } else {
            ""@
        };
        assert(shown == line + flag + mark);
        assert(shown.take(line.len() as int) =~= line);
        assert(shown.skip(shown.len() - mark.len()) =~= mark);
        reveal_strlit("");
        if !stale(p, today, t) {
            assert(shown =~= line + flag);
        }
    }
    order
}

} // verus!
