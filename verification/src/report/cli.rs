//! The reports of the command line.
//!
//! Every amount arrives printed, without padding; where its colour depends on
//! it, the number comes along. The reports lay the amounts out in lines.

use vstd::prelude::*;
use vstd::string::*;
use vstd::utf8::*;

use crate::calendar;
use crate::calendar::Date;
use crate::correlations::concentration_guard;
use crate::correlations::concentration_guard::{ConcentrationGuard, CorrelationWarning};
use crate::metrics::stats::DrawdownPeriod;
use crate::number::Number;
use crate::order;
use crate::portfolio::engine::RebalanceFrequency;
use crate::portfolio::rebalancer;
use crate::portfolio::rebalancer::SwapEvent;
use crate::roles;
use crate::roles::Role;
use crate::sheet;
use crate::signals::SignalScore;
use crate::text;

verus! {

/// Minus a fifth, as an encoded number.
pub const MINUS_FIFTH: u64 = 0xBFC9_9999_9999_999A;

/// Sixty-five, as an encoded number.
pub const SIXTY_FIVE: u64 = 0x4050_4000_0000_0000;

/// Forty-five, as an encoded number.
pub const FORTY_FIVE: u64 = 0x4046_8000_0000_0000;

/// Twenty-five, as an encoded number.
pub const TWENTY_FIVE: u64 = 0x4039_0000_0000_0000;

/// Fifty, as an encoded number.
pub const FIFTY: u64 = 0x4049_0000_0000_0000;

/// The command-line reporter.
pub struct CliReporter;

// ── Shortened names ──────────────────────────────────────────────────────────

/// Where a name that is longer than `max` bytes is cut.
pub open spec fn cut(max: int) -> int {
    if max > 0 {
        max - 1
    } else {
        0
    }
}

/// Whether a name fits into `max` bytes or can be cut where a longer one is.
pub open spec fn can_truncate(s: Seq<char>, max: int) -> bool {
    encode_utf8(s).len() as usize <= max || is_char_boundary(encode_utf8(s), cut(max))
}

/// A name of `max` bytes at most, or the first ones of a longer name and an ellipsis.
pub open spec fn truncated(s: Seq<char>, max: int) -> Seq<char> {
    if encode_utf8(s).len() as usize <= max {
        s
    } else {
        decode_utf8(encode_utf8(s).subrange(0, cut(max))) + "…"@
    }
}

/// Shortens a name that is longer than `max` bytes.
pub fn truncate(s: &str, max: usize) -> (r: String)
    requires
        can_truncate(s@, max as int),
    ensures
        r@ == truncated(s@, max as int),
{
    if s.len() <= max {
        s.to_owned()
    } else {
        let end: usize = if max > 0 {
            max - 1
        } else {
            0
        };
        let (head, _tail): (&str, &str) = s.split_at(end);
        proof {
            encode_utf8_decode_utf8(head@);
        }
        let mut out: String = head.to_owned();
        out.append("…");
        out
    }
}

// ── Header and summary ───────────────────────────────────────────────────────

/// The name of a frequency.
pub open spec fn frequency_name(f: RebalanceFrequency) -> Seq<char> {
    match f {
        RebalanceFrequency::Daily => "Daily"@,
        RebalanceFrequency::Weekly => "Weekly"@,
        RebalanceFrequency::Monthly => "Monthly"@,
        RebalanceFrequency::Quarterly => "Quarterly"@,
        RebalanceFrequency::Annual => "Annual"@,
    }
}

/// The name of a frequency.
fn name_of(f: RebalanceFrequency) -> (r: &'static str)
    ensures
        r@ == frequency_name(f),
{
    match f {
        RebalanceFrequency::Daily => "Daily",
        RebalanceFrequency::Weekly => "Weekly",
        RebalanceFrequency::Monthly => "Monthly",
        RebalanceFrequency::Quarterly => "Quarterly",
        RebalanceFrequency::Annual => "Annual",
    }
}

/// The names of roles.
pub open spec fn labels(s: Seq<Role>) -> Seq<Seq<char>> {
    s.map_values(|r: Role| roles::role_label(r))
}

/// The names of roles, with commas between them.
fn join_labels(v: &Vec<Role>) -> (r: String)
    ensures
        r@ == order::joined(labels(v@), ", "@),
{
    let mut names: Vec<String> = Vec::new();
    let mut i: usize = 0;
    while i < v.len()
        invariant
            i <= v@.len(),
            names@.len() == i,
            forall|k: int| 0 <= k < i ==> (#[trigger] names@[k])@ == roles::role_label(v@[k]),
        decreases v@.len() - i,
    {
        names.push(v[i].label().to_owned());
        i = i + 1;
    }
    proof {
        assert(text::texts(names@) =~= labels(v@));
    }
    order::join(&names, ", ")
}

/// What a simulation was run with.
#[derive(Debug)]
pub struct RunConfig {
    pub start_date: Date,
    pub end_date: Date,
    /// Printed with two decimals.
    pub capital: String,
    pub rebalance_freq: RebalanceFrequency,
    pub active_roles: Vec<Role>,
    pub benchmark_ticker: String,
}

/// The lines above a simulation report.
pub open spec fn header_lines(c: RunConfig) -> Seq<Seq<char>> {
    seq![
        ""@,
        "\x1b[1m\x1b[97m╔══════════════════════════════════════════════════════════╗\x1b[0m"@,
        "\x1b[1m\x1b[97m║          PORTFOLIO SIMULATOR — SIMULATION REPORT         ║\x1b[0m"@,
        "\x1b[1m\x1b[97m╚══════════════════════════════════════════════════════════╝\x1b[0m"@,
        ""@,
        "\x1b[1mPeriod      \x1b[0m"@ + calendar::day_text(c.start_date.days as int) + " → "@ + calendar::day_text(c.end_date.days as int),
        "\x1b[1mCapital     \x1b[0m$"@ + c.capital@,
        "\x1b[1mRebalance   \x1b[0m"@ + frequency_name(c.rebalance_freq),
        "\x1b[1mRoles       \x1b[0m"@ + order::joined(labels(c.active_roles@), ", "@),
        "\x1b[1mBenchmark   \x1b[0m"@ + c.benchmark_ticker@,
        "\x1b[2m────────────────────────────────────────────────────────────\x1b[0m"@,
    ]
}

/// The figures of a simulation, printed: returns and ratios with two decimals, returns with their
/// sign.
#[derive(Debug)]
pub struct SummaryCells {
    pub total_return: String,
    pub benchmark_return: String,
    pub annualised_return: String,
    pub alpha: String,
    pub sharpe_ratio: String,
    pub sortino_ratio: String,
    pub max_drawdown: String,
    pub volatility: String,
    pub calmar_ratio: String,
    pub annualised_alpha: String,
}

/// The figures of a simulation that are coloured or counted.
#[derive(Clone, Copy, Debug)]
pub struct Summary {
    pub total_return: Number,
    pub alpha: Number,
    pub max_drawdown: Number,
    pub trading_days: usize,
    pub total_swaps: usize,
}

/// Red for a drawdown of more than a fifth, yellow otherwise.
pub open spec fn drawdown_colour(n: Number) -> Seq<char> {
    if n.lt(Number { bits: MINUS_FIFTH }) {
        "\x1b[31m"@
    } else {
        "\x1b[33m"@
    }
}

/// The colour to print a drawdown in.
fn colour_of_drawdown(n: Number) -> (r: &'static str)
    ensures
        r@ == drawdown_colour(n),
{
    if n.is_lt(Number { bits: MINUS_FIFTH }) {
        "\x1b[31m"
    } else {
        "\x1b[33m"
    }
}

/// The lines of the summary table.
pub open spec fn summary_lines(m: Summary, c: SummaryCells) -> Seq<Seq<char>> {
    seq![
        ""@,
        "\x1b[1m\x1b[36m  PERFORMANCE SUMMARY\x1b[0m"@,
        ""@,
        "  \x1b[1mTotal Return       \x1b[0m"@ + sheet::gain_colour(m.total_return) + text::right_aligned(c.total_return@, 8) + "%\x1b[0m      \x1b[1mBenchmark Return   \x1b[0m"@ + text::right_aligned(c.benchmark_return@, 8) + "%"@,
        "  \x1b[1mAnnualised Return  \x1b[0m"@ + sheet::gain_colour(m.total_return) + text::right_aligned(c.annualised_return@, 8) + "%\x1b[0m      \x1b[1mAlpha (total)      \x1b[0m"@ + sheet::gain_colour(m.alpha) + text::right_aligned(c.alpha@, 8) + "%\x1b[0m"@,
        "  \x1b[1mSharpe Ratio       \x1b[0m"@ + text::right_aligned(c.sharpe_ratio@, 8) + "           \x1b[1mSortino Ratio      \x1b[0m"@ + text::right_aligned(c.sortino_ratio@, 8),
        "  \x1b[1mMax Drawdown       \x1b[0m"@ + drawdown_colour(m.max_drawdown) + text::right_aligned(c.max_drawdown@, 8) + "%\x1b[0m      \x1b[1mVolatility (ann.)  \x1b[0m"@ + text::right_aligned(c.volatility@, 8) + "%"@,
        "  \x1b[1mCalmar Ratio       \x1b[0m"@ + text::right_aligned(c.calmar_ratio@, 8) + "           \x1b[1mAnnualised Alpha   \x1b[0m"@ + sheet::gain_colour(m.alpha) + text::right_aligned(c.annualised_alpha@, 8) + "%\x1b[0m"@,
        "  \x1b[1mTrading Days       \x1b[0m"@ + text::right_aligned(text::decimal(m.trading_days as nat), 8) + "           \x1b[1mTotal Swaps        \x1b[0m"@ + text::right_aligned(text::decimal(m.total_swaps as nat), 8),
        ""@,
        "\x1b[2m────────────────────────────────────────────────────────────\x1b[0m"@,
    ]
}

// ── Performance by role and by industry ──────────────────────────────────────

/// What a role earned.
#[derive(Debug)]
pub struct RoleRow {
    pub role: Role,
    pub total_return: Number,
    pub swap_count: usize,
    /// The return, printed with its sign and two decimals.
    pub return_cell: String,
    /// The average weight, printed with one decimal.
    pub weight_cell: String,
}

/// The row of a role.
pub open spec fn role_row(x: RoleRow) -> Seq<char> {
    "  "@ + text::left_aligned(roles::role_label(x.role), 20) + "  "@ + sheet::gain_colour(x.total_return) + text::right_aligned(x.return_cell@, 9) + "%\x1b[0m  "@ + text::right_aligned(x.weight_cell@, 9) + "%  "@ + text::right_aligned(text::decimal(x.swap_count as nat), 8)
}

/// The lines above the roles.
pub open spec fn role_head() -> Seq<Seq<char>> {
    seq![
        ""@,
        "\x1b[1m\x1b[36m  PERFORMANCE BY ROLE\x1b[0m"@,
        ""@,
        "  \x1b[1mRole                      Return  Avg Weight     Swaps\x1b[0m"@,
        "  \x1b[2m──────────────────────────────────────────────────────\x1b[0m"@,
    ]
}

/// The returns of roles.
pub open spec fn role_returns(s: Seq<RoleRow>) -> Seq<Number> {
    s.map_values(|x: RoleRow| x.total_return)
}

/// `lines` shows the roles from the best to the worst.
pub open spec fn is_role_section(s: Seq<RoleRow>, lines: Seq<Seq<char>>) -> bool {
    exists|p: Seq<usize>| #[trigger]
        order::is_descending(role_returns(s), p) && lines == role_head() + Seq::new(
            p.len(),
            |k: int| role_row(s[p[k] as int]),
        ) + section_end()
}

/// The lines below a table.
pub open spec fn section_end() -> Seq<Seq<char>> {
    seq![""@, "\x1b[2m────────────────────────────────────────────────────────────\x1b[0m"@]
}

/// The row of a role, as text.
fn role_text(x: &RoleRow) -> (r: String)
    ensures
        r@ == role_row(*x),
{
    let mut s: String = "  ".to_owned();
    s.append(text::pad_right(x.role.label(), 20).as_str());
    s.append("  ");
    s.append(sheet::colour_for(x.total_return));
    s.append(text::pad_left(x.return_cell.as_str(), 9).as_str());
    s.append("%\x1b[0m  ");
    s.append(text::pad_left(x.weight_cell.as_str(), 9).as_str());
    s.append("%  ");
    s.append(text::pad_left(text::decimal_text(x.swap_count as u64).as_str(), 8).as_str());
    s
}

/// What an industry earned.
#[derive(Debug)]
pub struct IndustryRow {
    pub industry_name: String,
    pub total_return: Number,
    /// The return, printed with its sign and two decimals.
    pub return_cell: String,
}

/// The row of an industry.
pub open spec fn industry_row(x: IndustryRow) -> Seq<char> {
    "  "@ + text::left_aligned(truncated(x.industry_name@, 40), 40) + "  "@ + sheet::gain_colour(x.total_return) + text::right_aligned(x.return_cell@, 9) + "%\x1b[0m"@
}

/// The lines above the industries.
pub open spec fn industry_head() -> Seq<Seq<char>> {
    seq![
        ""@,
        "\x1b[1m\x1b[36m  PERFORMANCE BY INDUSTRY  (top 10 / bottom 5)\x1b[0m"@,
        ""@,
        "  \x1b[1mIndustry                                      Return\x1b[0m"@,
        "  \x1b[2m──────────────────────────────────────────────────────\x1b[0m"@,
    ]
}

/// The rows of industries.
pub open spec fn industry_rows(s: Seq<IndustryRow>) -> Seq<Seq<char>> {
    s.map_values(|x: IndustryRow| industry_row(x))
}

/// The first ten industries and the last five, which overlap where there are few.
pub open spec fn industry_lines(s: Seq<IndustryRow>) -> Seq<Seq<char>> {
    let first = if s.len() < 10 {
        s.len() as int
    } else {
        10
    };
    let last = if s.len() < 5 {
        0
    } else {
        s.len() - 5
    };
    industry_head() + industry_rows(s.take(first)) + seq!["  \x1b[2m  ...\x1b[0m"@] + industry_rows(
        s.skip(last),
    ) + section_end()
}

/// Whether the industry at position `i` of `n` is shown: it is one of the first ten or of the last
/// five.
pub open spec fn industry_shown(i: int, n: int) -> bool {
    i < 10 || i >= n - 5
}

/// The row of an industry, as text.
fn industry_text(x: &IndustryRow) -> (r: String)
    requires
        can_truncate(x.industry_name@, 40),
    ensures
        r@ == industry_row(*x),
{
    let mut s: String = "  ".to_owned();
    s.append(text::pad_right(truncate(x.industry_name.as_str(), 40).as_str(), 40).as_str());
    s.append("  ");
    s.append(sheet::colour_for(x.total_return));
    s.append(text::pad_left(x.return_cell.as_str(), 9).as_str());
    s.append("%\x1b[0m");
    s
}

/// Adds the rows of the industries from `from` to `to`.
fn put_industries(lines: &mut Vec<String>, v: &Vec<IndustryRow>, from: usize, to: usize)
    requires
        from <= to <= v@.len(),
        forall|i: int| from <= i < to ==> can_truncate((#[trigger] v@[i]).industry_name@, 40),
    ensures
        text::texts(final(lines)@) == text::texts(old(lines)@) + industry_rows(
            v@.subrange(from as int, to as int),
        ),
{
    let ghost before = text::texts(lines@);
    let mut i: usize = from;
    proof {
        assert(before =~= before + industry_rows(v@.subrange(from as int, from as int)));
    }
    while i < to
        invariant
            from <= i <= to <= v@.len(),
            forall|k: int| from <= k < to ==> can_truncate((#[trigger] v@[k]).industry_name@, 40),
            text::texts(lines@) == before + industry_rows(v@.subrange(from as int, i as int)),
        decreases to - i,
    {
        sheet::put(lines, industry_text(&v[i]).as_str());
        proof {
            let shorter = industry_rows(v@.subrange(from as int, i as int));
            let longer = industry_rows(v@.subrange(from as int, i + 1));
            assert(before + longer =~= (before + shorter).push(industry_row(v@[i as int])));
        }
        i = i + 1;
    }
}

// ── Drawdowns ────────────────────────────────────────────────────────────────

/// How long a drawdown took to recover from.
pub open spec fn recovery_cell(p: DrawdownPeriod) -> Seq<char> {
    match p.recovery_days {
        Some(d) => text::right_aligned(text::decimal(d as nat), 9) + "d"@,
        None => text::right_aligned("—"@, 10),
    }
}

/// The row of a drawdown, its depth printed with its sign and two decimals.
pub open spec fn drawdown_row(p: DrawdownPeriod, depth: Seq<char>) -> Seq<char> {
    "  "@ + calendar::day_text(p.peak_date.days as int) + "  "@ + calendar::day_text(p.trough_date.days as int) + "  \x1b[31m"@ + text::right_aligned(depth, 9) + "%\x1b[0m  "@ + text::left_aligned(recovery_cell(p), 12) + "  "@ + (if p.recovery_date is Some {
        "\x1b[32mRecovered\x1b[0m"@
    } else {
        "\x1b[31mOpen\x1b[0m"@
    })
}

/// The lines above the drawdowns.
pub open spec fn drawdown_head() -> Seq<Seq<char>> {
    seq![
        ""@,
        "\x1b[1m\x1b[36m  DRAWDOWN PERIODS  (worst 5)\x1b[0m"@,
        ""@,
        "  \x1b[1mPeak          Trough          Drawdown      Recovery  Status        \x1b[0m"@,
        "  \x1b[2m──────────────────────────────────────────────────────────────────\x1b[0m"@,
    ]
}

/// The rows of drawdowns.
pub open spec fn drawdown_rows(s: Seq<DrawdownPeriod>, depths: Seq<String>, n: int) -> Seq<
    Seq<char>,
> {
    Seq::new(n as nat, |i: int| drawdown_row(s[i], depths[i]@))
}

/// The first five drawdowns, which are the worst where they come by severity.
pub open spec fn drawdown_lines(s: Seq<DrawdownPeriod>, depths: Seq<String>) -> Seq<Seq<char>> {
    drawdown_head() + drawdown_rows(
        s,
        depths,
        if s.len() < 5 {
            s.len() as int
        } else {
            5
        },
    ) + section_end()
}

/// The row of a drawdown, as text.
fn drawdown_text(p: &DrawdownPeriod, depth: &str) -> (r: String)
    requires
        p.peak_date.in_range(),
        p.trough_date.in_range(),
    ensures
        r@ == drawdown_row(*p, depth@),
{
    let recovery: String = match p.recovery_days {
        Some(d) => {
            let mut t: String = text::pad_left(text::decimal_text(d).as_str(), 9);
            t.append("d");
            t
        },
        None => text::pad_left("—", 10),
    };
    let status: &str = if p.recovery_date.is_some() {
        "\x1b[32mRecovered\x1b[0m"
    } else {
        "\x1b[31mOpen\x1b[0m"
    };
    let mut s: String = "  ".to_owned();
    s.append(p.peak_date.text().as_str());
    s.append("  ");
    s.append(p.trough_date.text().as_str());
    s.append("  \x1b[31m");
    s.append(text::pad_left(depth, 9).as_str());
    s.append("%\x1b[0m  ");
    s.append(text::pad_right(recovery.as_str(), 12).as_str());
    s.append("  ");
    s.append(status);
    s
}

// ── Swaps ────────────────────────────────────────────────────────────────────

/// The names of a swap can be shortened.
pub open spec fn printable(e: SwapEvent) -> bool {
    &&& e.date.in_range()
    &&& can_truncate(e.industry_name@, 26)
    &&& can_truncate(e.outgoing@, 10)
    &&& can_truncate(e.incoming@, 10)
}

/// The row of a swap.
pub open spec fn swap_row(e: SwapEvent) -> Seq<char> {
    "  "@ + calendar::day_text(e.date.days as int) + "  "@ + text::left_aligned(truncated(e.industry_name@, 26), 26) + "  "@ + text::left_aligned(roles::role_label(e.role), 16) + "  \x1b[33m"@ + text::left_aligned(truncated(e.outgoing@, 10), 10) + "\x1b[0m  \x1b[32m"@ + text::left_aligned(truncated(e.incoming@, 10), 10) + "\x1b[0m"@
}

/// The rows of swaps.
pub open spec fn swap_rows(s: Seq<SwapEvent>) -> Seq<Seq<char>> {
    s.map_values(|e: SwapEvent| swap_row(e))
}

/// The row of a swap, as text.
fn swap_text(e: &SwapEvent) -> (r: String)
    requires
        printable(*e),
    ensures
        r@ == swap_row(*e),
{
    let mut s: String = "  ".to_owned();
    s.append(e.date.text().as_str());
    s.append("  ");
    s.append(text::pad_right(truncate(e.industry_name.as_str(), 26).as_str(), 26).as_str());
    s.append("  ");
    s.append(text::pad_right(e.role.label(), 16).as_str());
    s.append("  \x1b[33m");
    s.append(text::pad_right(truncate(e.outgoing.as_str(), 10).as_str(), 10).as_str());
    s.append("\x1b[0m  \x1b[32m");
    s.append(text::pad_right(truncate(e.incoming.as_str(), 10).as_str(), 10).as_str());
    s.append("\x1b[0m");
    s
}

/// The row of a role's swaps: its name, a bar and their number.
pub open spec fn count_row(role: Role, n: int) -> Seq<char> {
    "  \x1b[2m"@ + text::left_aligned(roles::role_label(role), 20) + "\x1b[0m  \x1b[36m"@ + text::repeated('█', if n < 40 {
        n
    } else {
        40
    }) + "\x1b[0m  "@ + text::decimal(n as nat)
}

/// The row of a role's swaps, as text.
fn count_text(role: Role, n: usize) -> (r: String)
    ensures
        r@ == count_row(role, n as int),
{
    let bar: usize = if n < 40 {
        n
    } else {
        40
    };
    let mut s: String = "  \x1b[2m".to_owned();
    s.append(text::pad_right(role.label(), 20).as_str());
    s.append("\x1b[0m  \x1b[36m");
    s.append(text::repeat_char('█', bar).as_str());
    s.append("\x1b[0m  ");
    s.append(text::decimal_text(n as u64).as_str());
    s
}

/// The roles that changed hands, in the order in which roles are listed.
pub open spec fn swapped_roles(s: Seq<SwapEvent>) -> Seq<Role> {
    all_roles().filter(|r: Role| rebalancer::swaps_of(s, r, s.len() as int) > 0)
}

/// Every role.
pub open spec fn all_roles() -> Seq<Role> {
    seq![
        Role::FastestGrower,
        Role::LargestByRevenue,
        Role::MostProfitable,
        Role::MostLeveraged,
        Role::ConsumerReach,
        Role::DeepValue,
        Role::MomentumLeader,
    ]
}

/// The numbers of swaps of roles, negated for sorting.
pub open spec fn count_keys(s: Seq<SwapEvent>, by: Seq<Role>) -> Seq<i64> {
    by.map_values(|r: Role| -rebalancer::swaps_of(s, r, s.len() as int) as i64)
}

/// The lines above the swaps.
pub open spec fn swap_head(n: nat) -> Seq<Seq<char>> {
    seq![""@, "\x1b[1m\x1b[36m  SWAP LOG  ("@ + text::decimal(n) + " total)\x1b[0m"@]
}

/// The lines above the table of swaps.
pub open spec fn swap_table_head() -> Seq<Seq<char>> {
    seq![
        ""@,
        "  \x1b[1mDate          Industry                    Role              Out         In        \x1b[0m"@,
        "  \x1b[2m────────────────────────────────────────────────────────────────────────────────\x1b[0m"@,
    ]
}

/// The line below the table where it does not show every swap.
pub open spec fn earlier_swaps(n: int) -> Seq<Seq<char>> {
    if n > 20 {
        seq!["  \x1b[2m  … and "@ + text::decimal((n - 20) as nat) + " earlier swaps\x1b[0m"@]
    } else {
        seq![]
    }
}

/// `lines` shows the last twenty swaps and how often each role changed hands, most often first.
pub open spec fn is_swap_section(s: Seq<SwapEvent>, lines: Seq<Seq<char>>) -> bool {
    if s.len() == 0 {
        lines == swap_head(0) + seq!["  \x1b[2mNo swaps during simulation period.\x1b[0m"@] + section_end()
    } else {
        exists|p: Seq<usize>| #[trigger]
            order::is_stable_order(count_keys(s, swapped_roles(s)), p) && lines == swap_head(
                s.len(),
            ) + swap_table_head() + swap_rows(s.skip(first_shown(s.len() as int))) + earlier_swaps(
                s.len() as int,
            ) + seq![""@, "  \x1b[1mSwaps by role:\x1b[0m"@] + Seq::new(
                p.len(),
                |k: int|
                    count_row(
                        swapped_roles(s)[p[k] as int],
                        rebalancer::swaps_of(s, swapped_roles(s)[p[k] as int], s.len() as int),
                    ),
            ) + section_end()
    }
}

/// The first of the last twenty.
pub open spec fn first_shown(n: int) -> int {
    if n > 20 {
        n - 20
    } else {
        0
    }
}

// ── Random baseline ──────────────────────────────────────────────────────────

/// The figures of a random baseline, printed.
#[derive(Debug)]
pub struct BaselineCells {
    /// Returns, with their sign and two decimals.
    pub strategy: String,
    pub median: String,
    pub p5: String,
    pub p95: String,
    /// How often a random portfolio beat the strategy, with one decimal.
    pub beat: String,
    /// The ends of the bar, with their sign and no decimals.
    pub lo: String,
    pub hi: String,
}

/// Where the marks of a bar stand, counted from its left end.
#[derive(Clone, Copy, Debug)]
pub struct BarMarks {
    pub p5: usize,
    pub median: usize,
    pub p95: usize,
    pub strategy: usize,
}

/// Green where fewer than a quarter of the random portfolios beat the strategy, yellow below one
/// half, red otherwise.
pub open spec fn beat_colour(beat: Number) -> Seq<char> {
    if beat.lt(Number { bits: TWENTY_FIVE }) {
        "\x1b[32m"@
    } else if beat.lt(Number { bits: FIFTY }) {
        "\x1b[33m"@
    } else {
        "\x1b[31m"@
    }
}

/// The colour of the share of random portfolios that beat the strategy.
fn colour_of_beat(beat: Number) -> (r: &'static str)
    ensures
        r@ == beat_colour(beat),
{
    if beat.is_lt(Number { bits: TWENTY_FIVE }) {
        "\x1b[32m"
    } else if beat.is_lt(Number { bits: FIFTY }) {
        "\x1b[33m"
    } else {
        "\x1b[31m"
    }
}

/// A bar of fifty-one places: shaded between the percentiles, with the median marked, and the
/// strategy marked over everything else.
pub open spec fn bar(b: BarMarks) -> Seq<char> {
    Seq::new(
        51,
        |i: int|
            if i == b.strategy {
                '▲'
            } else if i == b.median {
                '│'
            } else if b.p5 <= i <= b.p95 {
                '░'
            } else {
                ' '
            },
    )
}

/// A bar of fifty-one places.
fn bar_text(b: BarMarks) -> (r: String)
    ensures
        r@ == bar(b),
{
    let mut s: String = String::new();
    let mut i: usize = 0;
    while i < 51
        invariant
            i <= 51,
            s@ == bar(b).take(i as int),
        decreases 51 - i,
    {
        let c: char = if i == b.strategy {
            '▲'
        } else if i == b.median {
            '│'
        } else if b.p5 <= i && i <= b.p95 {
            '░'
        } else {
            ' '
        };
        s.push(c);
        proof {
            assert(bar(b).take(i + 1) =~= bar(b).take(i as int).push(bar(b)[i as int]));
        }
        i = i + 1;
    }
    proof {
        assert(bar(b).take(51) =~= bar(b));
    }
    s
}

/// The lines about a random baseline of `n` portfolios.
pub open spec fn baseline_lines(n: nat, beat: Number, c: BaselineCells, b: BarMarks) -> Seq<
    Seq<char>,
> {
    seq![
        ""@,
        "\x1b[1m\x1b[36m  MONTE CARLO BASELINE  ("@ + text::decimal(n as nat) + " random portfolios)\x1b[0m"@,
        ""@,
        "  \x1b[1mOur strategy return   \x1b[0m"@ + text::right_aligned(c.strategy@, 8) + "%"@,
        "  \x1b[1mRandom median return  \x1b[0m"@ + text::right_aligned(c.median@, 8) + "%"@,
        "  \x1b[1mRandom p5  / p95      \x1b[0m"@ + text::right_aligned(c.p5@, 8) + "%  /  "@ + text::right_aligned(c.p95@, 6) + "%"@,
        "  \x1b[1mRandom beat strategy  \x1b[0m"@ + beat_colour(beat) + text::right_aligned(c.beat@, 7) + "% of runs\x1b[0m"@,
        ""@,
        "  \x1b[2mp5\x1b[0m                                               \x1b[2mp95\x1b[0m"@,
        "  \x1b[36m"@ + bar(b) + "\x1b[0m"@,
        "  \x1b[2m"@ + c.lo@ + "%"@ + text::repeated(' ', 44) + c.hi@ + "%\x1b[0m"@,
        "  \x1b[2m│ = median random   ▲ = our strategy\x1b[0m"@,
        ""@,
        "\x1b[2m────────────────────────────────────────────────────────────\x1b[0m"@,
    ]
}

/// The lines below a report.
pub open spec fn footer_lines() -> Seq<Seq<char>> {
    seq![
        ""@,
        "\x1b[2mGenerated by portfolio-sim  •  not financial advice\x1b[0m"@,
        ""@,
    ]
}

// ── Picks ────────────────────────────────────────────────────────────────────

/// The figures of a pick, printed: scores as whole numbers and contributions as whole numbers
/// with their sign in the table, contributions with one decimal and signals with three in the
/// breakdown.
#[derive(Debug)]
pub struct PickCells {
    pub score: String,
    pub momentum: String,
    pub fundamental: String,
    pub insider: String,
    pub sentiment: String,
    pub pairs: String,
    pub details: Vec<(String, String)>,
}

/// The colour of a score in the table.
pub open spec fn score_colour(n: Number) -> Seq<char> {
    if (Number { bits: SIXTY_FIVE }).le(n) {
        "\x1b[32m"@
    } else if (Number { bits: FORTY_FIVE }).le(n) {
        "\x1b[33m"@
    } else {
        "\x1b[31m"@
    }
}

/// The colour of a score in the table.
fn colour_of_score(n: Number) -> (r: &'static str)
    ensures
        r@ == score_colour(n),
{
    if (Number { bits: SIXTY_FIVE }).is_le(n) {
        "\x1b[32m"
    } else if (Number { bits: FORTY_FIVE }).is_le(n) {
        "\x1b[33m"
    } else {
        "\x1b[31m"
    }
}

/// The warning column of a pick.
pub open spec fn warn_cell(w: Option<Seq<char>>) -> Seq<char> {
    match w {
        Some(other) => "\x1b[33m⚠ HIGH CORRELATION WITH "@ + other + "\x1b[0m"@,
        None => ""@,
    }
}

/// The better pick that a warning about `ticker` names, the first warning where there are several.
pub open spec fn warned_of(s: Seq<CorrelationWarning>, ticker: Seq<char>) -> Option<Seq<char>>
    decreases s.len(),
{
    if s.len() == 0 {
        None
    } else if s[0].ticker@ == ticker {
        Some(s[0].correlated_with@)
    } else {
        warned_of(s.drop_first(), ticker)
    }
}

/// The row of a pick.
pub open spec fn pick_row(s: SignalScore, c: PickCells, w: Seq<CorrelationWarning>) -> Seq<char> {
    "  "@ + text::left_aligned(text::decimal(s.rank as nat), 4) + "  "@ + text::left_aligned(s.ticker@, 8) + "  "@ + score_colour(s.composite) + text::right_aligned(c.score@, 5) + "\x1b[0m"@ + (if s.macro_on {
        " "@
    } else {
        "\x1b[31m✗\x1b[0m"@
    }) + "  "@ + text::right_aligned(c.momentum@, 6) + "  "@ + text::right_aligned(c.fundamental@, 7) + "  "@ + text::right_aligned(c.insider@, 5) + "  "@ + text::right_aligned(c.sentiment@, 6) + "  "@ + text::right_aligned(c.pairs@, 4) + "  "@ + text::left_aligned(truncated(s.industry@, 30), 30) + "  "@ + warn_cell(warned_of(w, s.ticker@))
}

/// The warning column of a pick, as text.
fn warn_text(w: &Vec<CorrelationWarning>, ticker: &str) -> (r: String)
    ensures
        r@ == warn_cell(warned_of(w@, ticker@)),
{
    let found: Option<&CorrelationWarning> = ConcentrationGuard::warning_of(w, ticker);
    match found {
        Some(x) => {
            proof {
                let k = choose|k: int|
                    0 <= k < w@.len() && *x == #[trigger] w@[k] && forall|j: int|
                        0 <= j < k ==> (#[trigger] w@[j]).ticker@ != ticker@;
                lemma_warned_of(w@, ticker@, k);
            }
            let mut s: String = "\x1b[33m⚠ HIGH CORRELATION WITH ".to_owned();
            s.append(x.correlated_with.as_str());
            s.append("\x1b[0m");
            s
        },
        None => {
            proof {
                assert forall|j: int| 0 <= j < w@.len() implies (#[trigger] w@[j]).ticker@
                    != ticker@ by {
                    assert(concentration_guard::warned(w@)[j] == w@[j].ticker@);
                }
                lemma_warned_of(w@, ticker@, w@.len() as int);
            }
            "".to_owned()
        },
    }
}

proof fn lemma_warned_of(s: Seq<CorrelationWarning>, ticker: Seq<char>, k: int)
    requires
        0 <= k <= s.len(),
        forall|j: int| 0 <= j < k ==> (#[trigger] s[j]).ticker@ != ticker,
    ensures
        k < s.len() && s[k].ticker@ == ticker ==> warned_of(s, ticker) == Some(
            s[k].correlated_with@,
        ),
        k == s.len() ==> warned_of(s, ticker) is None,
    decreases s.len(),
{
    if s.len() > 0 && k > 0 {
        let rest = s.drop_first();
        assert(s[0].ticker@ != ticker);
        assert forall|j: int| 0 <= j < k - 1 implies (#[trigger] rest[j]).ticker@ != ticker by {
            assert(rest[j] == s[j + 1]);
        }
        lemma_warned_of(rest, ticker, k - 1);
    }
}

/// The row of a pick, as text.
fn pick_text(s: &SignalScore, c: &PickCells, w: &Vec<CorrelationWarning>) -> (r: String)
    requires
        can_truncate(s.industry@, 30),
    ensures
        r@ == pick_row(*s, *c, w@),
{
    let flag: &str = if s.macro_on {
        " "
    } else {
        "\x1b[31m✗\x1b[0m"
    };
    let warning: String = warn_text(w, s.ticker.as_str());
    let mut t: String = "  ".to_owned();
    t.append(text::pad_right(text::decimal_text(s.rank as u64).as_str(), 4).as_str());
    t.append("  ");
    t.append(text::pad_right(s.ticker.as_str(), 8).as_str());
    t.append("  ");
    t.append(colour_of_score(s.composite));
    t.append(text::pad_left(c.score.as_str(), 5).as_str());
    t.append("\x1b[0m");
    t.append(flag);
    t.append("  ");
    t.append(text::pad_left(c.momentum.as_str(), 6).as_str());
    t.append("  ");
    t.append(text::pad_left(c.fundamental.as_str(), 7).as_str());
    t.append("  ");
    t.append(text::pad_left(c.insider.as_str(), 5).as_str());
    t.append("  ");
    t.append(text::pad_left(c.sentiment.as_str(), 6).as_str());
    t.append("  ");
    t.append(text::pad_left(c.pairs.as_str(), 4).as_str());
    t.append("  ");
    t.append(text::pad_right(truncate(s.industry.as_str(), 30).as_str(), 30).as_str());
    t.append("  ");
    t.append(warning.as_str());
    t
}

/// The lines above the picks.
pub open spec fn picks_head(as_of: Seq<char>, n: nat, regime: Seq<char>) -> Seq<Seq<char>> {
    seq![
        ""@,
        "\x1b[1m\x1b[97m╔══════════════════════════════════════════════════════════════════╗\x1b[0m"@,
        "\x1b[1m\x1b[97m║              STOCK PICKS ENGINE — RANKED OUTPUT                  ║\x1b[0m"@,
        "\x1b[1m\x1b[97m╚══════════════════════════════════════════════════════════════════╝\x1b[0m"@,
        ""@,
        "\x1b[1mDate        \x1b[0m"@ + as_of + "    \x1b[1mUniverse    \x1b[0m"@ + text::decimal(n as nat) + " stocks"@,
        "\x1b[1mMacro       \x1b[0m"@ + regime,
        "\x1b[2m────────────────────────────────────────────────────────────────────\x1b[0m"@,
        ""@,
        "\x1b[1m  Rank  Ticker     Score  Momentm  Fundmntl   Insdr   Sentmt  Pairs  Industry                        Warn\x1b[0m"@,
        "  \x1b[2m────────────────────────────────────────────────────────────────────────────────────────────────\x1b[0m"@,
    ]
}

/// The line below the table where it does not show every pick.
pub open spec fn more_picks(n: int) -> Seq<Seq<char>> {
    if n > 25 {
        seq!["  \x1b[2m  … and "@ + text::decimal((n - 25) as nat) + " more stocks\x1b[0m"@]
    } else {
        seq![]
    }
}

/// The legend below the picks.
pub open spec fn legend(warned: bool) -> Seq<Seq<char>> {
    let fixed = seq![
        ""@,
        "\x1b[2m  Score range: 0 (strongest sell) → 100 (strongest buy) | neutral = 50\x1b[0m"@,
        "\x1b[2m  Signal columns show deviation from neutral (positive = bullish)\x1b[0m"@,
    ];
    if warned {
        fixed.push(
            "\x1b[2m  \x1b[33m⚠\x1b[0m\x1b[2m = industry correlation r > 0.70 with a higher-ranked pick\x1b[0m"@,
        )
    } else {
        fixed
    }
}

/// The lines above the breakdown.
pub open spec fn breakdown_head() -> Seq<Seq<char>> {
    seq![
        ""@,
        "\x1b[1m\x1b[36m  SIGNAL BREAKDOWN — TOP 5\x1b[0m"@,
        ""@,
    ]
}

/// The line of a signal in the breakdown.
pub open spec fn signal_line(label: Seq<char>, d: (String, String)) -> Seq<char> {
    label + text::right_aligned(d.0@, 6) + "  (raw: "@ + d.1@ + ")"@
}

/// The breakdown of a pick.
pub open spec fn breakdown(s: SignalScore, c: PickCells) -> Seq<Seq<char>> {
    seq![
        "  \x1b[1m\x1b[97m"@ + text::left_aligned(s.ticker@, 6) + "\x1b[0m  Score: "@ + (if (Number {
            bits: SIXTY_FIVE,
        }).le(s.composite) {
            "\x1b[32m"@
        } else {
            "\x1b[33m"@
        }) + c.score@ + "/100\x1b[0m  │  "@ + s.industry@,
        signal_line("    Momentum:      "@, c.details@[0]),
        signal_line("    Fundamental:   "@, c.details@[1]),
        signal_line("    Insider:       "@, c.details@[2]),
        signal_line("    Sentiment:     "@, c.details@[3]),
        signal_line("    Pairs:         "@, c.details@[4]),
        "    Macro filter:  "@ + (if s.macro_on {
            "\x1b[32mON\x1b[0m"@
        } else {
            "\x1b[31mOFF\x1b[0m"@
        }),
        ""@,
    ]
}

/// The breakdowns of the first `n` picks.
pub open spec fn breakdowns(s: Seq<SignalScore>, c: Seq<PickCells>, n: int) -> Seq<Seq<char>>
    decreases n,
{
    if n <= 0 {
        seq![]
    } else {
        breakdowns(s, c, n - 1) + breakdown(s[n - 1], c[n - 1])
    }
}

/// The rows of the first `n` picks.
pub open spec fn pick_rows(
    s: Seq<SignalScore>,
    c: Seq<PickCells>,
    w: Seq<CorrelationWarning>,
    n: int,
) -> Seq<Seq<char>> {
    Seq::new(n as nat, |i: int| pick_row(s[i], c[i], w))
}

/// The smaller of a length and a limit.
pub open spec fn at_most(n: int, limit: int) -> int {
    if n < limit {
        n
    } else {
        limit
    }
}

/// The report on ranked picks: the best twenty-five, and what makes up the scores of the best
/// five.
pub open spec fn picks_lines(
    s: Seq<SignalScore>,
    c: Seq<PickCells>,
    w: Seq<CorrelationWarning>,
    as_of: Seq<char>,
    regime: Seq<char>,
) -> Seq<Seq<char>> {
    picks_head(as_of, s.len(), regime) + pick_rows(s, c, w, at_most(s.len() as int, 25))
        + more_picks(s.len() as int) + legend(w.len() > 0) + breakdown_head() + breakdowns(
        s,
        c,
        at_most(s.len() as int, 5),
    ) + seq!["\x1b[2m────────────────────────────────────────────────────────────────────\x1b[0m"@] + footer_lines()
}

// ── The reporter ─────────────────────────────────────────────────────────────

/// Adds the lines below a table.
fn put_section_end(lines: &mut Vec<String>)
    ensures
        text::texts(final(lines)@) == text::texts(old(lines)@) + section_end(),
{
    let ghost before = text::texts(lines@);
    sheet::put(lines, "");
    sheet::put(lines, "\x1b[2m────────────────────────────────────────────────────────────\x1b[0m");
    proof {
        assert(text::texts(lines@) =~= before + section_end());
    }
}

/// Adds the lines above a simulation report.
fn put_header(lines: &mut Vec<String>, c: &RunConfig)
    requires
        c.start_date.in_range(),
        c.end_date.in_range(),
    ensures
        text::texts(final(lines)@) == text::texts(old(lines)@) + header_lines(*c),
{
    let ghost before = text::texts(lines@);
    sheet::put(lines, "");
    sheet::put(lines, "\x1b[1m\x1b[97m╔══════════════════════════════════════════════════════════╗\x1b[0m");
    sheet::put(lines, "\x1b[1m\x1b[97m║          PORTFOLIO SIMULATOR — SIMULATION REPORT         ║\x1b[0m");
    sheet::put(lines, "\x1b[1m\x1b[97m╚══════════════════════════════════════════════════════════╝\x1b[0m");
    sheet::put(lines, "");
    let mut line1: String = "\x1b[1mPeriod      \x1b[0m".to_owned();
    line1.append(c.start_date.text().as_str());
    line1.append(" → ");
    line1.append(c.end_date.text().as_str());
    sheet::put(lines, line1.as_str());
    sheet::put_two(lines, "\x1b[1mCapital     \x1b[0m$", c.capital.as_str());
    sheet::put_two(lines, "\x1b[1mRebalance   \x1b[0m", name_of(c.rebalance_freq));
    sheet::put_two(lines, "\x1b[1mRoles       \x1b[0m", join_labels(&c.active_roles).as_str());
    sheet::put_two(lines, "\x1b[1mBenchmark   \x1b[0m", c.benchmark_ticker.as_str());
    sheet::put(lines, "\x1b[2m────────────────────────────────────────────────────────────\x1b[0m");
    proof {
        assert(text::texts(lines@) =~= before + header_lines(*c));
    }
}

/// Adds the summary table.
fn put_summary(lines: &mut Vec<String>, m: Summary, c: &SummaryCells)
    ensures
        text::texts(final(lines)@) == text::texts(old(lines)@) + summary_lines(m, *c),
{
    let ghost before = text::texts(lines@);
    sheet::put(lines, "");
    sheet::put(lines, "\x1b[1m\x1b[36m  PERFORMANCE SUMMARY\x1b[0m");
    sheet::put(lines, "");
    let mut line1: String = "  \x1b[1mTotal Return       \x1b[0m".to_owned();
    line1.append(sheet::colour_for(m.total_return));
    line1.append(text::pad_left(c.total_return.as_str(), 8).as_str());
    line1.append("%\x1b[0m      \x1b[1mBenchmark Return   \x1b[0m");
    line1.append(text::pad_left(c.benchmark_return.as_str(), 8).as_str());
    line1.append("%");
    sheet::put(lines, line1.as_str());
    let mut line2: String = "  \x1b[1mAnnualised Return  \x1b[0m".to_owned();
    line2.append(sheet::colour_for(m.total_return));
    line2.append(text::pad_left(c.annualised_return.as_str(), 8).as_str());
    line2.append("%\x1b[0m      \x1b[1mAlpha (total)      \x1b[0m");
    line2.append(sheet::colour_for(m.alpha));
    line2.append(text::pad_left(c.alpha.as_str(), 8).as_str());
    line2.append("%\x1b[0m");
    sheet::put(lines, line2.as_str());
    let mut line3: String = "  \x1b[1mSharpe Ratio       \x1b[0m".to_owned();
    line3.append(text::pad_left(c.sharpe_ratio.as_str(), 8).as_str());
    line3.append("           \x1b[1mSortino Ratio      \x1b[0m");
    line3.append(text::pad_left(c.sortino_ratio.as_str(), 8).as_str());
    sheet::put(lines, line3.as_str());
    let mut line4: String = "  \x1b[1mMax Drawdown       \x1b[0m".to_owned();
    line4.append(colour_of_drawdown(m.max_drawdown));
    line4.append(text::pad_left(c.max_drawdown.as_str(), 8).as_str());
    line4.append("%\x1b[0m      \x1b[1mVolatility (ann.)  \x1b[0m");
    line4.append(text::pad_left(c.volatility.as_str(), 8).as_str());
    line4.append("%");
    sheet::put(lines, line4.as_str());
    let mut line5: String = "  \x1b[1mCalmar Ratio       \x1b[0m".to_owned();
    line5.append(text::pad_left(c.calmar_ratio.as_str(), 8).as_str());
    line5.append("           \x1b[1mAnnualised Alpha   \x1b[0m");
    line5.append(sheet::colour_for(m.alpha));
    line5.append(text::pad_left(c.annualised_alpha.as_str(), 8).as_str());
    line5.append("%\x1b[0m");
    sheet::put(lines, line5.as_str());
    let mut line6: String = "  \x1b[1mTrading Days       \x1b[0m".to_owned();
    line6.append(text::pad_left(text::decimal_text(m.trading_days as u64).as_str(), 8).as_str());
    line6.append("           \x1b[1mTotal Swaps        \x1b[0m");
    line6.append(text::pad_left(text::decimal_text(m.total_swaps as u64).as_str(), 8).as_str());
    sheet::put(lines, line6.as_str());
    sheet::put(lines, "");
    sheet::put(lines, "\x1b[2m────────────────────────────────────────────────────────────\x1b[0m");
    proof {
        assert(text::texts(lines@) =~= before + summary_lines(m, *c));
    }
}

/// Adds the lines above the roles.
fn put_role_head(lines: &mut Vec<String>)
    ensures
        text::texts(final(lines)@) == text::texts(old(lines)@) + role_head(),
{
    let ghost before = text::texts(lines@);
    sheet::put(lines, "");
    sheet::put(lines, "\x1b[1m\x1b[36m  PERFORMANCE BY ROLE\x1b[0m");
    sheet::put(lines, "");
    sheet::put(lines, "  \x1b[1mRole                      Return  Avg Weight     Swaps\x1b[0m");
    sheet::put(lines, "  \x1b[2m──────────────────────────────────────────────────────\x1b[0m");
    proof {
        assert(text::texts(lines@) =~= before + role_head());
    }
}

/// Adds the lines above the industries.
fn put_industry_head(lines: &mut Vec<String>)
    ensures
        text::texts(final(lines)@) == text::texts(old(lines)@) + industry_head(),
{
    let ghost before = text::texts(lines@);
    sheet::put(lines, "");
    sheet::put(lines, "\x1b[1m\x1b[36m  PERFORMANCE BY INDUSTRY  (top 10 / bottom 5)\x1b[0m");
    sheet::put(lines, "");
    sheet::put(lines, "  \x1b[1mIndustry                                      Return\x1b[0m");
    sheet::put(lines, "  \x1b[2m──────────────────────────────────────────────────────\x1b[0m");
    proof {
        assert(text::texts(lines@) =~= before + industry_head());
    }
}

/// Adds the lines above the drawdowns.
fn put_drawdown_head(lines: &mut Vec<String>)
    ensures
        text::texts(final(lines)@) == text::texts(old(lines)@) + drawdown_head(),
{
    let ghost before = text::texts(lines@);
    sheet::put(lines, "");
    sheet::put(lines, "\x1b[1m\x1b[36m  DRAWDOWN PERIODS  (worst 5)\x1b[0m");
    sheet::put(lines, "");
    sheet::put(lines, "  \x1b[1mPeak          Trough          Drawdown      Recovery  Status        \x1b[0m");
    sheet::put(lines, "  \x1b[2m──────────────────────────────────────────────────────────────────\x1b[0m");
    proof {
        assert(text::texts(lines@) =~= before + drawdown_head());
    }
}

/// Adds the lines above the swaps.
fn put_swap_head(lines: &mut Vec<String>, n: usize)
    ensures
        text::texts(final(lines)@) == text::texts(old(lines)@) + swap_head(n as nat),
{
    let ghost before = text::texts(lines@);
    sheet::put(lines, "");
    sheet::put_three(lines, "\x1b[1m\x1b[36m  SWAP LOG  (", text::decimal_text(n as u64).as_str(), " total)\x1b[0m");
    proof {
        assert(text::texts(lines@) =~= before + swap_head(n as nat));
    }
}

/// Adds the lines above the table of swaps.
fn put_swap_table_head(lines: &mut Vec<String>)
    ensures
        text::texts(final(lines)@) == text::texts(old(lines)@) + swap_table_head(),
{
    let ghost before = text::texts(lines@);
    sheet::put(lines, "");
    sheet::put(lines, "  \x1b[1mDate          Industry                    Role              Out         In        \x1b[0m");
    sheet::put(lines, "  \x1b[2m────────────────────────────────────────────────────────────────────────────────\x1b[0m");
    proof {
        assert(text::texts(lines@) =~= before + swap_table_head());
    }
}

/// Adds the lines about a random baseline.
fn put_baseline(lines: &mut Vec<String>, n: usize, beat: Number, c: &BaselineCells, b: BarMarks)
    ensures
        text::texts(final(lines)@) == text::texts(old(lines)@) + baseline_lines(n as nat, beat, *c, b),
{
    let ghost before = text::texts(lines@);
    sheet::put(lines, "");
    sheet::put_three(lines, "\x1b[1m\x1b[36m  MONTE CARLO BASELINE  (", text::decimal_text(n as u64).as_str(), " random portfolios)\x1b[0m");
    sheet::put(lines, "");
    sheet::put_three(lines, "  \x1b[1mOur strategy return   \x1b[0m", text::pad_left(c.strategy.as_str(), 8).as_str(), "%");
    sheet::put_three(lines, "  \x1b[1mRandom median return  \x1b[0m", text::pad_left(c.median.as_str(), 8).as_str(), "%");
    let mut line1: String = "  \x1b[1mRandom p5  / p95      \x1b[0m".to_owned();
    line1.append(text::pad_left(c.p5.as_str(), 8).as_str());
    line1.append("%  /  ");
    line1.append(text::pad_left(c.p95.as_str(), 6).as_str());
    line1.append("%");
    sheet::put(lines, line1.as_str());
    let mut line2: String = "  \x1b[1mRandom beat strategy  \x1b[0m".to_owned();
    line2.append(colour_of_beat(beat));
    line2.append(text::pad_left(c.beat.as_str(), 7).as_str());
    line2.append("% of runs\x1b[0m");
    sheet::put(lines, line2.as_str());
    sheet::put(lines, "");
    sheet::put(lines, "  \x1b[2mp5\x1b[0m                                               \x1b[2mp95\x1b[0m");
    sheet::put_three(lines, "  \x1b[36m", bar_text(b).as_str(), "\x1b[0m");
    let mut line3: String = "  \x1b[2m".to_owned();
    line3.append(c.lo.as_str());
    line3.append("%");
    line3.append(text::repeat_char(' ', 44).as_str());
    line3.append(c.hi.as_str());
    line3.append("%\x1b[0m");
    sheet::put(lines, line3.as_str());
    sheet::put(lines, "  \x1b[2m│ = median random   ▲ = our strategy\x1b[0m");
    sheet::put(lines, "");
    sheet::put(lines, "\x1b[2m────────────────────────────────────────────────────────────\x1b[0m");
    proof {
        assert(text::texts(lines@) =~= before + baseline_lines(n as nat, beat, *c, b));
    }
}

/// Adds the lines below a report.
fn put_footer(lines: &mut Vec<String>)
    ensures
        text::texts(final(lines)@) == text::texts(old(lines)@) + footer_lines(),
{
    let ghost before = text::texts(lines@);
    sheet::put(lines, "");
    sheet::put(lines, "\x1b[2mGenerated by portfolio-sim  •  not financial advice\x1b[0m");
    sheet::put(lines, "");
    proof {
        assert(text::texts(lines@) =~= before + footer_lines());
    }
}

/// Adds the lines above the picks.
fn put_picks_head(lines: &mut Vec<String>, as_of: &str, n: usize, regime: &str)
    ensures
        text::texts(final(lines)@) == text::texts(old(lines)@) + picks_head(as_of@, n as nat, regime@),
{
    let ghost before = text::texts(lines@);
    sheet::put(lines, "");
    sheet::put(lines, "\x1b[1m\x1b[97m╔══════════════════════════════════════════════════════════════════╗\x1b[0m");
    sheet::put(lines, "\x1b[1m\x1b[97m║              STOCK PICKS ENGINE — RANKED OUTPUT                  ║\x1b[0m");
    sheet::put(lines, "\x1b[1m\x1b[97m╚══════════════════════════════════════════════════════════════════╝\x1b[0m");
    sheet::put(lines, "");
    let mut line1: String = "\x1b[1mDate        \x1b[0m".to_owned();
    line1.append(as_of);
    line1.append("    \x1b[1mUniverse    \x1b[0m");
    line1.append(text::decimal_text(n as u64).as_str());
    line1.append(" stocks");
    sheet::put(lines, line1.as_str());
    sheet::put_two(lines, "\x1b[1mMacro       \x1b[0m", regime);
    sheet::put(lines, "\x1b[2m────────────────────────────────────────────────────────────────────\x1b[0m");
    sheet::put(lines, "");
    sheet::put(lines, "\x1b[1m  Rank  Ticker     Score  Momentm  Fundmntl   Insdr   Sentmt  Pairs  Industry                        Warn\x1b[0m");
    sheet::put(lines, "  \x1b[2m────────────────────────────────────────────────────────────────────────────────────────────────\x1b[0m");
    proof {
        assert(text::texts(lines@) =~= before + picks_head(as_of@, n as nat, regime@));
    }
}

/// Adds the lines above the breakdown.
fn put_breakdown_head(lines: &mut Vec<String>)
    ensures
        text::texts(final(lines)@) == text::texts(old(lines)@) + breakdown_head(),
{
    let ghost before = text::texts(lines@);
    sheet::put(lines, "");
    sheet::put(lines, "\x1b[1m\x1b[36m  SIGNAL BREAKDOWN — TOP 5\x1b[0m");
    sheet::put(lines, "");
    proof {
        assert(text::texts(lines@) =~= before + breakdown_head());
    }
}

/// Adds the legend below the picks.
fn put_legend(lines: &mut Vec<String>, warned: bool)
    ensures
        text::texts(final(lines)@) == text::texts(old(lines)@) + legend(warned),
{
    let ghost before = text::texts(lines@);
    sheet::put(lines, "");
    sheet::put(lines, "\x1b[2m  Score range: 0 (strongest sell) → 100 (strongest buy) | neutral = 50\x1b[0m");
    sheet::put(lines, "\x1b[2m  Signal columns show deviation from neutral (positive = bullish)\x1b[0m");
    if warned {
        sheet::put(lines, "\x1b[2m  \x1b[33m⚠\x1b[0m\x1b[2m = industry correlation r > 0.70 with a higher-ranked pick\x1b[0m");
    }
    proof {
        assert(text::texts(lines@) =~= before + legend(warned));
    }
}

/// Adds the line of a signal in the breakdown.
fn put_signal(lines: &mut Vec<String>, label: &str, d: &(String, String))
    ensures
        text::texts(final(lines)@) == text::texts(old(lines)@).push(signal_line(label@, *d)),
{
    let mut s: String = label.to_owned();
    s.append(text::pad_left(d.0.as_str(), 6).as_str());
    s.append("  (raw: ");
    s.append(d.1.as_str());
    s.append(")");
    sheet::put(lines, s.as_str());
}

/// Adds the breakdown of a pick.
fn put_breakdown(lines: &mut Vec<String>, s: &SignalScore, c: &PickCells)
    requires
        c.details@.len() == 5,
    ensures
        text::texts(final(lines)@) == text::texts(old(lines)@) + breakdown(*s, *c),
{
    let ghost before = text::texts(lines@);
    let mut t: String = "  \x1b[1m\x1b[97m".to_owned();
    t.append(text::pad_right(s.ticker.as_str(), 6).as_str());
    t.append("\x1b[0m  Score: ");
    let colour: &str = if (Number { bits: SIXTY_FIVE }).is_le(s.composite) {
        "\x1b[32m"
    } else {
        "\x1b[33m"
    };
    t.append(colour);
    t.append(c.score.as_str());
    t.append("/100\x1b[0m  │  ");
    t.append(s.industry.as_str());
    sheet::put(lines, t.as_str());
    put_signal(lines, "    Momentum:      ", &c.details[0]);
    put_signal(lines, "    Fundamental:   ", &c.details[1]);
    put_signal(lines, "    Insider:       ", &c.details[2]);
    put_signal(lines, "    Sentiment:     ", &c.details[3]);
    put_signal(lines, "    Pairs:         ", &c.details[4]);
    let filter: &str = if s.macro_on {
        "\x1b[32mON\x1b[0m"
    } else {
        "\x1b[31mOFF\x1b[0m"
    };
    sheet::put_two(lines, "    Macro filter:  ", filter);
    sheet::put(lines, "");
    proof {
        assert(text::texts(lines@) =~= before + breakdown(*s, *c));
    }
}

impl CliReporter {
    /// What each role earned, from the best to the worst.
    pub fn print_role_performance(v: &Vec<RoleRow>) -> (r: Vec<String>)
        requires
            forall|i: int| 0 <= i < v@.len() ==> !(#[trigger] v@[i]).total_return.nan(),
        ensures
            is_role_section(v@, text::texts(r@)),
    {
        let mut lines: Vec<String> = Vec::new();
        put_role_head(&mut lines);
        proof {
            assert(text::texts(lines@) =~= role_head());
        }
        let mut rs: Vec<Number> = Vec::new();
        let mut i: usize = 0;
        while i < v.len()
            invariant
                i <= v@.len(),
                rs@.len() == i,
                forall|k: int| 0 <= k < i ==> (#[trigger] rs@[k]) == v@[k].total_return,
            decreases v@.len() - i,
        {
            rs.push(v[i].total_return);
            i = i + 1;
        }
        proof {
            assert(rs@ =~= role_returns(v@));
        }
        let p: Vec<usize> = order::descending_order(&rs);
        let ghost rows = Seq::new(p@.len(), |k: int| role_row(v@[p@[k] as int]));
        let mut k: usize = 0;
        proof {
            assert(role_head() + rows.take(0) =~= role_head());
        }
        while k < p.len()
            invariant
                k <= p@.len(),
                order::is_descending(role_returns(v@), p@),
                rows == Seq::new(p@.len(), |k: int| role_row(v@[p@[k] as int])),
                text::texts(lines@) == role_head() + rows.take(k as int),
            decreases p@.len() - k,
        {
            proof {
                assert(p@[k as int] < role_returns(v@).len());
            }
            sheet::put(&mut lines, role_text(&v[p[k]]).as_str());
            proof {
                assert(role_head() + rows.take(k + 1) =~= (role_head() + rows.take(k as int)).push(
                    rows[k as int],
                ));
            }
            k = k + 1;
        }
        put_section_end(&mut lines);
        proof {
            assert(rows.take(p@.len() as int) =~= rows);
        }
        lines
    }

    /// What the industries earned: the first ten and the last five.
    pub fn print_industry_performance(v: &Vec<IndustryRow>) -> (r: Vec<String>)
        requires
            forall|i: int|
                0 <= i < v@.len() && industry_shown(i, v@.len() as int) ==> can_truncate(
                    (#[trigger] v@[i]).industry_name@,
                    40,
                ),
        ensures
            text::texts(r@) == industry_lines(v@),
    {
        let mut lines: Vec<String> = Vec::new();
        let first: usize = if v.len() < 10 {
            v.len()
        } else {
            10
        };
        let last: usize = if v.len() < 5 {
            0
        } else {
            v.len() - 5
        };
        put_industry_head(&mut lines);
        proof {
            assert(text::texts(lines@) =~= industry_head());
        }
        put_industries(&mut lines, v, 0, first);
        sheet::put(&mut lines, "  \x1b[2m  ...\x1b[0m");
        put_industries(&mut lines, v, last, v.len());
        put_section_end(&mut lines);
        proof {
            assert(v@.subrange(0, first as int) =~= v@.take(first as int));
            assert(v@.subrange(last as int, v@.len() as int) =~= v@.skip(last as int));
            assert(text::texts(lines@) =~= industry_lines(v@));
        }
        lines
    }

    /// The first five drawdowns, with their depths printed.
    pub fn print_drawdowns(v: &Vec<DrawdownPeriod>, depths: &Vec<String>) -> (r: Vec<String>)
        requires
            depths@.len() == v@.len(),
            forall|i: int|
                0 <= i < v@.len() && i < 5 ==> (#[trigger] v@[i]).peak_date.in_range()
                    && v@[i].trough_date.in_range(),
        ensures
            text::texts(r@) == drawdown_lines(v@, depths@),
    {
        let mut lines: Vec<String> = Vec::new();
        put_drawdown_head(&mut lines);
        let n: usize = if v.len() < 5 {
            v.len()
        } else {
            5
        };
        let mut i: usize = 0;
        proof {
            assert(text::texts(lines@) =~= drawdown_head() + drawdown_rows(v@, depths@, 0));
        }
        while i < n
            invariant
                i <= n <= v@.len(),
                n <= 5,
                depths@.len() == v@.len(),
                forall|k: int|
                    0 <= k < v@.len() && k < 5 ==> (#[trigger] v@[k]).peak_date.in_range()
                        && v@[k].trough_date.in_range(),
                text::texts(lines@) == drawdown_head() + drawdown_rows(v@, depths@, i as int),
            decreases n - i,
        {
            sheet::put(&mut lines, drawdown_text(&v[i], depths[i].as_str()).as_str());
            proof {
                let shorter = drawdown_rows(v@, depths@, i as int);
                let longer = drawdown_rows(v@, depths@, i + 1);
                assert(drawdown_head() + longer =~= (drawdown_head() + shorter).push(
                    drawdown_row(v@[i as int], depths@[i as int]@),
                ));
            }
            i = i + 1;
        }
        put_section_end(&mut lines);
        lines
    }

    /// The last twenty swaps, and how often each role changed hands, most often first.
    pub fn print_swap_log(v: &Vec<SwapEvent>) -> (r: Vec<String>)
        requires
            v@.len() <= i64::MAX,
            forall|i: int|
                first_shown(v@.len() as int) <= i < v@.len() ==> printable(#[trigger] v@[i]),
        ensures
            is_swap_section(v@, text::texts(r@)),
    {
        let mut lines: Vec<String> = Vec::new();
        let n: usize = v.len();
        put_swap_head(&mut lines, n);
        proof {
            assert(text::texts(lines@) =~= swap_head(n as nat));
        }
        if n == 0 {
            sheet::put(&mut lines, "  \x1b[2mNo swaps during simulation period.\x1b[0m");
            put_section_end(&mut lines);
            proof {
                assert(text::texts(lines@) =~= swap_head(0) + seq![
                    "  \x1b[2mNo swaps during simulation period.\x1b[0m"@,
                ] + section_end());
            }
            return lines;
        }
        put_swap_table_head(&mut lines);
        put_recent_swaps(&mut lines, v);
        let ghost above = swap_head(n as nat) + swap_table_head() + swap_rows(
            v@.skip(first_shown(n as int)),
        );
        if n > 20 {
            let earlier: String = text::decimal_text((n - 20) as u64);
            sheet::put_three(&mut lines, "  \x1b[2m  … and ", earlier.as_str(), " earlier swaps\x1b[0m");
        }
        proof {
            assert(text::texts(lines@) =~= above + earlier_swaps(n as int));
        }
        sheet::put(&mut lines, "");
        sheet::put(&mut lines, "  \x1b[1mSwaps by role:\x1b[0m");
        let ghost head = above + earlier_swaps(n as int) + seq![""@, "  \x1b[1mSwaps by role:\x1b[0m"@];
        proof {
            assert(text::texts(lines@) =~= head);
        }
        let by: Vec<Role> = find_swapped_roles(v);
        let mut keys: Vec<i64> = Vec::new();
        let mut i: usize = 0;
        while i < by.len()
            invariant
                i <= by@.len(),
                v@.len() <= i64::MAX,
                keys@.len() == i,
                forall|k: int|
                    0 <= k < i ==> (#[trigger] keys@[k]) == -rebalancer::swaps_of(
                        v@,
                        by@[k],
                        v@.len() as int,
                    ) as i64,
            decreases by@.len() - i,
        {
            let count: usize = rebalancer::swap_count(v, by[i]);
            keys.push(-(count as i64));
            i = i + 1;
        }
        proof {
            assert(keys@ =~= count_keys(v@, by@));
        }
        let p: Vec<usize> = order::stable_order(&keys);
        let ghost rows = Seq::new(
            p@.len(),
            |k: int|
                count_row(
                    swapped_roles(v@)[p@[k] as int],
                    rebalancer::swaps_of(v@, swapped_roles(v@)[p@[k] as int], v@.len() as int),
                ),
        );
        let mut k: usize = 0;
        proof {
            assert(head + rows.take(0) =~= head);
        }
        while k < p.len()
            invariant
                k <= p@.len(),
                by@ == swapped_roles(v@),
                order::is_stable_order(count_keys(v@, by@), p@),
                rows == Seq::new(
                    p@.len(),
                    |k: int|
                        count_row(
                            swapped_roles(v@)[p@[k] as int],
                            rebalancer::swaps_of(
                                v@,
                                swapped_roles(v@)[p@[k] as int],
                                v@.len() as int,
                            ),
                        ),
                ),
                text::texts(lines@) == head + rows.take(k as int),
            decreases p@.len() - k,
        {
            proof {
                assert(p@[k as int] < count_keys(v@, by@).len());
            }
            let role: Role = by[p[k]];
            let count: usize = rebalancer::swap_count(v, role);
            sheet::put(&mut lines, count_text(role, count).as_str());
            proof {
                assert(head + rows.take(k + 1) =~= (head + rows.take(k as int)).push(
                    rows[k as int],
                ));
            }
            k = k + 1;
        }
        put_section_end(&mut lines);
        proof {
            assert(rows.take(p@.len() as int) =~= rows);
        }
        lines
    }

    /// The report on a simulation, section after section; the one on a random baseline only
    /// where there is one.
    pub fn print(x: &SimulationReport) -> (r: Vec<String>)
        requires
            x.printable(),
        ensures
            is_simulation_report(*x, text::texts(r@)),
    {
        let mut lines: Vec<String> = Vec::new();
        put_header(&mut lines, &x.config);
        put_summary(&mut lines, x.summary, &x.cells);
        let by_role: Vec<String> = Self::print_role_performance(&x.roles);
        let by_industry: Vec<String> = Self::print_industry_performance(&x.industries);
        let falls: Vec<String> = Self::print_drawdowns(&x.drawdowns, &x.depths);
        let swaps: Vec<String> = Self::print_swap_log(&x.swaps);
        sheet::put_all(&mut lines, &by_role);
        sheet::put_all(&mut lines, &by_industry);
        sheet::put_all(&mut lines, &falls);
        sheet::put_all(&mut lines, &swaps);
        match &x.baseline {
            Some(b) => {
                put_baseline(&mut lines, b.n_simulations, b.beat, &b.cells, b.marks);
            },
            None => {},
        }
        put_footer(&mut lines);
        proof {
            assert(is_role_section(x.roles@, text::texts(by_role@)));
            assert(is_swap_section(x.swaps@, text::texts(swaps@)));
            assert(text::texts(lines@) =~= report_of(
                *x,
                text::texts(by_role@),
                text::texts(swaps@),
            ));
        }
        lines
    }

    /// The report on ranked picks: the best twenty-five, and what makes up the scores of the best
    /// five.
    pub fn picks_report(
        scores: &Vec<SignalScore>,
        cells: &Vec<PickCells>,
        warnings: &Vec<CorrelationWarning>,
        as_of: &str,
        regime: &str,
    ) -> (r: Vec<String>)
        requires
            cells@.len() == scores@.len(),
            forall|i: int|
                0 <= i < cells@.len() && i < 5 ==> (#[trigger] cells@[i]).details@.len() == 5,
            forall|i: int|
                0 <= i < scores@.len() && i < 25 ==> can_truncate(
                    (#[trigger] scores@[i]).industry@,
                    30,
                ),
        ensures
            text::texts(r@) == picks_lines(scores@, cells@, warnings@, as_of@, regime@),
    {
        let mut lines: Vec<String> = Vec::new();
        let n: usize = scores.len();
        put_picks_head(&mut lines, as_of, n, regime);
        let shown: usize = if n < 25 {
            n
        } else {
            25
        };
        let ghost head = picks_head(as_of@, n as nat, regime@);
        let mut i: usize = 0;
        proof {
            assert(text::texts(lines@) =~= head + pick_rows(scores@, cells@, warnings@, 0));
        }
        while i < shown
            invariant
                i <= shown <= n == scores@.len(),
                shown <= 25,
                cells@.len() == scores@.len(),
                forall|k: int|
                    0 <= k < scores@.len() && k < 25 ==> can_truncate(
                        (#[trigger] scores@[k]).industry@,
                        30,
                    ),
                text::texts(lines@) == head + pick_rows(scores@, cells@, warnings@, i as int),
            decreases shown - i,
        {
            sheet::put(&mut lines, pick_text(&scores[i], &cells[i], warnings).as_str());
            proof {
                let shorter = pick_rows(scores@, cells@, warnings@, i as int);
                let longer = pick_rows(scores@, cells@, warnings@, i + 1);
                assert(head + longer =~= (head + shorter).push(
                    pick_row(scores@[i as int], cells@[i as int], warnings@),
                ));
            }
            i = i + 1;
        }
        let ghost table = head + pick_rows(scores@, cells@, warnings@, shown as int);
        if n > 25 {
            let more: String = text::decimal_text((n - 25) as u64);
            sheet::put_three(&mut lines, "  \x1b[2m  … and ", more.as_str(), " more stocks\x1b[0m");
        }
        proof {
            assert(text::texts(lines@) =~= table + more_picks(n as int));
        }
        put_legend(&mut lines, warnings.len() > 0);
        put_breakdown_head(&mut lines);
        let ghost above = table + more_picks(n as int) + legend(warnings@.len() > 0)
            + breakdown_head();
        let detailed: usize = if n < 5 {
            n
        } else {
            5
        };
        let mut k: usize = 0;
        proof {
            assert(text::texts(lines@) =~= above + breakdowns(scores@, cells@, 0));
        }
        while k < detailed
            invariant
                k <= detailed <= n == scores@.len(),
                detailed <= 5,
                cells@.len() == scores@.len(),
                forall|j: int|
                    0 <= j < cells@.len() && j < 5 ==> (#[trigger] cells@[j]).details@.len() == 5,
                text::texts(lines@) == above + breakdowns(scores@, cells@, k as int),
            decreases detailed - k,
        {
            put_breakdown(&mut lines, &scores[k], &cells[k]);
            proof {
                let shorter = breakdowns(scores@, cells@, k as int);
                let more = breakdown(scores@[k as int], cells@[k as int]);
                assert(breakdowns(scores@, cells@, k + 1) == shorter + more);
                assert(above + (shorter + more) =~= (above + shorter) + more);
            }
            k = k + 1;
        }
        sheet::put(&mut lines, "\x1b[2m────────────────────────────────────────────────────────────────────\x1b[0m");
        put_footer(&mut lines);
        proof {
            assert(text::texts(lines@) =~= picks_lines(
                scores@,
                cells@,
                warnings@,
                as_of@,
                regime@,
            ));
        }
        lines
    }

    /// The file that picks are written to.
    pub fn picks_file(as_of: &str) -> (r: String)
        ensures
            r@ == "picks_"@ + as_of@.filter(|c: char| c != '-') + ".json"@,
    {
        let chars: Vec<char> = text::to_chars(as_of);
        let mut digits: String = String::new();
        let mut i: usize = 0;
        let ghost keep = |c: char| c != '-';
        proof {
            reveal(Seq::filter);
            assert(chars@.take(0) =~= seq![]);
            assert(digits@ =~= chars@.take(0).filter(keep));
        }
        while i < chars.len()
            invariant
                i <= chars@.len(),
                keep == (|c: char| c != '-'),
                digits@ == chars@.take(i as int).filter(keep),
            decreases chars@.len() - i,
        {
            proof {
                reveal(Seq::filter);
                assert(chars@.take(i + 1).drop_last() =~= chars@.take(i as int));
                assert(chars@.take(i + 1).last() == chars@[i as int]);
            }
            if chars[i] != '-' {
                digits.push(chars[i]);
            }
            i = i + 1;
        }
        proof {
            assert(chars@.take(chars@.len() as int) =~= chars@);
        }
        let mut s: String = "picks_".to_owned();
        s.append(digits.as_str());
        s.append(".json");
        s
    }
}

/// Adds the rows of the last twenty swaps.
fn put_recent_swaps(lines: &mut Vec<String>, v: &Vec<SwapEvent>)
    requires
        forall|i: int|
            first_shown(v@.len() as int) <= i < v@.len() ==> printable(#[trigger] v@[i]),
    ensures
        text::texts(final(lines)@) == text::texts(old(lines)@) + swap_rows(
            v@.skip(first_shown(v@.len() as int)),
        ),
{
    let from: usize = if v.len() > 20 {
        v.len() - 20
    } else {
        0
    };
    let ghost before = text::texts(lines@);
    let mut i: usize = from;
    proof {
        assert(before =~= before + swap_rows(v@.subrange(from as int, from as int)));
    }
    while i < v.len()
        invariant
            from <= i <= v@.len(),
            forall|k: int| from <= k < v@.len() ==> printable(#[trigger] v@[k]),
            text::texts(lines@) == before + swap_rows(v@.subrange(from as int, i as int)),
        decreases v@.len() - i,
    {
        sheet::put(lines, swap_text(&v[i]).as_str());
        proof {
            let shorter = swap_rows(v@.subrange(from as int, i as int));
            let longer = swap_rows(v@.subrange(from as int, i + 1));
            assert(before + longer =~= (before + shorter).push(swap_row(v@[i as int])));
        }
        i = i + 1;
    }
    proof {
        assert(v@.subrange(from as int, v@.len() as int) =~= v@.skip(from as int));
    }
}

/// The roles that changed hands.
fn find_swapped_roles(v: &Vec<SwapEvent>) -> (r: Vec<Role>)
    ensures
        r@ == swapped_roles(v@),
{
    let all: Vec<Role> = Role::all();
    let mut out: Vec<Role> = Vec::new();
    let mut i: usize = 0;
    let ghost keep = |r: Role| rebalancer::swaps_of(v@, r, v@.len() as int) > 0;
    proof {
        reveal(Seq::filter);
        assert(all@ =~= all_roles());
        assert(all@.take(0) =~= seq![]);
        assert(out@ =~= all@.take(0).filter(keep));
    }
    while i < all.len()
        invariant
            i <= all@.len(),
            keep == (|r: Role| rebalancer::swaps_of(v@, r, v@.len() as int) > 0),
            out@ == all@.take(i as int).filter(keep),
        decreases all@.len() - i,
    {
        proof {
            reveal(Seq::filter);
            assert(all@.take(i + 1).drop_last() =~= all@.take(i as int));
            assert(all@.take(i + 1).last() == all@[i as int]);
        }
        if rebalancer::swap_count(v, all[i]) > 0 {
            out.push(all[i]);
        }
        i = i + 1;
    }
    proof {
        assert(all@.take(all@.len() as int) =~= all@);
    }
    out
}

/// What a random baseline came to.
#[derive(Debug)]
pub struct BaselineReport {
    pub n_simulations: usize,
    /// How often a random portfolio beat the strategy, in percent.
    pub beat: Number,
    pub cells: BaselineCells,
    pub marks: BarMarks,
}

/// Everything that a simulation report shows.
#[derive(Debug)]
pub struct SimulationReport {
    pub config: RunConfig,
    pub summary: Summary,
    pub cells: SummaryCells,
    pub roles: Vec<RoleRow>,
    pub industries: Vec<IndustryRow>,
    pub drawdowns: Vec<DrawdownPeriod>,
    /// The depths of the drawdowns, printed with their sign and two decimals.
    pub depths: Vec<String>,
    pub swaps: Vec<SwapEvent>,
    pub baseline: Option<BaselineReport>,
}

impl SimulationReport {
    /// Every date and name that is shown can be printed, and returns can be compared.
    pub open spec fn printable(&self) -> bool {
        &&& self.config.start_date.in_range()
        &&& self.config.end_date.in_range()
        &&& forall|i: int| 0 <= i < self.roles@.len() ==> !(#[trigger] self.roles@[i]).total_return.nan()
        &&& forall|i: int|
            0 <= i < self.industries@.len() && industry_shown(i, self.industries@.len() as int)
                ==> can_truncate(
                (#[trigger] self.industries@[i]).industry_name@,
                40,
            )
        &&& self.depths@.len() == self.drawdowns@.len()
        &&& forall|i: int|
            0 <= i < self.drawdowns@.len() && i < 5 ==> (
            #[trigger] self.drawdowns@[i]).peak_date.in_range()
                && self.drawdowns@[i].trough_date.in_range()
        &&& self.swaps@.len() <= i64::MAX
        &&& forall|i: int|
            first_shown(self.swaps@.len() as int) <= i < self.swaps@.len() ==> printable(
                #[trigger] self.swaps@[i],
            )
    }
}

/// A simulation report with given sections on roles and swaps.
pub open spec fn report_of(
    x: SimulationReport,
    by_role: Seq<Seq<char>>,
    swaps: Seq<Seq<char>>,
) -> Seq<Seq<char>> {
    header_lines(x.config) + summary_lines(x.summary, x.cells) + by_role + industry_lines(
        x.industries@,
    ) + drawdown_lines(x.drawdowns@, x.depths@) + swaps + (match x.baseline {
        Some(b) => baseline_lines(b.n_simulations as nat, b.beat, b.cells, b.marks),
        None => seq![],
    }) + footer_lines()
}

/// `lines` is the report on a simulation.
pub open spec fn is_simulation_report(x: SimulationReport, lines: Seq<Seq<char>>) -> bool {
    exists|by_role: Seq<Seq<char>>, swaps: Seq<Seq<char>>|
        #![trigger is_role_section(x.roles@, by_role), is_swap_section(x.swaps@, swaps)]
        is_role_section(x.roles@, by_role) && is_swap_section(x.swaps@, swaps) && lines
            == report_of(x, by_role, swaps)
}

// ── What the reports say ─────────────────────────────────────────────────────

/// Roles are listed from the best return to the worst, each once and with its own return, weight
/// and number of swaps.
pub proof fn roles_are_listed_by_return(v: Vec<RoleRow>, r: Vec<String>) -> (order: Seq<int>)
    requires
        forall|i: int| 0 <= i < v@.len() ==> !(#[trigger] v@[i]).total_return.nan(),
        call_ensures(CliReporter::print_role_performance, (&v,), r),
    ensures
        order.len() == v@.len(),
        r@.len() == order.len() + 7,
        forall|k: int|
            0 <= k < order.len() ==> 0 <= (#[trigger] order[k]) < v@.len() && {
                let x = v@[order[k]];
                r@[k + 5]@ == "  "@ + text::left_aligned(roles::role_label(x.role), 20) + "  "@
                    + sheet::gain_colour(x.total_return) + text::right_aligned(x.return_cell@, 9)
                    + "%\x1b[0m  "@ + text::right_aligned(x.weight_cell@, 9) + "%  "@
                    + text::right_aligned(text::decimal(x.swap_count as nat), 8)
            },
        forall|j: int, k: int|
            0 <= j < k < order.len() ==> v@[#[trigger] order[j]].total_return.place()
                >= v@[#[trigger] order[k]].total_return.place() && order[j] != order[k],
{
    let all = text::texts(r@);
    let found = choose|p: Seq<usize>| #[trigger]
        order::is_descending(role_returns(v@), p) && all == role_head() + Seq::new(
            p.len(),
            |k: int| role_row(v@[p[k] as int]),
        ) + section_end();
    let g = role_returns(v@);
    let rows = Seq::new(found.len(), |k: int| role_row(v@[found[k] as int]));
    let order = found.map_values(|x: usize| x as int);
    assert(all.len() == r@.len());
    assert(role_head().len() == 5 && section_end().len() == 2);
    assert forall|k: int| 0 <= k < order.len() implies 0 <= (#[trigger] order[k]) < v@.len() && {
        let x = v@[order[k]];
        r@[k + 5]@ == "  "@ + text::left_aligned(roles::role_label(x.role), 20) + "  "@
            + sheet::gain_colour(x.total_return) + text::right_aligned(x.return_cell@, 9)
            + "%\x1b[0m  "@ + text::right_aligned(x.weight_cell@, 9) + "%  "@ + text::right_aligned(
            text::decimal(x.swap_count as nat),
            8,
        )
    } by {
        assert(order[k] == found[k] as int);
        assert(found[k] < g.len());
        assert(all[k + 5] == rows[k]);
        assert(all[k + 5] == r@[k + 5]@);
    }
    assert forall|j: int, k: int| 0 <= j < k < order.len() implies v@[
    #[trigger] order[j]].total_return.place() >= v@[#[trigger] order[k]].total_return.place()
        && order[j] != order[k] by {
        assert(order::descends(g, found[j] as int, found[k] as int));
        assert(found[j] < g.len() && found[k] < g.len());
        assert(g[found[j] as int] == v@[order[j]].total_return);
        assert(g[found[k] as int] == v@[order[k]].total_return);
    }
    order
}

/// The first ten industries and the last five are listed, each with its own return; where there are
/// more than fifteen, the others are not.
pub proof fn the_first_ten_and_last_five_industries_are_listed(
    v: Vec<IndustryRow>,
    r: Vec<String>,
    i: int,
)
    requires
        v@.len() >= 10,
        forall|k: int|
            0 <= k < v@.len() && (k < 10 || k >= v@.len() - 5) ==> can_truncate(
                (#[trigger] v@[k]).industry_name@,
                40,
            ),
        call_ensures(CliReporter::print_industry_performance, (&v,), r),
    ensures
        r@.len() == 23,
        0 <= i < 10 ==> r@[5 + i]@ == "  "@ + text::left_aligned(
            truncated(v@[i].industry_name@, 40),
            40,
        ) + "  "@ + sheet::gain_colour(v@[i].total_return) + text::right_aligned(
            v@[i].return_cell@,
            9,
        ) + "%\x1b[0m"@,
        0 <= i < 5 ==> ({
            let x = v@[v@.len() - 5 + i];
            r@[16 + i]@ == "  "@ + text::left_aligned(truncated(x.industry_name@, 40), 40) + "  "@
                + sheet::gain_colour(x.total_return) + text::right_aligned(x.return_cell@, 9)
                + "%\x1b[0m"@
        }),
{
    let all = text::texts(r@);
    let n = v@.len() as int;
    let a = industry_rows(v@.take(10));
    let b = industry_rows(v@.skip(n - 5));
    assert(all == industry_lines(v@));
    assert(all.len() == r@.len());
    assert(industry_head().len() == 5 && section_end().len() == 2 && a.len() == 10 && b.len() == 5);
    if 0 <= i < 10 {
        assert(all[5 + i] == a[i] && all[5 + i] == r@[5 + i]@);
        assert(a[i] == industry_row(v@[i]));
    }
    if 0 <= i < 5 {
        assert(all[16 + i] == b[i] && all[16 + i] == r@[16 + i]@);
        assert(b[i] == industry_row(v@[n - 5 + i]));
    }
}

/// The first five drawdowns are listed from their peak to their trough, each with its own depth;
/// one that has recovered says so and after how many days.
pub proof fn drawdowns_are_listed_from_peak_to_trough(
    v: Vec<DrawdownPeriod>,
    depths: Vec<String>,
    r: Vec<String>,
    i: int,
)
    requires
        depths@.len() == v@.len(),
        forall|k: int|
            0 <= k < v@.len() && k < 5 ==> (#[trigger] v@[k]).peak_date.in_range()
                && v@[k].trough_date.in_range(),
        call_ensures(CliReporter::print_drawdowns, (&v, &depths), r),
        0 <= i < v@.len(),
        i < 5,
    ensures
        r@.len() == (if v@.len() < 5 {
            v@.len()
        } else {
            5
        }) + 7,
        ({
            let p = v@[i];
            let front = "  "@ + calendar::day_text(p.peak_date.days as int) + "  "@
                + calendar::day_text(p.trough_date.days as int) + "  \x1b[31m"@
                + text::right_aligned(depths@[i]@, 9) + "%\x1b[0m  "@;
            &&& front.is_prefix_of(r@[i + 5]@)
            &&& p.recovery_date is Some ==> "\x1b[32mRecovered\x1b[0m"@.is_suffix_of(r@[i + 5]@)
            &&& p.recovery_date is None ==> "\x1b[31mOpen\x1b[0m"@.is_suffix_of(r@[i + 5]@)
            &&& p.recovery_date is Some && p.recovery_days is Some ==> r@[i + 5]@ == front
                + text::left_aligned(
                text::right_aligned(text::decimal(p.recovery_days->0 as nat), 9) + "d"@,
                12,
            ) + "  "@ + "\x1b[32mRecovered\x1b[0m"@
        }),
{
    let all = text::texts(r@);
    let p = v@[i];
    let line = drawdown_row(p, depths@[i]@);
    assert(all == drawdown_lines(v@, depths@));
    assert(all.len() == r@.len());
    assert(drawdown_head().len() == 5 && section_end().len() == 2);
    assert(all[i + 5] == line);
    assert(all[i + 5] == r@[i + 5]@);
    let front = "  "@ + calendar::day_text(p.peak_date.days as int) + "  "@ + calendar::day_text(
        p.trough_date.days as int,
    ) + "  \x1b[31m"@ + text::right_aligned(depths@[i]@, 9) + "%\x1b[0m  "@;
    let status = if p.recovery_date is Some {
        "\x1b[32mRecovered\x1b[0m"@
    } else {
        "\x1b[31mOpen\x1b[0m"@
    };
    assert(line == front + text::left_aligned(recovery_cell(p), 12) + "  "@ + status);
    assert(line.take(front.len() as int) =~= front);
    assert(line.skip(line.len() - status.len()) =~= status);
}

/// Each of the last twenty swaps has a row that names the role, who left it and who took it, the
/// rows following each other in the order of the swaps.
pub proof fn swaps_are_listed_from_outgoing_to_incoming(v: Vec<SwapEvent>, r: Vec<String>) -> (at:
    int)
    requires
        v@.len() > 0,
        v@.len() <= i64::MAX,
        forall|i: int| 0 <= i < v@.len() && i + 20 >= v@.len() ==> printable(#[trigger] v@[i]),
        call_ensures(CliReporter::print_swap_log, (&v,), r),
    ensures
        forall|i: int|
            0 <= i < v@.len() && i + 20 >= v@.len() ==> 0 <= at + i < r@.len() && {
                let e = #[trigger] v@[i];
                r@[at + i]@ == "  "@ + calendar::day_text(e.date.days as int) + "  "@
                    + text::left_aligned(truncated(e.industry_name@, 26), 26) + "  "@
                    + text::left_aligned(roles::role_label(e.role), 16) + "  \x1b[33m"@
                    + text::left_aligned(truncated(e.outgoing@, 10), 10) + "\x1b[0m  \x1b[32m"@
                    + text::left_aligned(truncated(e.incoming@, 10), 10) + "\x1b[0m"@
            },
{
    let all = text::texts(r@);
    let n = v@.len() as int;
    assert(is_swap_section(v@, all));
    let p = choose|p: Seq<usize>| #[trigger]
        order::is_stable_order(count_keys(v@, swapped_roles(v@)), p) && all == swap_head(v@.len())
            + swap_table_head() + swap_rows(v@.skip(first_shown(n))) + earlier_swaps(n) + seq![
            ""@,
            "  \x1b[1mSwaps by role:\x1b[0m"@,
        ] + Seq::new(
            p.len(),
            |k: int|
                count_row(
                    swapped_roles(v@)[p[k] as int],
                    rebalancer::swaps_of(v@, swapped_roles(v@)[p[k] as int], n),
                ),
        ) + section_end();
    let rows = swap_rows(v@.skip(first_shown(n)));
    let front = swap_head(v@.len()) + swap_table_head();
    let at = front.len() - first_shown(n);
    assert(all.len() == r@.len());
    assert forall|i: int| 0 <= i < n && i + 20 >= n implies 0 <= at + i < r@.len() && {
        let e = #[trigger] v@[i];
        r@[at + i]@ == "  "@ + calendar::day_text(e.date.days as int) + "  "@ + text::left_aligned(
            truncated(e.industry_name@, 26),
            26,
        ) + "  "@ + text::left_aligned(roles::role_label(e.role), 16) + "  \x1b[33m"@
            + text::left_aligned(truncated(e.outgoing@, 10), 10) + "\x1b[0m  \x1b[32m"@
            + text::left_aligned(truncated(e.incoming@, 10), 10) + "\x1b[0m"@
    } by {
        let j = i - first_shown(n);
        assert(rows[j] == swap_row(v@[i]));
        assert(all[at + i] == rows[j]);
        assert(all[at + i] == r@[at + i]@);
    }
    at
}

/// Each of the best twenty-five picks has a row with its own rank, ticker and figures, in the order
/// of the ranking. A score from 65 is green, from 45 yellow and red below.
pub proof fn picks_are_listed_with_their_own_figures(
    scores: Vec<SignalScore>,
    cells: Vec<PickCells>,
    warnings: Vec<CorrelationWarning>,
    as_of: &str,
    regime: &str,
    r: Vec<String>,
    i: int,
) -> (shown: (Seq<char>, Seq<char>))
    requires
        cells@.len() == scores@.len(),
        forall|k: int|
            0 <= k < cells@.len() && k < 5 ==> (#[trigger] cells@[k]).details@.len() == 5,
        forall|k: int|
            0 <= k < scores@.len() && k < 25 ==> can_truncate((#[trigger] scores@[k]).industry@, 30),
        call_ensures(
            CliReporter::picks_report,
            (&scores, &cells, &warnings, as_of, regime),
            r,
        ),
        0 <= i < scores@.len(),
        i < 25,
    ensures
        11 + i < r@.len(),
        ({
            let s = scores@[i];
            let c = cells@[i];
            r@[11 + i]@ == "  "@ + text::left_aligned(text::decimal(s.rank as nat), 4) + "  "@
                + text::left_aligned(s.ticker@, 8) + "  "@ + shown.0 + text::right_aligned(
                c.score@,
                5,
            ) + "\x1b[0m"@ + (if s.macro_on {
                " "@
            } else {
                "\x1b[31m✗\x1b[0m"@
            }) + "  "@ + text::right_aligned(c.momentum@, 6) + "  "@ + text::right_aligned(
                c.fundamental@,
                7,
            ) + "  "@ + text::right_aligned(c.insider@, 5) + "  "@ + text::right_aligned(
                c.sentiment@,
                6,
            ) + "  "@ + text::right_aligned(c.pairs@, 4) + "  "@ + text::left_aligned(
                truncated(s.industry@, 30),
                30,
            ) + "  "@ + shown.1
        }),
        0x4050_4000_0000_0000 <= scores@[i].composite.bits < 0x7FF0_0000_0000_0000 ==> shown.0
            == "\x1b[32m"@,
        0x4046_8000_0000_0000 <= scores@[i].composite.bits < 0x4050_4000_0000_0000 ==> shown.0
            == "\x1b[33m"@,
        scores@[i].composite.bits < 0x4046_8000_0000_0000 ==> shown.0 == "\x1b[31m"@,
        (forall|k: int|
            0 <= k < warnings@.len() ==> (#[trigger] warnings@[k]).ticker@ != scores@[i].ticker@)
            ==> shown.1.len() == 0,
        forall|k: int|
            0 <= k < warnings@.len() && (#[trigger] warnings@[k]).ticker@ == scores@[i].ticker@ && (
            forall|j: int| 0 <= j < k ==> (#[trigger] warnings@[j]).ticker@ != scores@[i].ticker@)
                ==> shown.1 == "\x1b[33m⚠ HIGH CORRELATION WITH "@ + warnings@[k].correlated_with@
                + "\x1b[0m"@,
{
    let all = text::texts(r@);
    let n = scores@.len() as int;
    let s = scores@[i];
    let rows = pick_rows(scores@, cells@, warnings@, at_most(n, 25));
    assert(all == picks_lines(scores@, cells@, warnings@, as_of@, regime@));
    assert(all.len() == r@.len());
    assert(picks_head(as_of@, scores@.len(), regime@).len() == 11);
    assert(rows[i] == pick_row(s, cells@[i], warnings@));
    assert(all[11 + i] == rows[i]);
    assert(all[11 + i] == r@[11 + i]@);
    let warn = warn_cell(warned_of(warnings@, s.ticker@));
    if forall|k: int| 0 <= k < warnings@.len() ==> (#[trigger] warnings@[k]).ticker@ != s.ticker@ {
        lemma_warned_of(warnings@, s.ticker@, warnings@.len() as int);
        reveal_strlit("");
    }
    assert forall|k: int|
        0 <= k < warnings@.len() && (#[trigger] warnings@[k]).ticker@ == s.ticker@ && (forall|
            j: int,
        |
            0 <= j < k ==> (#[trigger] warnings@[j]).ticker@ != s.ticker@) implies warn
        == "\x1b[33m⚠ HIGH CORRELATION WITH "@ + warnings@[k].correlated_with@ + "\x1b[0m"@ by {
        lemma_warned_of(warnings@, s.ticker@, k);
    }
    (score_colour(s.composite), warn)
}

/// Each figure of a simulation stands under its own label; a drawdown deeper than a fifth is red.
pub proof fn figures_stand_under_their_labels(x: SimulationReport, r: Vec<String>)
    requires
        x.printable(),
        call_ensures(CliReporter::print, (&x,), r),
    ensures
        ({
            let m = x.summary;
            let c = x.cells;
            &&& sheet::has_line(
                r@,
                "  \x1b[1mTotal Return       \x1b[0m"@ + sheet::gain_colour(m.total_return)
                    + text::right_aligned(c.total_return@, 8)
                    + "%\x1b[0m      \x1b[1mBenchmark Return   \x1b[0m"@ + text::right_aligned(
                    c.benchmark_return@,
                    8,
                ) + "%"@,
            )
            &&& sheet::has_line(
                r@,
                "  \x1b[1mAnnualised Return  \x1b[0m"@ + sheet::gain_colour(m.total_return)
                    + text::right_aligned(c.annualised_return@, 8)
                    + "%\x1b[0m      \x1b[1mAlpha (total)      \x1b[0m"@ + sheet::gain_colour(
                    m.alpha,
                ) + text::right_aligned(c.alpha@, 8) + "%\x1b[0m"@,
            )
            &&& sheet::has_line(
                r@,
                "  \x1b[1mSharpe Ratio       \x1b[0m"@ + text::right_aligned(c.sharpe_ratio@, 8)
                    + "           \x1b[1mSortino Ratio      \x1b[0m"@ + text::right_aligned(
                    c.sortino_ratio@,
                    8,
                ),
            )
            &&& m.max_drawdown.bits < 0xBFC9_9999_9999_999A ==> sheet::has_line(
                r@,
                "  \x1b[1mMax Drawdown       \x1b[0m"@ + "\x1b[33m"@ + text::right_aligned(
                    c.max_drawdown@,
                    8,
                ) + "%\x1b[0m      \x1b[1mVolatility (ann.)  \x1b[0m"@ + text::right_aligned(
                    c.volatility@,
                    8,
                ) + "%"@,
            )
            &&& 0xBFC9_9999_9999_999A < m.max_drawdown.bits < 0xFFF0_0000_0000_0000
                ==> sheet::has_line(
                r@,
                "  \x1b[1mMax Drawdown       \x1b[0m"@ + "\x1b[31m"@ + text::right_aligned(
                    c.max_drawdown@,
                    8,
                ) + "%\x1b[0m      \x1b[1mVolatility (ann.)  \x1b[0m"@ + text::right_aligned(
                    c.volatility@,
                    8,
                ) + "%"@,
            )
            &&& sheet::has_line(
                r@,
                "  \x1b[1mCalmar Ratio       \x1b[0m"@ + text::right_aligned(c.calmar_ratio@, 8)
                    + "           \x1b[1mAnnualised Alpha   \x1b[0m"@ + sheet::gain_colour(m.alpha)
                    + text::right_aligned(c.annualised_alpha@, 8) + "%\x1b[0m"@,
            )
            &&& sheet::has_line(
                r@,
                "  \x1b[1mTrading Days       \x1b[0m"@ + text::right_aligned(
                    text::decimal(m.trading_days as nat),
                    8,
                ) + "           \x1b[1mTotal Swaps        \x1b[0m"@ + text::right_aligned(
                    text::decimal(m.total_swaps as nat),
                    8,
                ),
            )
        }),
{
    let all = text::texts(r@);
    let args = (&x,);
    let (by_role, swaps) = choose|by_role: Seq<Seq<char>>, swaps: Seq<Seq<char>>|
        #![trigger is_role_section(args.0.roles@, by_role), is_swap_section(args.0.swaps@, swaps)]
        is_role_section(args.0.roles@, by_role) && is_swap_section(args.0.swaps@, swaps) && all
            == report_of(*args.0, by_role, swaps);
    let table = summary_lines(x.summary, x.cells);
    let n = header_lines(x.config).len() as int;
    assert(all.len() == r@.len());
    assert(n == 11 && table.len() == 11);
    assert(all.len() >= 22);
    assert(all[14] == table[3] && all[15] == table[4] && all[16] == table[5]);
    assert(all[17] == table[6] && all[18] == table[7] && all[19] == table[8]);
    sheet::lemma_has_line(r@, 14);
    sheet::lemma_has_line(r@, 15);
    sheet::lemma_has_line(r@, 16);
    sheet::lemma_has_line(r@, 17);
    sheet::lemma_has_line(r@, 18);
    sheet::lemma_has_line(r@, 19);
}

/// A name that fits is shown whole. A longer one is cut to one byte less than fits, and an ellipsis
/// says so.
pub proof fn long_names_are_cut(s: &str, max: usize, r: String)
    requires
        max > 0,
        can_truncate(s@, max as int),
        call_ensures(truncate, (s, max), r),
    ensures
        encode_utf8(s@).len() as usize <= max ==> r@ == s@,
        encode_utf8(s@).len() as usize > max ==> r@ == decode_utf8(
            encode_utf8(s@).subrange(0, max - 1),
        ) + "…"@,
{
}

/// Picks are written to a file named by the day without its hyphens.
pub proof fn picks_files_are_named_by_the_day(a: &str, r: String, y: Seq<char>, m: Seq<char>, d: Seq<char>)
    requires
        call_ensures(CliReporter::picks_file, (a,), r),
        a@ == y.push('-') + m.push('-') + d,
        !y.contains('-') && !m.contains('-') && !d.contains('-'),
    ensures
        r@ == "picks_"@ + (y + m + d) + ".json"@,
{
    let keep = |c: char| c != '-';
    lemma_no_hyphens(y);
    lemma_no_hyphens(m);
    lemma_no_hyphens(d);
    lemma_filter_hyphen(y);
    lemma_filter_hyphen(m);
    Seq::<char>::filter_distributes_over_add(y.push('-') + m.push('-'), d, keep);
    Seq::<char>::filter_distributes_over_add(y.push('-'), m.push('-'), keep);
    assert(a@.filter(keep) =~= y + m + d);
}

proof fn lemma_no_hyphens(s: Seq<char>)
    requires
        !s.contains('-'),
    ensures
        s.filter(|c: char| c != '-') == s,
    decreases s.len(),
{
    reveal(Seq::filter);
    if s.len() > 0 {
        let init = s.drop_last();
        assert(s.contains(s.last()));
        assert forall|i: int| 0 <= i < init.len() implies init[i] != '-' by {
            assert(s.contains(s[i]));
        }
        lemma_no_hyphens(init);
        assert(init.push(s.last()) =~= s);
    }
}

proof fn lemma_filter_hyphen(s: Seq<char>)
    requires
        !s.contains('-'),
    ensures
        s.push('-').filter(|c: char| c != '-') == s,
{
    reveal(Seq::filter);
    assert(s.push('-').drop_last() =~= s);
    lemma_no_hyphens(s);
}

} // verus!
