//! What a simulated portfolio is measured by: its benchmark, and the holdings
//! that stand for a role or an industry.

use vstd::prelude::*;

use crate::calendar::Date;
use crate::data::prices;
use crate::data::prices::PriceSeries;
use crate::data::source::PriceBar;
use crate::number::Number;
use crate::order;
use crate::roles;
use crate::roles::{IndustryRoster, Role, RoleAssignment};
use crate::text;

verus! {

// ── Benchmark ────────────────────────────────────────────────────────────────

/// The first bar after a day.
pub open spec fn bar_after(s: Seq<PriceBar>, day: int) -> Option<PriceBar> {
    let i = prices::through(s, day);
    if 0 <= i < s.len() {
        Some(s[i])
    } else {
        None
    }
}

/// The close that a benchmark starts from: that of the last bar up to the start, else that of the
/// first bar after it; nothing where it is not above zero.
pub open spec fn starting_level(s: Seq<PriceBar>, start: int) -> Option<Number> {
    let bar = match prices::bar_through(s, start) {
        Some(b) => Some(b),
        None => bar_after(s, start),
    };
    match bar {
        Some(b) => if (Number { bits: 0 }).lt(b.adj_close) {
            Some(b.adj_close)
        } else {
            None
        },
        None => None,
    }
}

/// The close that a benchmark starts from.
pub fn benchmark_start(benchmark: &PriceSeries, start: Date) -> (r: Option<Number>)
    ensures
        r == starting_level(benchmark@, start.days as int),
{
    let level: Number = match benchmark.on_or_before(start) {
        Some(b) => b.adj_close,
        None => {
            let i: usize = benchmark.next_index(start);
            if i < benchmark.len() {
                benchmark.bars()[i].adj_close
            } else {
                return None;
            }
        },
    };
    if Number::zero().is_lt(level) {
        Some(level)
    } else {
        None
    }
}

/// The level of a benchmark on a day: the last close up to it, else the level it started from.
pub fn benchmark_level(benchmark: &PriceSeries, date: Date, start_level: Number) -> (r: Number)
    ensures
        r == (match prices::bar_through(benchmark@, date.days as int) {
            Some(b) => b.adj_close,
            None => start_level,
        }),
{
    match benchmark.on_or_before(date) {
        Some(b) => b.adj_close,
        None => start_level,
    }
}

/// Whether a rebalance has to be scaled down to pay for itself: it costs something, and less than
/// the portfolio is worth.
pub fn pays_turnover(cost: Number, value: Number) -> (r: bool)
    ensures
        r == ((Number { bits: 0 }).lt(cost) && cost.lt(value)),
{
    Number::zero().is_lt(cost) && cost.is_lt(value)
}

/// Every ticker that a rebalance touches, held before it or after it, once each and by name.
pub fn touched_tickers(before: &Vec<String>, after: &Vec<String>) -> (r: Vec<String>)
    ensures
        order::strictly_sorted(text::texts(r@)),
        forall|x: Seq<char>| #[trigger]
            text::texts(r@).contains(x) <==> text::texts(before@).contains(x) || text::texts(
                after@,
            ).contains(x),
{
    let mut out: Vec<String> = order::sorted_distinct(before);
    let ghost mid = text::texts(out@);
    order::insert_all(&mut out, after);
    proof {
        assert forall|x: Seq<char>| #[trigger] text::texts(out@).contains(x) <==> text::texts(
            before@,
        ).contains(x) || text::texts(after@).contains(x) by {
            assert(mid.contains(x) <==> text::texts(before@).contains(x));
        }
    }
    out
}

// ── Holdings by role and by industry ─────────────────────────────────────────

/// What the shares of a ticker were worth on a day.
#[derive(Debug)]
pub struct HeldValue {
    pub ticker: String,
    pub value: Number,
}

/// The value of a ticker, the first one where it is listed more than once.
pub open spec fn value_of(s: Seq<HeldValue>, ticker: Seq<char>) -> Option<Number>
    decreases s.len(),
{
    if s.len() == 0 {
        None
    } else if s[0].ticker@ == ticker {
        Some(s[0].value)
    } else {
        value_of(s.drop_first(), ticker)
    }
}

proof fn lemma_value_of(s: Seq<HeldValue>, ticker: Seq<char>, k: int)
    requires
        0 <= k <= s.len(),
        forall|j: int| 0 <= j < k ==> (#[trigger] s[j]).ticker@ != ticker,
    ensures
        k < s.len() && s[k].ticker@ == ticker ==> value_of(s, ticker) == Some(s[k].value),
        k == s.len() ==> value_of(s, ticker) is None,
    decreases s.len(),
{
    if s.len() > 0 && k > 0 {
        let rest = s.drop_first();
        assert(s[0].ticker@ != ticker);
        assert forall|j: int| 0 <= j < k - 1 implies (#[trigger] rest[j]).ticker@ != ticker by {
            assert(rest[j] == s[j + 1]);
        }
        lemma_value_of(rest, ticker, k - 1);
    }
}

/// The value of a ticker.
pub fn find_held(holdings: &Vec<HeldValue>, ticker: &str) -> (r: Option<Number>)
    ensures
        r == value_of(holdings@, ticker@),
{
    let mut k: usize = 0;
    while k < holdings.len()
        invariant
            k <= holdings@.len(),
            forall|j: int| 0 <= j < k ==> (#[trigger] holdings@[j]).ticker@ != ticker@,
        decreases holdings@.len() - k,
    {
        if text::same_text(holdings[k].ticker.as_str(), ticker) {
            proof {
                lemma_value_of(holdings@, ticker@, k as int);
            }
            return Some(holdings[k].value);
        }
        k = k + 1;
    }
    proof {
        lemma_value_of(holdings@, ticker@, holdings@.len() as int);
    }
    None
}

/// The values of those of the first `n` tickers that are held.
pub open spec fn values_of(s: Seq<HeldValue>, tickers: Seq<Seq<char>>, n: int) -> Seq<Number>
    decreases n,
{
    if n <= 0 {
        seq![]
    } else {
        match value_of(s, tickers[n - 1]) {
            Some(v) => values_of(s, tickers, n - 1).push(v),
            None => values_of(s, tickers, n - 1),
        }
    }
}

/// The values of the tickers that are held.
pub fn held_values(holdings: &Vec<HeldValue>, tickers: &Vec<String>) -> (r: Vec<Number>)
    ensures
        r@ == values_of(holdings@, text::texts(tickers@), tickers@.len() as int),
{
    let mut out: Vec<Number> = Vec::new();
    let ghost all = text::texts(tickers@);
    let mut n: usize = 0;
    while n < tickers.len()
        invariant
            n <= tickers@.len(),
            all == text::texts(tickers@),
            out@ == values_of(holdings@, all, n as int),
        decreases tickers@.len() - n,
    {
        proof {
            assert(all[n as int] == tickers@[n as int]@);
        }
        if let Some(v) = find_held(holdings, tickers[n].as_str()) {
            out.push(v);
        }
        n = n + 1;
    }
    out
}

/// The holder of a role, the first one where a roster names several.
pub open spec fn holder(s: Seq<RoleAssignment>, role: Role) -> Option<Seq<char>>
    decreases s.len(),
{
    if s.len() == 0 {
        None
    } else if s[0].role == role {
        Some(s[0].ticker@)
    } else {
        holder(s.drop_first(), role)
    }
}

proof fn lemma_holder(s: Seq<RoleAssignment>, role: Role, a: RoleAssignment)
    requires
        roles::roles_distinct(s),
        s.contains(a),
        a.role == role,
    ensures
        holder(s, role) == Some(a.ticker@),
    decreases s.len(),
{
    let k = choose|k: int| 0 <= k < s.len() && s[k] == a;
    if k > 0 {
        assert(s[0].role != s[k].role);
        let rest = s.drop_first();
        assert(rest[k - 1] == a);
        assert forall|i: int, j: int| 0 <= i < j < rest.len() implies (#[trigger] rest[i]).role
            != (#[trigger] rest[j]).role by {
            assert(s[i + 1].role != s[j + 1].role);
        }
        lemma_holder(rest, role, a);
    }
}

proof fn lemma_no_holder(s: Seq<RoleAssignment>, role: Role)
    requires
        !roles::is_held(s, role),
    ensures
        holder(s, role) is None,
    decreases s.len(),
{
    if s.len() > 0 {
        assert(!roles::holds_role(s, 0, role));
        let rest = s.drop_first();
        assert forall|i: int| !roles::holds_role(rest, i, role) by {
            assert(!roles::holds_role(s, i + 1, role));
            if 0 <= i < rest.len() {
                assert(rest[i] == s[i + 1]);
            }
        }
        lemma_no_holder(rest, role);
    }
}

/// The tickers that hold a role in the first `n` industries.
pub open spec fn holders(s: Seq<IndustryRoster>, role: Role, n: int) -> Seq<Seq<char>>
    decreases n,
{
    if n <= 0 {
        seq![]
    } else {
        match holder(s[n - 1].assignments@, role) {
            Some(t) => holders(s, role, n - 1).push(t),
            None => holders(s, role, n - 1),
        }
    }
}

/// The tickers that hold a role.
pub fn tickers_in_role(rosters: &Vec<IndustryRoster>, role: Role) -> (r: Vec<String>)
    requires
        forall|i: int| 0 <= i < rosters@.len() ==> (#[trigger] rosters@[i]).well_formed(),
    ensures
        text::texts(r@) == holders(rosters@, role, rosters@.len() as int),
{
    let mut out: Vec<String> = Vec::new();
    let mut n: usize = 0;
    proof {
        assert(text::texts(out@) =~= seq![]);
    }
    while n < rosters.len()
        invariant
            n <= rosters@.len(),
            forall|i: int| 0 <= i < rosters@.len() ==> (#[trigger] rosters@[i]).well_formed(),
            text::texts(out@) == holders(rosters@, role, n as int),
        decreases rosters@.len() - n,
    {
        let ghost before = out@;
        match rosters[n].get(role) {
            Some(a) => {
                proof {
                    assert(rosters@[n as int].well_formed());
                    lemma_holder(rosters@[n as int].assignments@, role, *a);
                }
                out.push(a.ticker.clone());
                proof {
                    assert(text::texts(out@) =~= text::texts(before).push(a.ticker@));
                }
            },
            None => {
                proof {
                    lemma_no_holder(rosters@[n as int].assignments@, role);
                }
            },
        }
        n = n + 1;
    }
    out
}

/// The values that a return is computed from, at the start and at the end.
#[derive(Debug)]
pub struct ValueSpan {
    pub start: Vec<Number>,
    pub end: Vec<Number>,
}

/// What the return of a role is computed from: the holdings of the tickers that hold it in the
/// end, on the first day and on the last. Nothing where nobody holds it or there are not two days.
pub fn compute_role_return(
    role: Role,
    rosters: &Vec<IndustryRoster>,
    first: &Vec<HeldValue>,
    last: &Vec<HeldValue>,
    snapshots: usize,
) -> (r: Option<ValueSpan>)
    requires
        forall|i: int| 0 <= i < rosters@.len() ==> (#[trigger] rosters@[i]).well_formed(),
    ensures
        ({
            let t = holders(rosters@, role, rosters@.len() as int);
            match r {
                Some(v) => t.len() > 0 && snapshots >= 2 && v.start@ == values_of(
                    first@,
                    t,
                    t.len() as int,
                ) && v.end@ == values_of(last@, t, t.len() as int),
                None => t.len() == 0 || snapshots < 2,
            }
        }),
{
    let tickers: Vec<String> = tickers_in_role(rosters, role);
    proof {
        assert(text::texts(tickers@).len() == tickers@.len());
    }
    if tickers.len() == 0 || snapshots < 2 {
        None
    } else {
        Some(ValueSpan { start: held_values(first, &tickers), end: held_values(last, &tickers) })
    }
}

/// The tickers of an industry's roster.
pub open spec fn members(roster: IndustryRoster) -> Seq<Seq<char>> {
    roster.assignments@.map_values(|a: RoleAssignment| a.ticker@)
}

/// What the returns of the industries are computed from, in the order of the rosters; nothing
/// where there are not two days.
pub fn compute_industry_performance(
    rosters: &Vec<IndustryRoster>,
    first: &Vec<HeldValue>,
    last: &Vec<HeldValue>,
    snapshots: usize,
) -> (r: Vec<ValueSpan>)
    ensures
        snapshots < 2 ==> r@.len() == 0,
        snapshots >= 2 ==> r@.len() == rosters@.len() && forall|i: int|
            0 <= i < r@.len() ==> (#[trigger] r@[i]).start@ == values_of(
                first@,
                members(rosters@[i]),
                members(rosters@[i]).len() as int,
            ) && r@[i].end@ == values_of(
                last@,
                members(rosters@[i]),
                members(rosters@[i]).len() as int,
            ),
{
    let mut out: Vec<ValueSpan> = Vec::new();
    if snapshots < 2 {
        return out;
    }
    let mut n: usize = 0;
    while n < rosters.len()
        invariant
            n <= rosters@.len(),
            out@.len() == n,
            forall|i: int|
                0 <= i < n ==> (#[trigger] out@[i]).start@ == values_of(
                    first@,
                    members(rosters@[i]),
                    members(rosters@[i]).len() as int,
                ) && out@[i].end@ == values_of(
                    last@,
                    members(rosters@[i]),
                    members(rosters@[i]).len() as int,
                ),
        decreases rosters@.len() - n,
    {
        let tickers: Vec<String> = rosters[n].active_tickers();
        proof {
            assert(text::texts(tickers@) == members(rosters@[n as int]));
        }
        out.push(
            ValueSpan { start: held_values(first, &tickers), end: held_values(last, &tickers) },
        );
        n = n + 1;
    }
    out
}

/// The weights of the tickers that hold a role now, as far as they are in the portfolio.
pub fn weights_by_role(rosters: &Vec<IndustryRoster>, weights: &Vec<HeldValue>, role: Role) -> (r:
    Vec<Number>)
    requires
        forall|i: int| 0 <= i < rosters@.len() ==> (#[trigger] rosters@[i]).well_formed(),
    ensures
        ({
            let t = holders(rosters@, role, rosters@.len() as int);
            r@ == values_of(weights@, t, t.len() as int)
        }),
{
    let tickers: Vec<String> = tickers_in_role(rosters, role);
    proof {
        assert(text::texts(tickers@).len() == tickers@.len());
    }
    held_values(weights, &tickers)
}

// ── What is compared ─────────────────────────────────────────────────────────

/// A benchmark starts from the adjusted close of its last bar up to the start or, where it has
/// none, of its first bar; its level on a day is the adjusted close of the last bar up to it.
/// Unadjusted prices have no part in either.
pub proof fn benchmarks_are_on_the_adjusted_scale(
    benchmark: PriceSeries,
    date: Date,
    start_level: Number,
    start: Option<Number>,
    level: Number,
    k: int,
)
    requires
        call_ensures(benchmark_start, (&benchmark, date), start),
        call_ensures(benchmark_level, (&benchmark, date, start_level), level),
        prices::dates_increase(benchmark@),
        forall|i: int| 0 <= i < benchmark@.len() ==> prices::usable(#[trigger] benchmark@[i]),
        -1 <= k < benchmark@.len(),
        k >= 0 ==> benchmark@[k].date.days <= date.days,
        k + 1 < benchmark@.len() ==> benchmark@[k + 1].date.days > date.days,
    ensures
        k >= 0 ==> start == Some(benchmark@[k].adj_close) && level == benchmark@[k].adj_close,
        k < 0 && benchmark@.len() > 0 ==> start == Some(benchmark@[0].adj_close) && level
            == start_level,
        benchmark@.len() == 0 ==> start is None,
{
    prices::lemma_split(benchmark@, date.days as int, k + 1);
    if k >= 0 {
        assert(prices::usable(benchmark@[k]));
    } else if benchmark@.len() > 0 {
        assert(prices::usable(benchmark@[0]));
    }
}

/// Series that differ in unadjusted prices alone give one benchmark.
pub proof fn benchmarks_ignore_unadjusted_prices(
    a: PriceSeries,
    b: PriceSeries,
    date: Date,
    from: Number,
    sa: Option<Number>,
    sb: Option<Number>,
    la: Number,
    lb: Number,
)
    requires
        call_ensures(benchmark_start, (&a, date), sa),
        call_ensures(benchmark_start, (&b, date), sb),
        call_ensures(benchmark_level, (&a, date, from), la),
        call_ensures(benchmark_level, (&b, date, from), lb),
        prices::adjusted_alike(a@, b@),
    ensures
        sa == sb,
        la == lb,
{
    prices::lemma_through_alike(a@, b@, date.days as int);
    let k = prices::through(a@, date.days as int);
    if k > 0 {
        assert(a@[k - 1].adj_close == b@[k - 1].adj_close);
    } else if a@.len() > 0 {
        assert(a@[0].adj_close == b@[0].adj_close);
    }
}

/// A rebalance is scaled down where it costs something and less than the portfolio is worth.
pub proof fn turnover_is_paid_from_the_portfolio(cost: Number, value: Number, r: bool)
    requires
        call_ensures(pays_turnover, (cost, value), r),
        cost.bits <= 0x7FF0_0000_0000_0000,
        value.bits <= 0x7FF0_0000_0000_0000,
    ensures
        r <==> 0 < cost.bits < value.bits,
{
}

/// What a ticker is worth is the value listed first for it.
pub proof fn the_first_value_listed_counts(
    holdings: Vec<HeldValue>,
    ticker: &str,
    r: Option<Number>,
    k: int,
)
    requires
        call_ensures(find_held, (&holdings, ticker), r),
        0 <= k <= holdings@.len(),
        forall|j: int| 0 <= j < k ==> (#[trigger] holdings@[j]).ticker@ != ticker@,
        k < holdings@.len() ==> holdings@[k].ticker@ == ticker@,
    ensures
        k < holdings@.len() ==> r == Some(holdings@[k].value),
        k == holdings@.len() ==> r is None,
{
    lemma_value_of(holdings@, ticker@, k);
}

/// The return of a role goes from what its holders were worth on the first day to what they were
/// worth on the last; the weights of a role are those of the same holders.
pub proof fn role_returns_go_from_the_first_day_to_the_last(
    role: Role,
    rosters: Vec<IndustryRoster>,
    first: Vec<HeldValue>,
    last: Vec<HeldValue>,
    snapshots: usize,
    r: Option<ValueSpan>,
    tickers: Vec<String>,
    start: Vec<Number>,
    end: Vec<Number>,
    weights: Vec<Number>,
)
    requires
        call_ensures(compute_role_return, (role, &rosters, &first, &last, snapshots), r),
        call_ensures(tickers_in_role, (&rosters, role), tickers),
        call_ensures(held_values, (&first, &tickers), start),
        call_ensures(held_values, (&last, &tickers), end),
        call_ensures(weights_by_role, (&rosters, &last, role), weights),
    ensures
        r is Some <==> tickers@.len() > 0 && snapshots >= 2,
        r matches Some(v) ==> v.start@ == start@ && v.end@ == end@,
        weights@ == end@,
{
    assert(text::texts(tickers@).len() == tickers@.len());
}

/// Who holds a role is named by its own assignments: every ticker listed holds the role in some
/// industry, and every holder is listed.
pub proof fn holders_hold_the_role(
    rosters: Vec<IndustryRoster>,
    role: Role,
    r: Vec<String>,
    p: int,
    i: int,
)
    requires
        call_ensures(tickers_in_role, (&rosters, role), r),
        forall|q: int| 0 <= q < rosters@.len() ==> (#[trigger] rosters@[q]).well_formed(),
    ensures
        0 <= p < rosters@.len() && 0 <= i < rosters@[p].assignments@.len()
            && rosters@[p].assignments@[i].role == role ==> text::texts(r@).contains(
            rosters@[p].assignments@[i].ticker@,
        ),
        forall|k: int|
            0 <= k < r@.len() ==> is_assigned(
                rosters@,
                role,
                rosters@.len() as int,
                (#[trigger] r@[k])@,
            ),
{
    let n = rosters@.len() as int;
    lemma_holders(rosters@, role, n);
    let t = text::texts(r@);
    if 0 <= p < n && 0 <= i < rosters@[p].assignments@.len() && rosters@[p].assignments@[i].role
        == role {
        let a = rosters@[p].assignments@[i];
        assert(rosters@[p].well_formed());
        lemma_holder(rosters@[p].assignments@, role, a);
        lemma_holder_is_listed(rosters@, role, p, n);
    }
    assert forall|k: int| 0 <= k < r@.len() implies is_assigned(
        rosters@,
        role,
        n,
        (#[trigger] r@[k])@,
    ) by {
        assert(t[k] == r@[k]@);
    }
}

/// Whether a ticker holds a role in one of the first `n` industries.
pub open spec fn is_assigned(s: Seq<IndustryRoster>, role: Role, n: int, t: Seq<char>) -> bool {
    exists|q: int, j: int|
        0 <= q < n && 0 <= j < s[q].assignments@.len() && (#[trigger] s[q].assignments@[j]).role
            == role && s[q].assignments@[j].ticker@ == t
}

proof fn lemma_holder_is_listed(s: Seq<IndustryRoster>, role: Role, p: int, n: int)
    requires
        0 <= p < n <= s.len(),
        holder(s[p].assignments@, role) is Some,
    ensures
        holders(s, role, n).contains(holder(s[p].assignments@, role)->0),
    decreases n,
{
    let all = holders(s, role, n);
    let rest = holders(s, role, n - 1);
    let x = holder(s[p].assignments@, role)->0;
    if p == n - 1 {
        assert(all[rest.len() as int] == x);
    } else {
        lemma_holder_is_listed(s, role, p, n - 1);
        let k = choose|k: int| 0 <= k < rest.len() && rest[k] == x;
        assert(all[k] == x);
    }
}

proof fn lemma_holder_is_assigned(s: Seq<RoleAssignment>, role: Role)
    ensures
        holder(s, role) matches Some(t) ==> exists|j: int|
            0 <= j < s.len() && (#[trigger] s[j]).role == role && s[j].ticker@ == t,
    decreases s.len(),
{
    if s.len() > 0 {
        if s[0].role == role {
        } else {
            let rest = s.drop_first();
            lemma_holder_is_assigned(rest, role);
            if let Some(t) = holder(s, role) {
                let j = choose|j: int|
                    0 <= j < rest.len() && (#[trigger] rest[j]).role == role && rest[j].ticker@ == t;
                assert(s[j + 1] == rest[j]);
            }
        }
    }
}

proof fn lemma_holders(s: Seq<IndustryRoster>, role: Role, n: int)
    requires
        0 <= n <= s.len(),
    ensures
        forall|k: int|
            0 <= k < holders(s, role, n).len() ==> is_assigned(
                s,
                role,
                n,
                #[trigger] holders(s, role, n)[k],
            ),
    decreases n,
{
    if n > 0 {
        lemma_holders(s, role, n - 1);
        lemma_holder_is_assigned(s[n - 1].assignments@, role);
        let all = holders(s, role, n);
        let rest = holders(s, role, n - 1);
        assert forall|k: int| 0 <= k < all.len() implies is_assigned(
            s,
            role,
            n,
            #[trigger] all[k],
        ) by {
            if k < rest.len() {
                assert(all[k] == rest[k]);
                assert(is_assigned(s, role, n - 1, rest[k]));
                let (q, j) = choose|q: int, j: int|
                    0 <= q < n - 1 && 0 <= j < s[q].assignments@.len() && (
                    #[trigger] s[q].assignments@[j]).role == role && s[q].assignments@[j].ticker@
                        == rest[k];
                assert(s[q].assignments@[j].role == role);
            } else {
                let j = choose|j: int|
                    0 <= j < s[n - 1].assignments@.len() && (
                    #[trigger] s[n - 1].assignments@[j]).role == role
                        && s[n - 1].assignments@[j].ticker@ == all[k];
                assert(s[n - 1].assignments@[j].role == role);
            }
        }
    }
}

/// The return of an industry goes from what its own members were worth on the first day to what
/// they were worth on the last.
pub proof fn industry_returns_go_from_the_first_day_to_the_last(
    rosters: Vec<IndustryRoster>,
    first: Vec<HeldValue>,
    last: Vec<HeldValue>,
    snapshots: usize,
    r: Vec<ValueSpan>,
    i: int,
    tickers: Vec<String>,
    start: Vec<Number>,
    end: Vec<Number>,
)
    requires
        call_ensures(compute_industry_performance, (&rosters, &first, &last, snapshots), r),
        0 <= i < rosters@.len(),
        call_ensures(IndustryRoster::active_tickers, (&rosters@[i],), tickers),
        call_ensures(held_values, (&first, &tickers), start),
        call_ensures(held_values, (&last, &tickers), end),
        snapshots >= 2,
    ensures
        r@.len() == rosters@.len(),
        r@[i].start@ == start@,
        r@[i].end@ == end@,
{
    assert(text::texts(tickers@).len() == tickers@.len());
    assert(text::texts(tickers@) =~= members(rosters@[i]));
}

/// The values of tickers are those found for them one by one, in their order.
pub proof fn values_are_found_ticker_by_ticker(
    holdings: Vec<HeldValue>,
    one: Vec<String>,
    r: Vec<Number>,
    found: Option<Number>,
    ticker: &str,
)
    requires
        call_ensures(held_values, (&holdings, &one), r),
        one@.len() == 1,
        one@[0]@ == ticker@,
        call_ensures(find_held, (&holdings, ticker), found),
    ensures
        found matches Some(v) ==> r@ == seq![v],
        found is None ==> r@.len() == 0,
{
    reveal_with_fuel(values_of, 2);
    assert(text::texts(one@)[0] == ticker@);
    if let Some(v) = found {
        assert(r@ =~= seq![v]);
    }
}

/// A ticker is touched where it was held before or is held after.
pub proof fn tickers_are_touched_before_or_after(
    before: Vec<String>,
    after: Vec<String>,
    r: Vec<String>,
    i: int,
)
    requires
        call_ensures(touched_tickers, (&before, &after), r),
    ensures
        0 <= i < before@.len() ==> text::texts(r@).contains(before@[i]@),
        0 <= i < after@.len() ==> text::texts(r@).contains(after@[i]@),
        0 <= i < r@.len() ==> text::texts(before@).contains(r@[i]@) || text::texts(
            after@,
        ).contains(r@[i]@),
{
    let args = (&before, &after);
    if 0 <= i < before@.len() {
        assert(text::texts(before@)[i] == before@[i]@);
        assert(text::texts(args.0@).contains(before@[i]@));
        assert(text::texts(r@).contains(before@[i]@));
    }
    if 0 <= i < after@.len() {
        assert(text::texts(after@)[i] == after@[i]@);
        assert(text::texts(args.1@).contains(after@[i]@));
        assert(text::texts(r@).contains(after@[i]@));
    }
    if 0 <= i < r@.len() {
        assert(text::texts(r@)[i] == r@[i]@);
        assert(text::texts(r@).contains(r@[i]@));
    }
}

} // verus!
