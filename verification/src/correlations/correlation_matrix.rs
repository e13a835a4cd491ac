//! Correlations of the daily returns of industries.
//!
//! Returns and correlation coefficients are computed in floating point by the
//! caller. Which prices and which days they are computed from, when a pair of
//! industries has too little in common, and what is looked up afterwards is
//! decided here.

use vstd::prelude::*;

use crate::calendar::Date;
use crate::data::prices;
use crate::data::source::PriceBar;
use crate::data::types::IndustryCorrelation;
use crate::metrics::ic;
use crate::metrics::ic::Sample;
use crate::number::Number;
use crate::order;
use crate::text;

verus! {

/// Days of returns that correlations look back on.
pub const WINDOW_DAYS: u32 = 90;

/// Days loaded beyond the window, for weekends and holidays.
pub const SLACK_DAYS: i32 = 15;

/// Fewest shared days for a correlation.
pub const MIN_OVERLAP: usize = 60;

/// A billionth, as an encoded number.
pub const BILLIONTH: u64 = 0x3E11_2E0B_E826_D695;

/// One, as an encoded number.
pub const ONE: u64 = 0x3FF0_0000_0000_0000;

/// A value that is not a number.
pub const NOT_A_NUMBER: u64 = 0x7FF8_0000_0000_0000;

/// The correlation of two industries, the first of them coming first by name.
#[derive(Debug)]
pub struct CorrelationPair {
    pub a: String,
    pub b: String,
    pub r: Number,
}

/// The return of a day.
#[derive(Clone, Copy, Debug, PartialEq, Eq, Structural)]
pub struct DayReturn {
    pub date: Date,
    pub value: Number,
}

/// The daily returns of an industry.
#[derive(Debug)]
pub struct IndustryReturns {
    pub industry: String,
    pub days: Vec<DayReturn>,
}

/// The correlations of a set of industries and the returns they come from.
#[derive(Debug)]
pub struct CorrelationData {
    pub pairs: Vec<CorrelationPair>,
    pub returns_of: Vec<IndustryReturns>,
    pub as_of: Date,
}

/// The first day to load prices from.
pub fn window_start(as_of: Date) -> (r: Date)
    requires
        as_of.days >= i32::MIN + 105,
    ensures
        r.days == as_of.days - 105,
{
    Date { days: as_of.days - (WINDOW_DAYS as i32) - SLACK_DAYS }
}

// ── Looking up correlations ──────────────────────────────────────────────────

/// The correlation stored under a pair of names.
pub open spec fn stored(s: Seq<CorrelationPair>, a: Seq<char>, b: Seq<char>) -> Option<Number>
    decreases s.len(),
{
    if s.len() == 0 {
        None
    } else if s.last().a@ == a && s.last().b@ == b {
        Some(s.last().r)
    } else {
        stored(s.drop_last(), a, b)
    }
}

/// The correlation of two industries, whichever is named first.
pub open spec fn correlation(s: Seq<CorrelationPair>, a: Seq<char>, b: Seq<char>) -> Option<
    Number,
> {
    if order::text_le(a, b) {
        stored(s, a, b)
    } else {
        stored(s, b, a)
    }
}

/// The correlation of two industries does not depend on which is named first.
pub proof fn correlation_is_symmetric(s: Seq<CorrelationPair>, a: Seq<char>, b: Seq<char>)
    ensures
        correlation(s, a, b) == correlation(s, b, a),
{
    order::lemma_text_le_total(a, b);
    if order::text_le(a, b) && order::text_le(b, a) {
        order::lemma_text_le_antisymmetric(a, b);
    }
}

/// The other side of a pair that an industry belongs to.
pub open spec fn partner(p: CorrelationPair, industry: Seq<char>) -> Option<Seq<char>> {
    if p.a@ == industry {
        Some(p.b@)
    } else if p.b@ == industry {
        Some(p.a@)
    } else {
        None
    }
}

/// The partners of an industry among the first `n` pairs, with their correlations, leaving out
/// those below `min_r`.
pub open spec fn partners(
    s: Seq<CorrelationPair>,
    industry: Seq<char>,
    min_r: Number,
    n: int,
) -> Seq<(Seq<char>, Number)>
    decreases n,
{
    if n <= 0 {
        seq![]
    } else {
        let before = partners(s, industry, min_r, n - 1);
        match partner(s[n - 1], industry) {
            Some(name) => if s[n - 1].r.lt(min_r) {
                before
            } else {
                before.push((name, s[n - 1].r))
            },
            None => before,
        }
    }
}

/// An industry correlated with another.
#[derive(Debug)]
pub struct Peer {
    pub industry: String,
    pub r: Number,
}

/// What peers say.
pub open spec fn peers(s: Seq<Peer>) -> Seq<(Seq<char>, Number)> {
    s.map_values(|p: Peer| (p.industry@, p.r))
}

/// The correlations of peers.
pub open spec fn strengths(s: Seq<(Seq<char>, Number)>) -> Seq<Number> {
    s.map_values(|p: (Seq<char>, Number)| p.1)
}

/// `r` holds the first `top_n` of `all` by decreasing correlation.
pub open spec fn are_strongest(
    all: Seq<(Seq<char>, Number)>,
    top_n: int,
    r: Seq<(Seq<char>, Number)>,
) -> bool {
    exists|p: Seq<usize>| #[trigger]
        order::is_descending(strengths(all), p) && r == Seq::new(
            if p.len() <= top_n {
                p.len()
            } else {
                top_n as nat
            },
            |k: int| all[p[k] as int],
        )
}

/// Absolute correlations.
pub open spec fn sizes(s: Seq<CorrelationPair>) -> Seq<Number> {
    s.map_values(|p: CorrelationPair| Number { bits: p.r.magnitude() as u64 })
}

impl CorrelationData {
    /// The correlation of two industries, whichever is named first.
    pub fn get_correlation(&self, a: &str, b: &str) -> (r: Option<Number>)
        ensures
            r == correlation(self.pairs@, a@, b@),
    {
        let (lo, hi): (&str, &str) = if order::is_text_le(a, b) {
            (a, b)
        } else {
            (b, a)
        };
        let mut n: usize = self.pairs.len();
        proof {
            assert(self.pairs@.take(self.pairs@.len() as int) =~= self.pairs@);
        }
        while n > 0
            invariant
                n <= self.pairs@.len(),
                correlation(self.pairs@, a@, b@) == stored(self.pairs@, lo@, hi@),
                stored(self.pairs@, lo@, hi@) == stored(self.pairs@.take(n as int), lo@, hi@),
            decreases n,
        {
            proof {
                assert(self.pairs@.take(n as int).last() == self.pairs@[n - 1]);
                assert(self.pairs@.take(n as int).drop_last() =~= self.pairs@.take(n - 1));
            }
            if text::same_text(self.pairs[n - 1].a.as_str(), lo) && text::same_text(
                self.pairs[n - 1].b.as_str(),
                hi,
            ) {
                return Some(self.pairs[n - 1].r);
            }
            n = n - 1;
        }
        None
    }

    /// Up to `top_n` industries most correlated with one, strongest first, leaving out
    /// correlations below `min_r`.
    pub fn top_correlated(&self, industry: &str, min_r: Number, top_n: usize) -> (r: Vec<Peer>)
        ensures
            are_strongest(
                partners(self.pairs@, industry@, min_r, self.pairs@.len() as int),
                top_n as int,
                peers(r@),
            ),
    {
        let mut found: Vec<Peer> = Vec::new();
        let mut rs: Vec<Number> = Vec::new();
        let mut n: usize = 0;
        proof {
            assert(peers(found@) =~= seq![]);
        }
        while n < self.pairs.len()
            invariant
                n <= self.pairs@.len(),
                peers(found@) == partners(self.pairs@, industry@, min_r, n as int),
                rs@.len() == found@.len(),
                forall|k: int| 0 <= k < rs@.len() ==> (#[trigger] rs@[k]) == found@[k].r,
            decreases self.pairs@.len() - n,
        {
            let ghost before = found@;
            let p: &CorrelationPair = &self.pairs[n];
            if !p.r.is_lt(min_r) {
                let is_a: bool = text::same_text(p.a.as_str(), industry);
                let is_b: bool = text::same_text(p.b.as_str(), industry);
                if is_a || is_b {
                    let other: String = if is_a {
                        p.b.clone()
                    } else {
                        p.a.clone()
                    };
                    let ghost name = other@;
                    found.push(Peer { industry: other, r: p.r });
                    rs.push(p.r);
                    proof {
                        assert(peers(found@) =~= peers(before).push((name, p.r)));
                    }
                }
            }
            n = n + 1;
        }
        let ghost all = peers(found@);
        proof {
            assert(rs@ =~= strengths(all));
        }
        let order: Vec<usize> = order::descending_order(&rs);
        let end: usize = if order.len() <= top_n {
            order.len()
        } else {
            top_n
        };
        let mut out: Vec<Peer> = Vec::new();
        let mut k: usize = 0;
        while k < end
            invariant
                k <= end <= order@.len(),
                all == peers(found@),
                order::is_descending(strengths(all), order@),
                out@.len() == k,
                forall|j: int|
                    0 <= j < k ==> (#[trigger] peers(out@)[j]) == all[order@[j] as int],
            decreases end - k,
        {
            proof {
                assert(order@[k as int] < strengths(all).len());
            }
            let i: usize = order[k];
            let ghost before = out@;
            out.push(Peer { industry: found[i].industry.clone(), r: found[i].r });
            proof {
                assert forall|j: int| 0 <= j < k + 1 implies (#[trigger] peers(out@)[j])
                    == all[order@[j] as int] by {
                    if j < k {
                        assert(peers(before)[j] == all[order@[j] as int]);
                    }
                }
            }
            k = k + 1;
        }
        proof {
            assert(peers(out@) =~= Seq::new(end as nat, |k: int| all[order@[k] as int]));
        }
        out
    }

    /// The pairs by decreasing absolute correlation.
    pub fn sorted_pairs(&self) -> (r: Vec<usize>)
        ensures
            order::is_descending(sizes(self.pairs@), r@),
    {
        let mut v: Vec<Number> = Vec::new();
        let mut i: usize = 0;
        while i < self.pairs.len()
            invariant
                i <= self.pairs@.len(),
                v@.len() == i,
                forall|k: int|
                    0 <= k < i ==> (#[trigger] v@[k]) == (Number {
                        bits: self.pairs@[k].r.magnitude() as u64,
                    }),
            decreases self.pairs@.len() - i,
        {
            v.push(self.pairs[i].r.abs());
            i = i + 1;
        }
        proof {
            assert(v@ =~= sizes(self.pairs@));
        }
        order::descending_order(&v)
    }

    /// The daily returns of an industry.
    pub fn returns_of_industry(&self, industry: &str) -> (r: Option<&IndustryReturns>)
        ensures
            match r {
                Some(x) => exists|k: int|
                    0 <= k < self.returns_of@.len() && *x == #[trigger] self.returns_of@[k]
                        && x.industry@ == industry@ && forall|j: int|
                        0 <= j < k ==> (#[trigger] self.returns_of@[j]).industry@ != industry@,
                None => forall|j: int|
                    0 <= j < self.returns_of@.len() ==> (#[trigger] self.returns_of@[j]).industry@
                        != industry@,
            },
    {
        let mut k: usize = 0;
        while k < self.returns_of.len()
            invariant
                k <= self.returns_of@.len(),
                forall|j: int|
                    0 <= j < k ==> (#[trigger] self.returns_of@[j]).industry@ != industry@,
            decreases self.returns_of@.len() - k,
        {
            if text::same_text(self.returns_of[k].industry.as_str(), industry) {
                let x: &IndustryReturns = &self.returns_of[k];
                assert(*x == self.returns_of@[k as int]);
                return Some(x);
            }
            k = k + 1;
        }
        None
    }
}

// ── Returns of industries ────────────────────────────────────────────────────

/// Two neighbouring closes that a return is computed from.
#[derive(Clone, Copy, Debug, PartialEq, Eq, Structural)]
pub struct ReturnStep {
    pub date: Date,
    pub prev: Number,
    pub curr: Number,
}

/// The steps to the first `n` bars: the neighbouring adjusted closes of which the earlier one is
/// not negligible.
pub open spec fn steps(s: Seq<PriceBar>, n: int) -> Seq<ReturnStep>
    decreases n,
{
    if n <= 1 {
        seq![]
    } else if (Number { bits: BILLIONTH }).lt(s[n - 2].adj_close) {
        steps(s, n - 1).push(
            ReturnStep { date: s[n - 1].date, prev: s[n - 2].adj_close, curr: s[n - 1].adj_close },
        )
    } else {
        steps(s, n - 1)
    }
}

/// What the daily returns of a ticker are computed from.
pub fn return_steps(bars: &Vec<PriceBar>) -> (r: Vec<ReturnStep>)
    ensures
        r@ == steps(bars@, bars@.len() as int),
{
    let mut out: Vec<ReturnStep> = Vec::new();
    let mut i: usize = 1;
    while i < bars.len()
        invariant
            1 <= i,
            bars@.len() >= 1 ==> i <= bars@.len(),
            bars@.len() == 0 ==> i == 1,
            out@ == steps(bars@, i as int),
        decreases bars.len() - i,
    {
        if (Number { bits: BILLIONTH }).is_lt(bars[i - 1].adj_close) {
            out.push(
                ReturnStep {
                    date: bars[i].date,
                    prev: bars[i - 1].adj_close,
                    curr: bars[i].adj_close,
                },
            );
        }
        i = i + 1;
    }
    out
}

/// The finite returns of a day, in their order.
pub open spec fn values_on(s: Seq<DayReturn>, day: Date) -> Seq<Number> {
    s.filter(|x: DayReturn| x.value.finite() && x.date == day).map_values(|x: DayReturn| x.value)
}

/// The returns of a day, to be averaged.
#[derive(Debug)]
pub struct Bucket {
    pub date: Date,
    pub values: Vec<Number>,
}

/// The days of buckets.
pub open spec fn bucket_days(s: Seq<Bucket>) -> Seq<Date> {
    s.map_values(|b: Bucket| b.date)
}

/// Collects the finite returns of a day.
fn collect_day(all: &Vec<DayReturn>, day: Date) -> (r: Vec<Number>)
    ensures
        r@ == values_on(all@, day),
{
    let mut out: Vec<Number> = Vec::new();
    let mut i: usize = 0;
    let ghost keep = |x: DayReturn| x.value.finite() && x.date == day;
    let ghost pick = |x: DayReturn| x.value;
    proof {
        reveal(Seq::filter);
        assert(all@.take(0) =~= seq![]);
        assert(out@ =~= all@.take(0).filter(keep).map_values(pick));
    }
    while i < all.len()
        invariant
            i <= all@.len(),
            keep == (|x: DayReturn| x.value.finite() && x.date == day),
            pick == (|x: DayReturn| x.value),
            out@ == all@.take(i as int).filter(keep).map_values(pick),
        decreases all@.len() - i,
    {
        let ghost before = all@.take(i as int).filter(keep);
        proof {
            reveal(Seq::filter);
            assert(all@.take(i + 1).drop_last() =~= all@.take(i as int));
            assert(all@.take(i + 1).last() == all@[i as int]);
        }
        if all[i].value.is_finite() && all[i].date == day {
            out.push(all[i].value);
            proof {
                let after = before.push(all@[i as int]);
                assert(all@.take(i + 1).filter(keep) == after);
                assert(after.map_values(pick) =~= before.map_values(pick).push(
                    all@[i as int].value,
                ));
            }
        }
        i = i + 1;
    }
    proof {
        assert(all@.take(all@.len() as int) =~= all@);
    }
    out
}

/// The returns of an industry's tickers, gathered by day: one bucket for every day on which a
/// ticker has a finite return, in the order of time.
pub fn by_day(all: &Vec<DayReturn>) -> (r: Vec<Bucket>)
    ensures
        prices::days_increase(bucket_days(r@)),
        forall|x: Date| #[trigger]
            bucket_days(r@).contains(x) <==> exists|i: int|
                0 <= i < all@.len() && (#[trigger] all@[i]).value.finite() && all@[i].date == x,
        forall|k: int|
            0 <= k < r@.len() ==> (#[trigger] r@[k]).values@ == values_on(all@, r@[k].date),
{
    let mut days: Vec<Date> = Vec::new();
    let mut i: usize = 0;
    while i < all.len()
        invariant
            i <= all@.len(),
            prices::days_increase(days@),
            forall|x: Date| #[trigger]
                days@.contains(x) <==> exists|k: int|
                    0 <= k < i && (#[trigger] all@[k]).value.finite() && all@[k].date == x,
        decreases all@.len() - i,
    {
        let ghost before = days@;
        if all[i].value.is_finite() {
            prices::put_day(&mut days, all[i].date);
        }
        proof {
            assert forall|x: Date| #[trigger] days@.contains(x) <==> exists|k: int|
                0 <= k < i + 1 && (#[trigger] all@[k]).value.finite() && all@[k].date == x by {
                assert(before.contains(x) <==> exists|k: int|
                    0 <= k < i && (#[trigger] all@[k]).value.finite() && all@[k].date == x);
                if days@.contains(x) && !before.contains(x) {
                    assert(all@[i as int].value.finite() && all@[i as int].date == x);
                }
            }
        }
        i = i + 1;
    }
    let mut out: Vec<Bucket> = Vec::new();
    let mut k: usize = 0;
    while k < days.len()
        invariant
            k <= days@.len(),
            out@.len() == k,
            forall|j: int|
                0 <= j < k ==> (#[trigger] out@[j]).date == days@[j] && out@[j].values@
                    == values_on(all@, out@[j].date),
        decreases days@.len() - k,
    {
        out.push(Bucket { date: days[k], values: collect_day(all, days[k]) });
        k = k + 1;
    }
    proof {
        assert(bucket_days(out@) =~= days@);
    }
    out
}

// ── Overlapping days ─────────────────────────────────────────────────────────

/// The return of a day, the last one where there are several.
pub open spec fn value_on(s: Seq<DayReturn>, day: Date) -> Option<Number>
    decreases s.len(),
{
    if s.len() == 0 {
        None
    } else if s.last().date == day {
        Some(s.last().value)
    } else {
        value_on(s.drop_last(), day)
    }
}

/// The returns of two industries on the days that both have, where both are finite; of the first
/// `n` days of the first.
pub open spec fn shared(a: Seq<DayReturn>, b: Seq<DayReturn>, n: int) -> Seq<(Number, Number)>
    decreases n,
{
    if n <= 0 {
        seq![]
    } else {
        let before = shared(a, b, n - 1);
        match value_on(b, a[n - 1].date) {
            Some(v) => if a[n - 1].value.finite() && v.finite() {
                before.push((a[n - 1].value, v))
            } else {
                before
            },
            None => before,
        }
    }
}

/// The return of a day.
pub fn find_value(s: &Vec<DayReturn>, day: Date) -> (r: Option<Number>)
    ensures
        r == value_on(s@, day),
{
    let mut n: usize = s.len();
    proof {
        assert(s@.take(s@.len() as int) =~= s@);
    }
    while n > 0
        invariant
            n <= s@.len(),
            value_on(s@, day) == value_on(s@.take(n as int), day),
        decreases n,
    {
        proof {
            assert(s@.take(n as int).last() == s@[n - 1]);
            assert(s@.take(n as int).drop_last() =~= s@.take(n - 1));
        }
        if s[n - 1].date == day {
            return Some(s[n - 1].value);
        }
        n = n - 1;
    }
    None
}

/// What the correlation of two industries is computed from, where they share days enough.
pub fn pearson_from_date_maps(a: &Vec<DayReturn>, b: &Vec<DayReturn>) -> (r: Option<Sample>)
    ensures
        match r {
            Some(s) => shared(a@, b@, a@.len() as int).len() >= 60 && s.xs@ == ic::lefts(
                shared(a@, b@, a@.len() as int),
            ) && s.ys@ == ic::rights(shared(a@, b@, a@.len() as int)),
            None => shared(a@, b@, a@.len() as int).len() < 60,
        },
{
    let mut out: Sample = Sample { xs: Vec::new(), ys: Vec::new() };
    let mut n: usize = 0;
    proof {
        assert(out.xs@ =~= ic::lefts(shared(a@, b@, 0)));
        assert(out.ys@ =~= ic::rights(shared(a@, b@, 0)));
    }
    while n < a.len()
        invariant
            n <= a@.len(),
            out.xs@ == ic::lefts(shared(a@, b@, n as int)),
            out.ys@ == ic::rights(shared(a@, b@, n as int)),
        decreases a@.len() - n,
    {
        let ghost before = shared(a@, b@, n as int);
        if let Some(v) = find_value(b, a[n].date) {
            if a[n].value.is_finite() && v.is_finite() {
                out.xs.push(a[n].value);
                out.ys.push(v);
                proof {
                    let after = before.push((a@[n as int].value, v));
                    assert(shared(a@, b@, n + 1) == after);
                    assert(ic::lefts(after) =~= ic::lefts(before).push(a@[n as int].value));
                    assert(ic::rights(after) =~= ic::rights(before).push(v));
                }
            }
        }
        n = n + 1;
    }
    if out.xs.len() < MIN_OVERLAP {
        None
    } else {
        Some(out)
    }
}

// ── The matrix ───────────────────────────────────────────────────────────────

/// A square grid of encoded numbers, on an `ndarray::Array2`.
#[verifier::external_body]
pub struct Grid {
    cells: ndarray::Array2<u64>,
}

/// What the cells of a grid hold, by row and column.
pub uninterp spec fn cells_of(g: Grid) -> Map<(int, int), u64>;

/// The cells of a square grid that all hold one value.
pub open spec fn uniform(n: int, value: u64) -> Map<(int, int), u64> {
    Map::new(|p: (int, int)| 0 <= p.0 < n && 0 <= p.1 < n, |p: (int, int)| value)
}

/// `Array2::from_elem`: a grid of `n` rows and `n` columns with the value in every cell. The
/// bound keeps its size in bytes within what can be allocated.
#[verifier::external_body]
fn grid_of(n: usize, value: u64) -> (g: Grid)
    requires
        n * n * 8 <= isize::MAX,
    ensures
        cells_of(g) == uniform(n as int, value),
{
    Grid { cells: ndarray::Array2::<u64>::from_elem((n, n), value) }
}

/// Assignment through `IndexMut` of `Array2`: one cell changes.
#[verifier::external_body]
fn set_cell(g: &mut Grid, i: usize, j: usize, value: u64)
    requires
        cells_of(*old(g)).dom().contains((i as int, j as int)),
    ensures
        cells_of(*final(g)) == cells_of(*old(g)).insert((i as int, j as int), value),
{
    g.cells[[i, j]] = value;
}

/// `Index` of `Array2`: what a cell holds.
#[verifier::external_body]
fn cell(g: &Grid, i: usize, j: usize) -> (r: u64)
    requires
        cells_of(*g).dom().contains((i as int, j as int)),
    ensures
        r == cells_of(*g)[(i as int, j as int)],
{
    g.cells[[i, j]]
}

/// The coefficient of two industries, where it is a finite number. `rows` holds for each industry
/// the coefficients with those after it.
pub open spec fn coefficient(rows: Seq<Vec<Option<Number>>>, i: int, j: int) -> Option<Number> {
    match rows[i]@[j - i - 1] {
        Some(r) => if r.finite() {
            Some(r)
        } else {
            None
        },
        None => None,
    }
}

/// Each industry has a coefficient with each one after it.
pub open spec fn triangular(rows: Seq<Vec<Option<Number>>>, n: int) -> bool {
    &&& rows.len() == n
    &&& forall|i: int| 0 <= i < n ==> (#[trigger] rows[i])@.len() == n - i - 1
}

/// Whether the pair `p`, `q` comes before the pair `i`, `j`, row by row.
pub open spec fn done(p: int, q: int, i: int, j: int) -> bool {
    p < i || (p == i && q < j)
}

/// The names of a pair come before `i`, `j`.
pub open spec fn comes_from(names: Seq<Seq<char>>, x: CorrelationPair, i: int, j: int) -> bool {
    exists|p: int, q: int|
        0 <= p < q < names.len() && done(p, q, i, j) && x.a@ == #[trigger] names[p] && x.b@
            == #[trigger] names[q]
}

/// `s` holds the coefficients of the pairs that come before `i`, `j`, each once, and nothing else.
pub open spec fn holds_upto(
    names: Seq<Seq<char>>,
    rows: Seq<Vec<Option<Number>>>,
    s: Seq<CorrelationPair>,
    i: int,
    j: int,
) -> bool {
    &&& forall|p: int, q: int|
        0 <= p < q < names.len() && done(p, q, i, j) ==> stored(
            s,
            #[trigger] names[p],
            #[trigger] names[q],
        ) == coefficient(rows, p, q)
    &&& forall|k: int| 0 <= k < s.len() ==> comes_from(names, #[trigger] s[k], i, j)
    &&& forall|k: int, l: int|
        0 <= k < l < s.len() ==> !same_names(#[trigger] s[k], #[trigger] s[l])
}

/// Whether two pairs are of the same industries.
pub open spec fn same_names(x: CorrelationPair, y: CorrelationPair) -> bool {
    x.a@ == y.a@ && x.b@ == y.b@
}

/// No pair that comes before `i`, `j` is of these two.
proof fn lemma_is_new(names: Seq<Seq<char>>, x: CorrelationPair, i: int, j: int)
    requires
        order::strictly_sorted(names),
        0 <= i < j < names.len(),
        comes_from(names, x, i, j),
    ensures
        x.a@ != names[i] || x.b@ != names[j],
{
    let (p, q) = choose|p: int, q: int|
        0 <= p < q < names.len() && done(p, q, i, j) && x.a@ == #[trigger] names[p] && x.b@
            == #[trigger] names[q];
    if p < i {
        assert(order::text_lt(names[p], names[i]));
    } else {
        assert(order::text_lt(names[q], names[j]));
    }
}

proof fn lemma_nothing_stored(s: Seq<CorrelationPair>, a: Seq<char>, b: Seq<char>)
    requires
        forall|k: int| 0 <= k < s.len() ==> (#[trigger] s[k]).a@ != a || s[k].b@ != b,
    ensures
        stored(s, a, b) is None,
    decreases s.len(),
{
    if s.len() > 0 {
        assert(s.last() == s[s.len() - 1]);
        lemma_nothing_stored(s.drop_last(), a, b);
    }
}

proof fn lemma_next_pair(
    names: Seq<Seq<char>>,
    rows: Seq<Vec<Option<Number>>>,
    s: Seq<CorrelationPair>,
    t: Seq<CorrelationPair>,
    i: int,
    j: int,
)
    requires
        order::strictly_sorted(names),
        0 <= i < j < names.len(),
        holds_upto(names, rows, s, i, j),
        match coefficient(rows, i, j) {
            Some(r) => t.len() == s.len() + 1 && t.drop_last() == s && t.last().a@ == names[i]
                && t.last().b@ == names[j] && t.last().r == r,
            None => t == s,
        },
    ensures
        holds_upto(names, rows, t, i, j + 1),
{
    assert forall|p: int, q: int|
        0 <= p < q < names.len() && done(p, q, i, j + 1) implies stored(
        t,
        #[trigger] names[p],
        #[trigger] names[q],
    ) == coefficient(rows, p, q) by {
        if p == i && q == j {
            if coefficient(rows, i, j) is None {
                assert forall|k: int| 0 <= k < s.len() implies (#[trigger] s[k]).a@ != names[i]
                    || s[k].b@ != names[j] by {
                    lemma_is_new(names, s[k], i, j);
                }
                lemma_nothing_stored(s, names[i], names[j]);
            }
        } else {
            assert(done(p, q, i, j));
            if p < i {
                assert(order::text_lt(names[p], names[i]));
            } else {
                assert(order::text_lt(names[q], names[j]));
            }
        }
    }
    assert forall|k: int| 0 <= k < t.len() implies comes_from(
        names,
        #[trigger] t[k],
        i,
        j + 1,
    ) by {
        if k < s.len() {
            assert(t[k] == s[k]) by {
                if coefficient(rows, i, j) is Some {
                    assert(t.drop_last()[k] == t[k]);
                }
            }
            assert(comes_from(names, s[k], i, j));
            let (p, q) = choose|p: int, q: int|
                0 <= p < q < names.len() && done(p, q, i, j) && s[k].a@ == #[trigger] names[p]
                    && s[k].b@ == #[trigger] names[q];
            assert(done(p, q, i, j + 1));
        } else {
            assert(t[k] == t.last());
            assert(done(i, j, i, j + 1));
        }
    }
    assert forall|k: int, l: int| 0 <= k < l < t.len() implies !same_names(
        #[trigger] t[k],
        #[trigger] t[l],
    ) by {
        assert(t[k] == s[k]) by {
            if coefficient(rows, i, j) is Some {
                assert(t.drop_last()[k] == t[k]);
            }
        }
        if l < s.len() {
            assert(t[l] == s[l]) by {
                if coefficient(rows, i, j) is Some {
                    assert(t.drop_last()[l] == t[l]);
                }
            }
        } else {
            lemma_is_new(names, s[k], i, j);
        }
    }
}

/// The cells of the grid before the pair `i`, `j` hold their coefficients.
pub open spec fn filled_upto(
    rows: Seq<Vec<Option<Number>>>,
    m: Map<(int, int), u64>,
    n: int,
    i: int,
    j: int,
) -> bool {
    &&& m.dom() == uniform(n, 0).dom()
    &&& forall|p: int, q: int|
        0 <= p < q < n && done(p, q, i, j) ==> (#[trigger] m[(p, q)]) == (match rows[p]@[q - p - 1] {
            Some(r) => r.bits,
            None => NOT_A_NUMBER,
        })
    &&& forall|p: int, q: int|
        0 <= p < q < n && !done(p, q, i, j) ==> (#[trigger] m[(p, q)]) == NOT_A_NUMBER
}

/// Lays the coefficients out in a grid, each on both sides of the diagonal.
fn fill_grid(n: usize, rows: &Vec<Vec<Option<Number>>>) -> (g: Grid)
    requires
        triangular(rows@, n as int),
        n * n * 8 <= isize::MAX,
    ensures
        filled_upto(rows@, cells_of(g), n as int, n as int, 0),
{
    let mut g: Grid = grid_of(n, NOT_A_NUMBER);
    let mut d: usize = 0;
    while d < n
        invariant
            d <= n,
            cells_of(g).dom() == uniform(n as int, 0).dom(),
            forall|p: int, q: int|
                0 <= p < q < n ==> (#[trigger] cells_of(g)[(p, q)]) == NOT_A_NUMBER,
        decreases n - d,
    {
        set_cell(&mut g, d, d, ONE);
        proof {
            assert(cells_of(g).dom() =~= uniform(n as int, 0).dom());
        }
        d = d + 1;
    }
    let mut i: usize = 0;
    while i < n
        invariant
            i <= n,
            triangular(rows@, n as int),
            filled_upto(rows@, cells_of(g), n as int, i as int, 0),
        decreases n - i,
    {
        let mut j: usize = i + 1;
        while j < n
            invariant
                i < j <= n,
                triangular(rows@, n as int),
                filled_upto(rows@, cells_of(g), n as int, i as int, j as int),
            decreases n - j,
        {
            proof {
                assert(rows@[i as int]@.len() == n - i - 1);
            }
            if let Some(r) = rows[i][j - i - 1] {
                set_cell(&mut g, i, j, r.to_bits());
                set_cell(&mut g, j, i, r.to_bits());
                proof {
                    assert(cells_of(g).dom() =~= uniform(n as int, 0).dom());
                }
            }
            j = j + 1;
        }
        i = i + 1;
    }
    g
}

/// The correlations of industries, in the order of their names. Pairs without a finite
/// coefficient are left out.
pub fn compute_correlation_matrix(names: &Vec<String>, rows: &Vec<Vec<Option<Number>>>) -> (r: Vec<
    CorrelationPair,
>)
    requires
        order::strictly_sorted(text::texts(names@)),
        triangular(rows@, names@.len() as int),
        names@.len() * names@.len() * 8 <= isize::MAX,
    ensures
        holds_upto(text::texts(names@), rows@, r@, names@.len() as int, 0),
{
    let n: usize = names.len();
    let ghost all = text::texts(names@);
    let mut out: Vec<CorrelationPair> = Vec::new();
    if n < 2 {
        return out;
    }
    let g: Grid = fill_grid(n, rows);
    let mut i: usize = 0;
    while i < n
        invariant
            i <= n == names@.len(),
            all == text::texts(names@),
            order::strictly_sorted(all),
            triangular(rows@, n as int),
            filled_upto(rows@, cells_of(g), n as int, n as int, 0),
            holds_upto(all, rows@, out@, i as int, 0),
        decreases n - i,
    {
        let mut j: usize = i + 1;
        proof {
            lemma_row_done(all, rows@, out@, i as int);
        }
        while j < n
            invariant
                i < j <= n == names@.len(),
                all == text::texts(names@),
                order::strictly_sorted(all),
                triangular(rows@, n as int),
                filled_upto(rows@, cells_of(g), n as int, n as int, 0),
                holds_upto(all, rows@, out@, i as int, j as int),
            decreases n - j,
        {
            let ghost before = out@;
            let r: Number = Number::from_bits(cell(&g, i, j));
            proof {
                assert(done(i as int, j as int, n as int, 0));
                assert(cells_of(g)[(i as int, j as int)] == r.bits);
                assert(all[i as int] == names@[i as int]@);
                assert(all[j as int] == names@[j as int]@);
            }
            if r.is_finite() {
                out.push(CorrelationPair { a: names[i].clone(), b: names[j].clone(), r });
                proof {
                    assert(out@.drop_last() =~= before);
                }
            }
            proof {
                lemma_next_pair(all, rows@, before, out@, i as int, j as int);
            }
            j = j + 1;
        }
        proof {
            lemma_row_end(all, rows@, out@, i as int);
        }
        i = i + 1;
    }
    out
}

proof fn lemma_row_done(
    names: Seq<Seq<char>>,
    rows: Seq<Vec<Option<Number>>>,
    s: Seq<CorrelationPair>,
    i: int,
)
    requires
        holds_upto(names, rows, s, i, 0),
        0 <= i,
    ensures
        holds_upto(names, rows, s, i, i + 1),
{
    assert forall|p: int, q: int|
        0 <= p < q < names.len() && done(p, q, i, i + 1) implies stored(
        s,
        #[trigger] names[p],
        #[trigger] names[q],
    ) == coefficient(rows, p, q) by {
        assert(done(p, q, i, 0));
    }
    assert forall|k: int| 0 <= k < s.len() implies comes_from(names, #[trigger] s[k], i, i + 1) by {
        assert(comes_from(names, s[k], i, 0));
        let (p, q) = choose|p: int, q: int|
            0 <= p < q < names.len() && done(p, q, i, 0) && s[k].a@ == #[trigger] names[p]
                && s[k].b@ == #[trigger] names[q];
        assert(done(p, q, i, i + 1));
    }
}

proof fn lemma_row_end(
    names: Seq<Seq<char>>,
    rows: Seq<Vec<Option<Number>>>,
    s: Seq<CorrelationPair>,
    i: int,
)
    requires
        holds_upto(names, rows, s, i, names.len() as int),
        0 <= i,
    ensures
        holds_upto(names, rows, s, i + 1, 0),
{
    assert forall|p: int, q: int|
        0 <= p < q < names.len() && done(p, q, i + 1, 0) implies stored(
        s,
        #[trigger] names[p],
        #[trigger] names[q],
    ) == coefficient(rows, p, q) by {
        assert(done(p, q, i, names.len() as int));
    }
    assert forall|k: int| 0 <= k < s.len() implies comes_from(names, #[trigger] s[k], i + 1, 0) by {
        assert(comes_from(names, s[k], i, names.len() as int));
        let (p, q) = choose|p: int, q: int|
            0 <= p < q < names.len() && done(p, q, i, names.len() as int) && s[k].a@
                == #[trigger] names[p] && s[k].b@ == #[trigger] names[q];
        assert(done(p, q, i + 1, 0));
    }
}

/// Every coefficient that was computed is found again, whichever industry is named first.
pub proof fn computed_correlations_are_found(
    names: Seq<Seq<char>>,
    rows: Seq<Vec<Option<Number>>>,
    s: Seq<CorrelationPair>,
    i: int,
    j: int,
)
    requires
        order::strictly_sorted(names),
        holds_upto(names, rows, s, names.len() as int, 0),
        0 <= i < j < names.len(),
    ensures
        correlation(s, names[i], names[j]) == coefficient(rows, i, j),
        correlation(s, names[j], names[i]) == coefficient(rows, i, j),
{
    assert(order::text_lt(names[i], names[j]));
    correlation_is_symmetric(s, names[i], names[j]);
}

// ── Stored correlations ──────────────────────────────────────────────────────

/// A pair says what a stored row says.
pub open spec fn same_pair(p: CorrelationPair, row: IndustryCorrelation) -> bool {
    p.a@ == row.industry_a@ && p.b@ == row.industry_b@ && p.r == row.correlation
}

/// The pairs of stored rows, where they may be used: they were stored lately, and there are any.
pub fn from_stored(fresh: bool, rows: &Vec<IndustryCorrelation>) -> (r: Option<
    Vec<CorrelationPair>,
>)
    ensures
        r is Some <==> fresh && rows@.len() > 0,
        r matches Some(pairs) ==> pairs@.len() == rows@.len() && forall|i: int|
            0 <= i < pairs@.len() ==> same_pair(#[trigger] pairs@[i], rows@[i]),
{
    if !fresh || rows.len() == 0 {
        return None;
    }
    let mut out: Vec<CorrelationPair> = Vec::new();
    let mut i: usize = 0;
    while i < rows.len()
        invariant
            i <= rows@.len(),
            out@.len() == i,
            forall|k: int| 0 <= k < i ==> same_pair(#[trigger] out@[k], rows@[k]),
        decreases rows@.len() - i,
    {
        out.push(
            CorrelationPair {
                a: rows[i].industry_a.clone(),
                b: rows[i].industry_b.clone(),
                r: rows[i].correlation,
            },
        );
        i = i + 1;
    }
    Some(out)
}

/// The rows to store for computed pairs.
pub fn to_stored(pairs: &Vec<CorrelationPair>, as_of: Date) -> (r: Vec<IndustryCorrelation>)
    ensures
        r@.len() == pairs@.len(),
        forall|i: int|
            0 <= i < r@.len() ==> same_pair(pairs@[i], #[trigger] r@[i]) && r@[i].date == as_of
                && r@[i].window_days == 90,
{
    let mut out: Vec<IndustryCorrelation> = Vec::new();
    let mut i: usize = 0;
    while i < pairs.len()
        invariant
            i <= pairs@.len(),
            out@.len() == i,
            forall|k: int|
                0 <= k < i ==> same_pair(pairs@[k], #[trigger] out@[k]) && out@[k].date == as_of
                    && out@[k].window_days == 90,
        decreases pairs@.len() - i,
    {
        out.push(
            IndustryCorrelation {
                industry_a: pairs[i].a.clone(),
                industry_b: pairs[i].b.clone(),
                correlation: pairs[i].r,
                date: as_of,
                window_days: WINDOW_DAYS,
            },
        );
        i = i + 1;
    }
    out
}

// ── What enters a correlation ────────────────────────────────────────────────

/// A daily return goes from the adjusted close of a bar to that of the next, dated by the later:
/// with usable closes there is one for every bar but the first, whatever the unadjusted prices are.
pub proof fn returns_step_from_close_to_close(bars: Vec<PriceBar>, r: Vec<ReturnStep>, k: int)
    requires
        call_ensures(return_steps, (&bars,), r),
        forall|i: int|
            0 <= i < bars@.len() ==> 0x3E11_2E0B_E826_D695 < (#[trigger] bars@[i]).adj_close.bits
                <= 0x7FF0_0000_0000_0000,
        0 <= k,
        k + 1 < bars@.len(),
    ensures
        r@.len() == bars@.len() - 1,
        r@[k].prev == bars@[k].adj_close,
        r@[k].curr == bars@[k + 1].adj_close,
        r@[k].date == bars@[k + 1].date,
{
    lemma_steps(bars@, bars@.len() as int);
}

proof fn lemma_steps(s: Seq<PriceBar>, n: int)
    requires
        0 <= n <= s.len(),
        forall|i: int|
            0 <= i < s.len() ==> 0x3E11_2E0B_E826_D695 < (#[trigger] s[i]).adj_close.bits
                <= 0x7FF0_0000_0000_0000,
    ensures
        steps(s, n).len() == (if n <= 1 {
            0
        } else {
            n - 1
        }),
        forall|k: int|
            0 <= k < steps(s, n).len() ==> (#[trigger] steps(s, n)[k]).prev == s[k].adj_close
                && steps(s, n)[k].curr == s[k + 1].adj_close && steps(s, n)[k].date == s[k
                + 1].date,
    decreases n,
{
    if n > 1 {
        lemma_steps(s, n - 1);
        assert((Number { bits: BILLIONTH }).lt(s[n - 2].adj_close));
    }
}

/// Unadjusted prices have no part in daily returns.
pub proof fn returns_ignore_unadjusted_prices(
    a: Vec<PriceBar>,
    b: Vec<PriceBar>,
    ra: Vec<ReturnStep>,
    rb: Vec<ReturnStep>,
)
    requires
        call_ensures(return_steps, (&a,), ra),
        call_ensures(return_steps, (&b,), rb),
        prices::adjusted_alike(a@, b@),
    ensures
        ra@ == rb@,
{
    lemma_same_steps(a@, b@, a@.len() as int);
}

proof fn lemma_same_steps(a: Seq<PriceBar>, b: Seq<PriceBar>, n: int)
    requires
        prices::adjusted_alike(a, b),
        0 <= n <= a.len(),
    ensures
        steps(a, n) == steps(b, n),
    decreases n,
{
    if n > 1 {
        lemma_same_steps(a, b, n - 1);
        assert(a[n - 1].date == b[n - 1].date);
        assert(a[n - 2].date == b[n - 2].date);
    }
}

/// Two industries are compared on the days that both have, the first industry's return against the
/// second's of the same day, and only where there are sixty such days.
pub proof fn industries_are_compared_on_shared_days(
    a: Vec<DayReturn>,
    b: Vec<DayReturn>,
    s: Sample,
    k: int,
)
    requires
        call_ensures(pearson_from_date_maps, (&a, &b), Some(s)),
        0 <= k < s.xs@.len(),
    ensures
        s.xs@.len() == s.ys@.len(),
        s.xs@.len() >= 60,
        exists|i: int, j: int|
            0 <= i < a@.len() && 0 <= j < b@.len() && (#[trigger] a@[i]).date == (
            #[trigger] b@[j]).date && a@[i].value == s.xs@[k] && b@[j].value == s.ys@[k],
{
    lemma_shared(a@, b@, a@.len() as int);
    let all = shared(a@, b@, a@.len() as int);
    assert(ic::lefts(all)[k] == all[k].0 && ic::rights(all)[k] == all[k].1);
    assert(from_one_day(a@, b@, all[k]));
}

/// Whether two returns are those of one day.
pub open spec fn from_one_day(
    a: Seq<DayReturn>,
    b: Seq<DayReturn>,
    p: (Number, Number),
) -> bool {
    exists|i: int, j: int|
        0 <= i < a.len() && 0 <= j < b.len() && (#[trigger] a[i]).date == (#[trigger] b[j]).date
            && a[i].value == p.0 && b[j].value == p.1
}

proof fn lemma_value_on(s: Seq<DayReturn>, day: Date)
    ensures
        value_on(s, day) matches Some(v) ==> exists|j: int|
            0 <= j < s.len() && (#[trigger] s[j]).date == day && s[j].value == v,
        value_on(s, day) is None ==> forall|j: int|
            0 <= j < s.len() ==> (#[trigger] s[j]).date != day,
    decreases s.len(),
{
    if s.len() > 0 {
        let init = s.drop_last();
        lemma_value_on(init, day);
        if s.last().date == day {
            assert(s[s.len() - 1].date == day);
        } else {
            if let Some(v) = value_on(s, day) {
                let j = choose|j: int|
                    0 <= j < init.len() && (#[trigger] init[j]).date == day && init[j].value == v;
                assert(s[j] == init[j]);
            } else {
                assert forall|j: int| 0 <= j < s.len() implies (#[trigger] s[j]).date != day by {
                    if j < init.len() {
                        assert(init[j] == s[j]);
                    }
                }
            }
        }
    }
}

proof fn lemma_shared(a: Seq<DayReturn>, b: Seq<DayReturn>, n: int)
    requires
        0 <= n <= a.len(),
    ensures
        forall|k: int|
            0 <= k < shared(a, b, n).len() ==> from_one_day(a, b, #[trigger] shared(a, b, n)[k]),
    decreases n,
{
    if n > 0 {
        lemma_shared(a, b, n - 1);
        lemma_value_on(b, a[n - 1].date);
        let all = shared(a, b, n);
        let before = shared(a, b, n - 1);
        assert forall|k: int| 0 <= k < all.len() implies from_one_day(a, b, #[trigger] all[k]) by {
            if k < before.len() {
                assert(all[k] == before[k]);
            } else {
                let v = value_on(b, a[n - 1].date)->0;
                let j = choose|j: int|
                    0 <= j < b.len() && (#[trigger] b[j]).date == a[n - 1].date && b[j].value == v;
                assert(a[n - 1].date == b[j].date);
            }
        }
    }
}

/// The return of a day is one that is listed for it, and there is one wherever one is listed.
pub proof fn returns_are_found_by_day(s: Vec<DayReturn>, day: Date, r: Option<Number>)
    requires
        call_ensures(find_value, (&s, day), r),
    ensures
        r matches Some(v) ==> exists|j: int|
            0 <= j < s@.len() && (#[trigger] s@[j]).date == day && s@[j].value == v,
        r is None <==> forall|j: int| 0 <= j < s@.len() ==> (#[trigger] s@[j]).date != day,
{
    lemma_value_on(s@, day);
}

/// The correlation of two industries is the one stored last under their names, and naming them the
/// other way round finds the same.
pub proof fn a_correlation_has_no_direction(
    data: CorrelationData,
    a: &str,
    b: &str,
    ab: Option<Number>,
    ba: Option<Number>,
    k: int,
)
    requires
        call_ensures(CorrelationData::get_correlation, (&data, a, b), ab),
        call_ensures(CorrelationData::get_correlation, (&data, b, a), ba),
        0 <= k < data.pairs@.len(),
        data.pairs@[k].a@ == a@,
        data.pairs@[k].b@ == b@,
        order::text_le(a@, b@),
        forall|j: int|
            k < j < data.pairs@.len() ==> (#[trigger] data.pairs@[j]).a@ != a@ || data.pairs@[j].b@
                != b@,
    ensures
        ab == Some(data.pairs@[k].r),
        ba == ab,
{
    correlation_is_symmetric(data.pairs@, a@, b@);
    lemma_stored(data.pairs@, a@, b@, k);
}

proof fn lemma_stored(s: Seq<CorrelationPair>, a: Seq<char>, b: Seq<char>, k: int)
    requires
        0 <= k < s.len(),
        s[k].a@ == a,
        s[k].b@ == b,
        forall|j: int| k < j < s.len() ==> (#[trigger] s[j]).a@ != a || s[j].b@ != b,
    ensures
        stored(s, a, b) == Some(s[k].r),
    decreases s.len(),
{
    if k < s.len() - 1 {
        assert(s[s.len() - 1].a@ != a || s[s.len() - 1].b@ != b);
        let init = s.drop_last();
        assert forall|j: int| k < j < init.len() implies (#[trigger] init[j]).a@ != a || init[j].b@
            != b by {
            assert(s[j].a@ != a || s[j].b@ != b);
        }
        lemma_stored(init, a, b, k);
    }
}

/// The peers of an industry are industries that it is paired with, each with the correlation of the
/// pair, none below the minimum; the strongest come first, and there are as many as asked for at
/// most.
pub proof fn peers_are_the_strongest_partners(
    data: CorrelationData,
    industry: &str,
    min_r: Number,
    top_n: usize,
    r: Vec<Peer>,
    i: int,
    j: int,
)
    requires
        call_ensures(CorrelationData::top_correlated, (&data, industry, min_r, top_n), r),
        0 <= i < j < r@.len(),
        forall|k: int| 0 <= k < data.pairs@.len() ==> !(#[trigger] data.pairs@[k]).r.nan(),
    ensures
        r@.len() <= top_n,
        !r@[i].r.lt(r@[j].r),
        is_partner(data.pairs@, industry@, min_r, r@[i].industry@, r@[i].r),
{
    let n = data.pairs@.len() as int;
    let all = partners(data.pairs@, industry@, min_r, n);
    lemma_partners(data.pairs@, industry@, min_r, n);
    let p = choose|p: Seq<usize>| #[trigger]
        order::is_descending(strengths(all), p) && peers(r@) == Seq::new(
            if p.len() <= top_n {
                p.len()
            } else {
                top_n as nat
            },
            |k: int| all[p[k] as int],
        );
    assert(peers(r@).len() == r@.len());
    assert(peers(r@)[i] == (r@[i].industry@, r@[i].r));
    assert(peers(r@)[j] == (r@[j].industry@, r@[j].r));
    let (a, b) = (p[i] as int, p[j] as int);
    assert(strengths(all)[a] == all[a].1 && strengths(all)[b] == all[b].1);
    assert(is_partner(data.pairs@, industry@, min_r, all[a].0, all[a].1));
}

/// Whether an industry is paired with another at a correlation that is not below a minimum.
pub open spec fn is_partner(
    s: Seq<CorrelationPair>,
    industry: Seq<char>,
    min_r: Number,
    other: Seq<char>,
    r: Number,
) -> bool {
    exists|k: int|
        0 <= k < s.len() && (#[trigger] s[k]).r == r && !r.lt(min_r) && ((s[k].a@ == industry
            && s[k].b@ == other) || (s[k].b@ == industry && s[k].a@ == other))
}

proof fn lemma_partners(s: Seq<CorrelationPair>, industry: Seq<char>, min_r: Number, n: int)
    requires
        0 <= n <= s.len(),
    ensures
        forall|k: int|
            0 <= k < partners(s, industry, min_r, n).len() ==> is_partner(
                s,
                industry,
                min_r,
                (#[trigger] partners(s, industry, min_r, n)[k]).0,
                partners(s, industry, min_r, n)[k].1,
            ),
    decreases n,
{
    if n > 0 {
        lemma_partners(s, industry, min_r, n - 1);
        let all = partners(s, industry, min_r, n);
        let before = partners(s, industry, min_r, n - 1);
        assert forall|k: int| 0 <= k < all.len() implies is_partner(
            s,
            industry,
            min_r,
            (#[trigger] all[k]).0,
            all[k].1,
        ) by {
            if k < before.len() {
                assert(all[k] == before[k]);
            } else {
                assert(s[n - 1].r == all[k].1);
            }
        }
    }
}

/// A bucket holds the finite returns of its own day and no others.
pub proof fn buckets_hold_their_day(all: Vec<DayReturn>, r: Vec<Bucket>, i: int, k: int, v: int)
    requires
        call_ensures(by_day, (&all,), r),
        0 <= i < all@.len(),
        all@[i].value.finite(),
        0 <= k < r@.len(),
    ensures
        r@[k].date == all@[i].date ==> r@[k].values@.contains(all@[i].value),
        exists|q: int| 0 <= q < r@.len() && (#[trigger] r@[q]).date == all@[i].date,
        0 <= v < r@[k].values@.len() ==> exists|j: int|
            0 <= j < all@.len() && (#[trigger] all@[j]).date == r@[k].date && all@[j].value
                == r@[k].values@[v],
{
    let day = r@[k].date;
    let keep = |x: DayReturn| x.value.finite() && x.date == day;
    let idx = order::lemma_filter_positions(all@, keep);
    let kept = all@.filter(keep);
    assert(r@[k].values@ == values_on(all@, day));
    if day == all@[i].date {
        assert(keep(all@[i]));
        let q = choose|q: int| 0 <= q < idx.len() && #[trigger] idx[q] == i;
        assert(r@[k].values@[q] == all@[i].value);
    }
    assert(bucket_days(r@).contains(all@[i].date));
    let q = choose|q: int| 0 <= q < bucket_days(r@).len() && bucket_days(r@)[q] == all@[i].date;
    assert(r@[q].date == all@[i].date);
    if 0 <= v < r@[k].values@.len() {
        assert(kept[v] == all@[idx[v]]);
        assert(keep(all@[idx[v]]));
        assert(r@[k].values@[v] == all@[idx[v]].value);
    }
}

/// A coefficient that was computed for two industries is found under their names.
pub proof fn coefficients_are_found_again(
    names: Vec<String>,
    rows: Vec<Vec<Option<Number>>>,
    pairs: Vec<CorrelationPair>,
    data: CorrelationData,
    a: &str,
    b: &str,
    r: Option<Number>,
    i: int,
    j: int,
)
    requires
        call_ensures(compute_correlation_matrix, (&names, &rows), pairs),
        call_ensures(CorrelationData::get_correlation, (&data, a, b), r),
        data.pairs@ == pairs@,
        order::strictly_sorted(text::texts(names@)),
        triangular(rows@, names@.len() as int),
        0 <= i < j < names@.len(),
        names@[i]@ == a@,
        names@[j]@ == b@,
    ensures
        rows@[i]@[j - i - 1] matches Some(x) ==> x.finite() ==> r == Some(x),
        rows@[i]@[j - i - 1] is None ==> r is None,
{
    computed_correlations_are_found(text::texts(names@), rows@, pairs@, i, j);
    assert(text::texts(names@)[i] == a@ && text::texts(names@)[j] == b@);
}

/// What is stored of pairs reads back as those pairs.
pub proof fn stored_pairs_read_back(
    pairs: Vec<CorrelationPair>,
    as_of: Date,
    rows: Vec<IndustryCorrelation>,
    back: Option<Vec<CorrelationPair>>,
    i: int,
)
    requires
        call_ensures(to_stored, (&pairs, as_of), rows),
        call_ensures(from_stored, (true, &rows), back),
        0 <= i < pairs@.len(),
    ensures
        back matches Some(v) && v@.len() == pairs@.len() && v@[i].a@ == pairs@[i].a@ && v@[i].b@
            == pairs@[i].b@ && v@[i].r == pairs@[i].r,
        rows@[i].industry_a@ == pairs@[i].a@,
        rows@[i].correlation == pairs@[i].r,
        rows@[i].date == as_of,
{
    let v = back->0;
    assert(same_pair(v@[i], rows@[i]));
    assert(same_pair(pairs@[i], rows@[i]));
}

/// Returns are compared over the 105 days before a date.
pub proof fn correlations_look_back_fifteen_weeks(as_of: Date, r: Date)
    requires
        as_of.days >= i32::MIN + 105,
        call_ensures(window_start, (as_of,), r),
    ensures
        as_of.days - r.days == 15 * 7,
{
}

/// Pairs are listed by the size of their correlation, whether it is positive or negative: its
/// encoding without the sign.
pub proof fn the_strongest_pairs_come_first(d: CorrelationData, p: Vec<usize>, j: int, k: int)
    requires
        call_ensures(CorrelationData::sorted_pairs, (&d,), p),
        0 <= j < k < p@.len(),
    ensures
        p@.len() == d.pairs@.len(),
        p@[j] < d.pairs@.len() && p@[k] < d.pairs@.len() && p@[j] != p@[k],
        d.pairs@[p@[j] as int].r.bits % 0x8000_0000_0000_0000 >= d.pairs@[p@[k] as int].r.bits
            % 0x8000_0000_0000_0000,
{
    let v = sizes(d.pairs@);
    assert(order::descends(v, p@[j] as int, p@[k] as int));
    assert(v[p@[j] as int].bits == d.pairs@[p@[j] as int].r.bits % 0x8000_0000_0000_0000);
    assert(v[p@[k] as int].bits == d.pairs@[p@[k] as int].r.bits % 0x8000_0000_0000_0000);
}

/// The returns found for an industry are its own, and they are found where there are some.
pub proof fn returns_are_found_under_their_industry(
    d: CorrelationData,
    industry: &str,
    r: Option<&IndustryReturns>,
    k: int,
)
    requires
        call_ensures(CorrelationData::returns_of_industry, (&d, industry), r),
    ensures
        r matches Some(x) ==> x.industry@ == industry@ && d.returns_of@.contains(*x),
        0 <= k < d.returns_of@.len() && d.returns_of@[k].industry@ == industry@ ==> r is Some,
{
    let args = (&d, industry);
    if 0 <= k < d.returns_of@.len() && d.returns_of@[k].industry@ == industry@ {
        assert(args.0.returns_of@[k].industry@ == industry@);
    }
}

/// Sixty days that two industries share are enough for a coefficient, and fewer are not.
pub proof fn sixty_shared_days_are_enough(
    a: Vec<DayReturn>,
    b: Vec<DayReturn>,
    r: Option<Sample>,
)
    requires
        call_ensures(pearson_from_date_maps, (&a, &b), r),
    ensures
        r is Some <==> shared(a@, b@, a@.len() as int).len() >= 60,
        r matches Some(s) ==> s.xs@.len() >= 60 && s.ys@.len() == s.xs@.len(),
{
}

} // verus!
