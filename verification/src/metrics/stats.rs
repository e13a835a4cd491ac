//! Drawdowns, daily returns and the random baseline of a simulated portfolio.
//!
//! Amounts are divided and averaged in floating point by the caller. Which days
//! are measured against which, where a drawdown starts, bottoms out and ends,
//! and which names a random portfolio holds are decided here.

use rand::rngs::StdRng;
use rand::seq::SliceRandom;
use rand::SeedableRng;
use vstd::prelude::*;
use vstd::string::*;

use crate::calendar::Date;
use crate::number::Number;
use crate::order;
use crate::text;

verus! {

/// Fewest snapshots that metrics can be computed from.
pub const MIN_SNAPSHOTS: usize = 2;

/// Whether a simulation is long enough for its metrics.
pub fn has_metrics(snapshots: usize) -> (r: bool)
    ensures
        r == (snapshots >= 2),
{
    snapshots >= MIN_SNAPSHOTS
}

/// The value before and after a day, where the first is greater than zero.
pub open spec fn day_step(values: Seq<Number>, i: int) -> Option<(Number, Number)> {
    if (Number { bits: 0 }).lt(values[i]) {
        Some((values[i], values[i + 1]))
    } else {
        None
    }
}

/// For each pair of neighbouring days, what the return is computed from; nothing where the
/// return is taken to be zero.
pub fn daily_returns_from_snapshots(values: &Vec<Number>) -> (r: Vec<Option<(Number, Number)>>)
    ensures
        r@.len() == (if values@.len() == 0 {
            0
        } else {
            values@.len() - 1
        }),
        forall|i: int| 0 <= i < r@.len() ==> (#[trigger] r@[i]) == day_step(values@, i),
{
    let mut out: Vec<Option<(Number, Number)>> = Vec::new();
    let mut i: usize = 1;
    while i < values.len()
        invariant
            1 <= i,
            values@.len() >= 1 ==> i <= values@.len(),
            values@.len() == 0 ==> i == 1,
            out@.len() == i - 1,
            forall|k: int| 0 <= k < out@.len() ==> (#[trigger] out@[k]) == day_step(values@, k),
        decreases values.len() - i,
    {
        let step: Option<(Number, Number)> = if Number::zero().is_lt(values[i - 1]) {
            Some((values[i - 1], values[i]))
        } else {
            None
        };
        out.push(step);
        i = i + 1;
    }
    out
}

// ── Drawdowns ────────────────────────────────────────────────────────────────

/// The last day up to `i` on which the value was at its highest so far.
pub open spec fn peak_day(values: Seq<Number>, i: int) -> int
    decreases i,
{
    if i <= 0 {
        0
    } else if values[peak_day(values, i - 1)].le(values[i]) {
        i
    } else {
        peak_day(values, i - 1)
    }
}

/// Whether the value of a day is as high as any before it.
pub open spec fn at_peak(values: Seq<Number>, i: int) -> bool {
    if i <= 0 {
        values[0].le(values[0])
    } else {
        values[peak_day(values, i - 1)].le(values[i])
    }
}

/// The first day from `i` on whose value is at a peak, or the number of days.
pub open spec fn recovery(values: Seq<Number>, i: int) -> int
    decreases values.len() - i,
{
    if i >= values.len() {
        values.len() as int
    } else if at_peak(values, i) {
        i
    } else {
        recovery(values, i + 1)
    }
}

/// The first of the deepest days from `i` to `e`.
pub open spec fn deepest(depths: Seq<Number>, i: int, e: int) -> int
    decreases e - i,
{
    if e <= i + 1 {
        i
    } else {
        let d = deepest(depths, i, e - 1);
        if depths[e - 1].lt(depths[d]) {
            e - 1
        } else {
            d
        }
    }
}

/// A fall from a peak, down to its trough, and back to a new peak.
#[derive(Clone, Copy, Debug)]
pub struct DrawdownPeriod {
    pub peak_date: Date,
    pub trough_date: Date,
    /// Nothing while the fall has not been made good.
    pub recovery_date: Option<Date>,
    /// The depth at the trough, a negative fraction.
    pub drawdown_pct: Number,
    pub recovery_days: Option<u64>,
}

/// The drawdown of the days from `i` on, none of them at a peak before `e`.
pub open spec fn period_of(
    dates: Seq<Date>,
    values: Seq<Number>,
    depths: Seq<Number>,
    i: int,
    e: int,
) -> DrawdownPeriod {
    let t = deepest(depths, i, e);
    DrawdownPeriod {
        peak_date: dates[peak_day(values, i)],
        trough_date: dates[t],
        recovery_date: if e < values.len() {
            Some(dates[e])
        } else {
            None
        },
        drawdown_pct: depths[t],
        recovery_days: if e < values.len() {
            Some((dates[e].days - dates[t].days) as i64 as u64)
        } else {
            None
        },
    }
}

/// The drawdowns that start on day `i` or later, in the order of time: each begins on the first
/// day below a peak and lasts to the next peak.
pub open spec fn periods_from(
    dates: Seq<Date>,
    values: Seq<Number>,
    depths: Seq<Number>,
    i: int,
) -> Seq<DrawdownPeriod>
    decreases values.len() - i, 1int,
    via periods_from_decreases
{
    if i >= values.len() {
        seq![]
    } else if at_peak(values, i) {
        periods_from(dates, values, depths, i + 1)
    } else {
        let e = recovery(values, i);
        seq![period_of(dates, values, depths, i, e)] + periods_from(dates, values, depths, e)
    }
}

#[via_fn]
proof fn periods_from_decreases(
    dates: Seq<Date>,
    values: Seq<Number>,
    depths: Seq<Number>,
    i: int,
) {
    lemma_recovery(values, i);
}

proof fn lemma_recovery(values: Seq<Number>, i: int)
    ensures
        i <= values.len() ==> i <= recovery(values, i) <= values.len(),
        i < values.len() && !at_peak(values, i) ==> i < recovery(values, i),
    decreases values.len() - i,
{
    if i < values.len() && !at_peak(values, i) {
        lemma_recovery(values, i + 1);
    }
}

/// The deepest of the first `n` days, zero where none is below a peak.
pub open spec fn worst(values: Seq<Number>, depths: Seq<Number>, n: int) -> Number
    decreases n,
{
    if n <= 0 {
        Number { bits: 0 }
    } else {
        let w = worst(values, depths, n - 1);
        if !at_peak(values, n - 1) && depths[n - 1].lt(w) {
            depths[n - 1]
        } else {
            w
        }
    }
}

/// The days that each day's value is measured against: the last peak up to that day.
pub fn peaks(values: &Vec<Number>) -> (r: Vec<usize>)
    ensures
        r@.len() == values@.len(),
        forall|i: int|
            0 <= i < r@.len() ==> (#[trigger] r@[i]) == peak_day(values@, i) && r@[i] <= i,
{
    let mut out: Vec<usize> = Vec::new();
    let mut i: usize = 0;
    let mut peak: usize = 0;
    while i < values.len()
        invariant
            i <= values.len(),
            peak <= i,
            i > 0 ==> peak < i && peak == peak_day(values@, i - 1),
            i == 0 ==> peak == 0,
            out@.len() == i,
            forall|k: int|
                0 <= k < i ==> (#[trigger] out@[k]) == peak_day(values@, k) && out@[k] <= k,
        decreases values.len() - i,
    {
        if i > 0 && values[peak].is_le(values[i]) {
            peak = i;
        }
        out.push(peak);
        i = i + 1;
    }
    out
}

/// Whether the value of a day is as high as any before it, given the days of the peaks.
fn is_at_peak(values: &Vec<Number>, peaks: &Vec<usize>, i: usize) -> (r: bool)
    requires
        i < values@.len(),
        peaks@.len() == values@.len(),
        forall|k: int|
            0 <= k < peaks@.len() ==> (#[trigger] peaks@[k]) == peak_day(values@, k) && peaks@[k]
                <= k,
    ensures
        r == at_peak(values@, i as int),
{
    if i == 0 {
        values[0].is_le(values[0])
    } else {
        values[peaks[i - 1]].is_le(values[i])
    }
}

/// The depths of drawdowns.
pub open spec fn depths_of(s: Seq<DrawdownPeriod>) -> Seq<i64> {
    s.map_values(|p: DrawdownPeriod| p.drawdown_pct.place() as i64)
}

/// The worst drawdown, and every drawdown from the deepest to the shallowest. `depths` holds for
/// each day how far its value stands below the last peak, as a fraction of the peak.
pub fn compute_drawdowns(dates: &Vec<Date>, values: &Vec<Number>, depths: &Vec<Number>) -> (r: (
    Number,
    Vec<DrawdownPeriod>,
))
    requires
        dates@.len() == values@.len(),
        depths@.len() == values@.len(),
    ensures
        r.0 == worst(values@, depths@, values@.len() as int),
        ({
            let all = periods_from(dates@, values@, depths@, 0);
            exists|p: Seq<usize>| #[trigger]
                order::is_stable_order(depths_of(all), p) && r.1@ == Seq::new(
                    p.len(),
                    |k: int| all[p[k] as int],
                )
        }),
{
    let tops: Vec<usize> = peaks(values);
    let mut found: Vec<DrawdownPeriod> = Vec::new();
    let ghost all = periods_from(dates@, values@, depths@, 0);
    let mut max_drawdown: Number = Number::zero();
    let mut i: usize = 0;
    while i < values.len()
        invariant
            i <= values.len(),
            dates@.len() == values@.len(),
            depths@.len() == values@.len(),
            tops@.len() == values@.len(),
            forall|k: int|
                0 <= k < tops@.len() ==> (#[trigger] tops@[k]) == peak_day(values@, k) && tops@[k]
                    <= k,
            max_drawdown == worst(values@, depths@, i as int),
            all == periods_from(dates@, values@, depths@, 0),
            all == found@ + periods_from(dates@, values@, depths@, i as int),
        decreases values.len() - i,
    {
        if is_at_peak(values, &tops, i) {
            i = i + 1;
        } else {
            let start: usize = i;
            let mut e: usize = i + 1;
            let mut t: usize = i;
            if depths[i].is_lt(max_drawdown) {
                max_drawdown = depths[i];
            }
            while e < values.len() && !is_at_peak(values, &tops, e)
                invariant
                    start < e <= values.len(),
                    dates@.len() == values@.len(),
                    depths@.len() == values@.len(),
                    tops@.len() == values@.len(),
                    forall|k: int|
                        0 <= k < tops@.len() ==> (#[trigger] tops@[k]) == peak_day(values@, k)
                            && tops@[k] <= k,
                    start <= t < e,
                    t == deepest(depths@, start as int, e as int),
                    max_drawdown == worst(values@, depths@, e as int),
                    recovery(values@, start as int) == recovery(values@, e as int),
                decreases values.len() - e,
            {
                if depths[e].is_lt(depths[t]) {
                    t = e;
                }
                if depths[e].is_lt(max_drawdown) {
                    max_drawdown = depths[e];
                }
                e = e + 1;
            }
            let recovered: bool = e < values.len();
            let back: Option<Date> = if recovered {
                Some(dates[e])
            } else {
                None
            };
            let days: Option<u64> = if recovered {
                Some(dates[e].days_since(dates[t]) as u64)
            } else {
                None
            };
            let period: DrawdownPeriod = DrawdownPeriod {
                peak_date: dates[tops[start]],
                trough_date: dates[t],
                recovery_date: back,
                drawdown_pct: depths[t],
                recovery_days: days,
            };
            proof {
                assert(recovery(values@, start as int) == e);
                assert(period == period_of(dates@, values@, depths@, start as int, e as int));
                let rest = periods_from(dates@, values@, depths@, e as int);
                assert(periods_from(dates@, values@, depths@, start as int) == seq![period] + rest);
                assert(found@ + (seq![period] + rest) =~= found@.push(period) + rest);
            }
            found.push(period);
            i = e;
        }
    }
    proof {
        assert(periods_from(dates@, values@, depths@, values@.len() as int) =~= seq![]);
        assert(all =~= found@);
    }
    let mut keys: Vec<i64> = Vec::new();
    let mut k: usize = 0;
    while k < found.len()
        invariant
            k <= found.len(),
            keys@.len() == k,
            forall|j: int|
                0 <= j < k ==> (#[trigger] keys@[j]) == found@[j].drawdown_pct.place() as i64,
        decreases found.len() - k,
    {
        keys.push(found[k].drawdown_pct.key());
        k = k + 1;
    }
    proof {
        assert(keys@ =~= depths_of(all));
    }
    let p: Vec<usize> = order::stable_order(&keys);
    let mut out: Vec<DrawdownPeriod> = Vec::new();
    let mut m: usize = 0;
    while m < p.len()
        invariant
            m <= p.len(),
            all == found@,
            order::is_stable_order(depths_of(all), p@),
            out@.len() == m,
            forall|j: int| 0 <= j < m ==> (#[trigger] out@[j]) == all[p@[j] as int],
        decreases p.len() - m,
    {
        proof {
            assert(p@[m as int] < depths_of(all).len());
        }
        out.push(found[p[m]]);
        m = m + 1;
    }
    proof {
        assert(out@ =~= Seq::new(p@.len(), |k: int| all[p@[k] as int]));
    }
    (max_drawdown, out)
}

/// A portfolio that never falls has no drawdown.
pub proof fn steady_growth_has_no_drawdown(
    dates: Seq<Date>,
    values: Seq<Number>,
    depths: Seq<Number>,
    i: int,
)
    requires
        forall|a: int, b: int|
            0 <= a <= b < values.len() ==> (#[trigger] values[a]).le(#[trigger] values[b]),
        0 <= i <= values.len(),
    ensures
        periods_from(dates, values, depths, i) == Seq::<DrawdownPeriod>::empty(),
        worst(values, depths, values.len() as int).bits == 0,
    decreases values.len() - i,
{
    lemma_always_at_peak(values, depths, values.len() as int);
    if i < values.len() {
        lemma_always_at_peak(values, depths, i);
        if i > 0 {
            assert(values[i - 1].le(values[i]));
        } else {
            assert(values[0].le(values[0]));
        }
        assert(at_peak(values, i));
        steady_growth_has_no_drawdown(dates, values, depths, i + 1);
    } else {
        assert(periods_from(dates, values, depths, i) =~= Seq::<DrawdownPeriod>::empty());
    }
}

proof fn lemma_always_at_peak(values: Seq<Number>, depths: Seq<Number>, n: int)
    requires
        forall|a: int, b: int|
            0 <= a <= b < values.len() ==> (#[trigger] values[a]).le(#[trigger] values[b]),
        0 <= n <= values.len(),
    ensures
        n > 0 ==> peak_day(values, n - 1) == n - 1,
        worst(values, depths, n).bits == 0,
    decreases n,
{
    if n > 0 {
        lemma_always_at_peak(values, depths, n - 1);
        if n > 1 {
            assert(values[n - 2].le(values[n - 1]));
        } else {
            assert(values[0].le(values[0]));
        }
    }
}

// ── Random baseline ──────────────────────────────────────────────────────────

/// The outside crate's standard random generator.
#[verifier::external_type_specification]
#[verifier::external_body]
pub struct ExStdRng(StdRng);

/// The state of a generator.
pub uninterp spec fn state_of(g: StdRng) -> nat;

/// The state that `StdRng::seed_from_u64` starts from.
pub uninterp spec fn seeded_state(seed: u64) -> nat;

/// What `SliceRandom::choose_multiple` picks from a slice in a state of the generator, and the
/// state that it leaves behind.
pub uninterp spec fn choice(state: nat, pool: Seq<usize>, amount: usize) -> (Seq<usize>, nat);

/// `StdRng::seed_from_u64`: the generator of a seed. The state depends on the seed alone; the
/// outside crate documents that it may change with the crate's version.
#[verifier::external_body]
fn seeded(seed: u64) -> (r: StdRng)
    ensures
        state_of(r) == seeded_state(seed),
{
    StdRng::seed_from_u64(seed)
}

/// `SliceRandom::choose_multiple`: elements of a slice at distinct positions, as many as asked for
/// or all where there are fewer. Which ones, and in what order, depends on the generator's state,
/// the slice and the amount alone; how, and how likely each choice is, is left unsaid.
#[verifier::external_body]
fn draw(g: &mut StdRng, pool: &Vec<usize>, amount: usize) -> (r: Vec<usize>)
    ensures
        r@ == choice(state_of(*old(g)), pool@, amount).0,
        state_of(*final(g)) == choice(state_of(*old(g)), pool@, amount).1,
        r@.len() == (if amount < pool@.len() {
            amount as nat
        } else {
            pool@.len()
        }),
        forall|i: int| 0 <= i < r@.len() ==> pool@.contains(#[trigger] r@[i]),
        pool@.no_duplicates() ==> r@.no_duplicates(),
{
    pool.choose_multiple(g, amount).cloned().collect()
}

/// Why no baseline can be drawn.
#[derive(Clone, Copy, Debug, PartialEq, Eq, Structural)]
pub enum Skipped {
    /// The strategy never held a position.
    HeldNothing,
    /// There are no more names than a portfolio holds.
    UniverseTooSmall { names: usize, size: usize },
}

impl Skipped {
    /// The reason in words.
    pub open spec fn words(self) -> Seq<char> {
        match self {
            Skipped::HeldNothing => "strategy held nothing"@,
            Skipped::UniverseTooSmall { names, size } => "universe of "@ + text::decimal(
                names as nat,
            ) + " names is not larger than the "@ + text::decimal(size as nat)
                + "-name portfolio"@,
        }
    }

    /// The reason in words.
    pub fn message(&self) -> (r: String)
        ensures
            r@ == self.words(),
    {
        match self {
            Skipped::HeldNothing => "strategy held nothing".to_owned(),
            Skipped::UniverseTooSmall { names, size } => {
                let mut s: String = "universe of ".to_owned();
                s.append(text::decimal_text(*names as u64).as_str());
                s.append(" names is not larger than the ");
                s.append(text::decimal_text(*size as u64).as_str());
                s.append("-name portfolio");
                s
            },
        }
    }
}

/// The sizes that are not zero.
pub open spec fn held_sizes(s: Seq<usize>) -> Seq<usize> {
    s.filter(|n: usize| n > 0)
}

/// `s` is in increasing order.
pub open spec fn increasing(s: Seq<usize>) -> bool {
    forall|i: int, j: int| 0 <= i <= j < s.len() ==> (#[trigger] s[i]) <= (#[trigger] s[j])
}

/// `k` is the upper median of `s`: the middle one once they are put in order.
pub open spec fn is_median(s: Seq<usize>, k: usize) -> bool {
    exists|t: Seq<usize>| #[trigger]
        increasing(t) && t.to_multiset() == s.to_multiset() && t.len() > 0 && k == t[(t.len() / 2) as int]
}

/// Puts a number into an increasing list.
fn insert_size(v: &mut Vec<usize>, n: usize)
    requires
        increasing(old(v)@),
    ensures
        increasing(final(v)@),
        final(v)@.to_multiset() == old(v)@.to_multiset().insert(n),
        final(v)@.len() == old(v)@.len() + 1,
{
    let ghost before = v@;
    let mut q: usize = v.len();
    while q > 0 && v[q - 1] > n
        invariant
            q <= v.len(),
            v@ == before,
            forall|i: int| q <= i < v@.len() ==> (#[trigger] v@[i]) > n,
        decreases q,
    {
        q = q - 1;
    }
    v.insert(q, n);
    proof {
        vstd::seq_lib::to_multiset_insert(before, q as int, n);
        assert forall|i: int, j: int| 0 <= i <= j < v@.len() implies (#[trigger] v@[i]) <= (
        #[trigger] v@[j]) by {
            let bi = if i < q { i } else { i - 1 };
            let bj = if j < q { j } else { j - 1 };
            if i < q && j == q {
                assert(before[i] <= before[q - 1]);
            } else if i == q && j > q {
                assert(before[bj] > n);
            } else if i != q && j != q {
                assert(before[bi] <= before[bj]);
            }
        }
    }
}

/// The typical size of a portfolio: the median of the numbers of positions, leaving out the days
/// on which it held none.
pub fn typical_size(sizes: &Vec<usize>) -> (r: Option<usize>)
    ensures
        match r {
            Some(k) => held_sizes(sizes@).len() > 0 && is_median(held_sizes(sizes@), k) && k > 0,
            None => held_sizes(sizes@).len() == 0,
        },
{
    broadcast use vstd::seq_lib::group_to_multiset_ensures;

    let mut sorted: Vec<usize> = Vec::new();
    let ghost held = |n: usize| n > 0;
    let mut i: usize = 0;
    proof {
        reveal(Seq::filter);
        assert(sizes@.take(0) =~= seq![]);
        assert(sorted@ =~= sizes@.take(0).filter(held));
    }
    while i < sizes.len()
        invariant
            i <= sizes.len(),
            held == (|n: usize| n > 0),
            increasing(sorted@),
            sorted@.to_multiset() == sizes@.take(i as int).filter(held).to_multiset(),
            sorted@.len() == sizes@.take(i as int).filter(held).len(),
        decreases sizes.len() - i,
    {
        broadcast use vstd::seq_lib::group_to_multiset_ensures;

        proof {
            reveal(Seq::filter);
            assert(sizes@.take(i + 1).drop_last() =~= sizes@.take(i as int));
            assert(sizes@.take(i + 1).last() == sizes@[i as int]);
        }
        if sizes[i] > 0 {
            insert_size(&mut sorted, sizes[i]);
        }
        i = i + 1;
    }
    proof {
        assert(sizes@.take(sizes@.len() as int) =~= sizes@);
    }
    if sorted.len() == 0 {
        return None;
    }
    let k: usize = sorted[sorted.len() / 2];
    proof {
        let kept = held_sizes(sizes@);
        assert(increasing(sorted@));
        assert(is_median(kept, k));
        assert(sorted@.contains(k));
        assert(sorted@.to_multiset().count(k) > 0);
        assert(kept.contains(k));
        broadcast use vstd::seq_lib::group_filter_ensures;

    }
    Some(k)
}

/// `p` lists the names whose return is finite, by name.
pub open spec fn is_pool(tickers: Seq<Seq<char>>, returns_of: Seq<Number>, p: Seq<usize>) -> bool {
    &&& forall|i: int|
        0 <= i < p.len() ==> (#[trigger] p[i]) < tickers.len() && returns_of[p[i] as int].finite()
    &&& forall|i: int, j: int|
        0 <= i < j < p.len() ==> order::text_lt(
            tickers[(#[trigger] p[i]) as int],
            tickers[(#[trigger] p[j]) as int],
        )
    &&& forall|m: int|
        0 <= m < tickers.len() && (#[trigger] returns_of[m]).finite() ==> exists|k: int|
            0 <= k < p.len() && #[trigger] p[k] == m
}

/// The names that random portfolios are drawn from: those with a finite return, by name, so that
/// a seed always gives the same portfolios.
pub fn pool(tickers: &Vec<String>, returns_of: &Vec<Number>) -> (r: Vec<usize>)
    requires
        tickers@.len() == returns_of@.len(),
        text::texts(tickers@).no_duplicates(),
    ensures
        is_pool(text::texts(tickers@), returns_of@, r@),
{
    let mut out: Vec<usize> = Vec::new();
    let mut n: usize = 0;
    let ghost names = text::texts(tickers@);
    while n < tickers.len()
        invariant
            n <= tickers.len(),
            names == text::texts(tickers@),
            tickers@.len() == returns_of@.len(),
            names.no_duplicates(),
            forall|i: int|
                0 <= i < out@.len() ==> (#[trigger] out@[i]) < n && returns_of@[out@[i] as int].finite(),
            forall|i: int, j: int|
                0 <= i < j < out@.len() ==> order::text_lt(
                    names[(#[trigger] out@[i]) as int],
                    names[(#[trigger] out@[j]) as int],
                ),
            forall|m: int|
                0 <= m < n && (#[trigger] returns_of@[m]).finite() ==> exists|k: int|
                    0 <= k < out@.len() && #[trigger] out@[k] == m,
        decreases tickers.len() - n,
    {
        if returns_of[n].is_finite() {
            let ghost before = out@;
            let mut q: usize = out.len();
            while q > 0 && order::is_text_lt(tickers[n].as_str(), tickers[out[q - 1]].as_str())
                invariant
                    q <= out.len(),
                    out@ == before,
                    n < tickers.len(),
                    names == text::texts(tickers@),
                    forall|i: int| 0 <= i < out@.len() ==> (#[trigger] out@[i]) < n,
                    forall|i: int|
                        q <= i < out@.len() ==> order::text_lt(
                            names[n as int],
                            names[(#[trigger] out@[i]) as int],
                        ),
                decreases q,
            {
                proof {
                    assert(names[n as int] == tickers@[n as int]@);
                    assert(names[out@[q - 1] as int] == tickers@[out@[q - 1] as int]@);
                }
                q = q - 1;
            }
            out.insert(q, n);
            proof {
                lemma_inserted(names, before, n, q as int);
                assert forall|m: int|
                    0 <= m < n + 1 && (#[trigger] returns_of@[m]).finite() implies exists|k: int|
                    0 <= k < out@.len() && #[trigger] out@[k] == m by {
                    if m == n {
                        assert(out@[q as int] == m);
                    } else {
                        let k = choose|k: int| 0 <= k < before.len() && #[trigger] before[k] == m;
                        if k < q {
                            assert(out@[k] == m);
                        } else {
                            assert(out@[k + 1] == m);
                        }
                    }
                }
                assert forall|i: int| 0 <= i < out@.len() implies (#[trigger] out@[i]) < n + 1
                    && returns_of@[out@[i] as int].finite() by {
                    if i < q {
                        assert(out@[i] == before[i]);
                    } else if i > q {
                        assert(out@[i] == before[i - 1]);
                    }
                }
            }
        }
        n = n + 1;
    }
    out
}

proof fn lemma_inserted(names: Seq<Seq<char>>, before: Seq<usize>, n: usize, q: int)
    requires
        n < names.len(),
        names.no_duplicates(),
        0 <= q <= before.len(),
        forall|i: int| 0 <= i < before.len() ==> (#[trigger] before[i]) < n,
        forall|i: int, j: int|
            0 <= i < j < before.len() ==> order::text_lt(
                names[(#[trigger] before[i]) as int],
                names[(#[trigger] before[j]) as int],
            ),
        forall|i: int|
            q <= i < before.len() ==> order::text_lt(
                names[n as int],
                names[(#[trigger] before[i]) as int],
            ),
        q > 0 ==> !order::text_lt(names[n as int], names[before[q - 1] as int]),
    ensures
        forall|i: int, j: int|
            0 <= i < j < before.insert(q, n).len() ==> order::text_lt(
                names[(#[trigger] before.insert(q, n)[i]) as int],
                names[(#[trigger] before.insert(q, n)[j]) as int],
            ),
{
    let after = before.insert(q, n);
    assert forall|i: int, j: int| 0 <= i < j < after.len() implies order::text_lt(
        names[(#[trigger] after[i]) as int],
        names[(#[trigger] after[j]) as int],
    ) by {
        if i == q {
            assert(after[j] == before[j - 1]);
        } else if j == q {
            assert(after[i] == before[i]);
            let last = names[before[q - 1] as int];
            order::lemma_text_le_total(names[n as int], last);
            assert(names[n as int] != last);
            assert(order::text_lt(last, names[n as int]));
            if i < q - 1 {
                assert(order::text_lt(names[before[i] as int], last));
                order::lemma_text_le_transitive(names[before[i] as int], last, names[n as int]);
                assert(names[before[i] as int] != names[n as int]);
            }
        } else {
            let bi = if i < q { i } else { i - 1 };
            let bj = if j < q { j } else { j - 1 };
            assert(after[i] == before[bi] && after[j] == before[bj]);
        }
    }
}

/// What a baseline is drawn from.
#[derive(Debug)]
pub struct Baseline {
    /// Names in a random portfolio.
    pub size: usize,
    /// Positions of the names to draw from.
    pub pool: Vec<usize>,
}

/// Whether `b` is what a baseline is drawn from: portfolios of the median size that was held, from
/// all the names with a finite return, of which there are more.
pub open spec fn is_plan(
    sizes: Seq<usize>,
    tickers: Seq<Seq<char>>,
    returns_of: Seq<Number>,
    b: Baseline,
) -> bool {
    &&& held_sizes(sizes).len() > 0
    &&& is_median(held_sizes(sizes), b.size)
    &&& is_pool(tickers, returns_of, b.pool@)
    &&& 0 < b.size < b.pool@.len()
}

/// The size of the random portfolios and the names they are drawn from, the whole universe rather
/// than the names the strategy held; nothing where every draw would be the same.
pub fn plan_baseline(sizes: &Vec<usize>, tickers: &Vec<String>, returns_of: &Vec<Number>) -> (r:
    Result<Baseline, Skipped>)
    requires
        tickers@.len() == returns_of@.len(),
        text::texts(tickers@).no_duplicates(),
    ensures
        match r {
            Ok(b) => is_plan(sizes@, text::texts(tickers@), returns_of@, b),
            Err(Skipped::HeldNothing) => held_sizes(sizes@).len() == 0,
            Err(Skipped::UniverseTooSmall { names, size }) => held_sizes(sizes@).len() > 0
                && is_median(held_sizes(sizes@), size) && names <= size && exists|p: Seq<usize>|
                #[trigger] is_pool(text::texts(tickers@), returns_of@, p) && p.len() == names,
        },
{
    match typical_size(sizes) {
        None => Err(Skipped::HeldNothing),
        Some(size) => {
            let names: Vec<usize> = pool(tickers, returns_of);
            if names.len() <= size {
                let ghost p = names@;
                assert(is_pool(text::texts(tickers@), returns_of@, p));
                Err(Skipped::UniverseTooSmall { names: names.len(), size })
            } else {
                Ok(Baseline { size, pool: names })
            }
        },
    }
}

/// The first `n` random portfolios from a state of the generator.
pub open spec fn portfolios(state: nat, pool: Seq<usize>, size: usize, n: int) -> Seq<Seq<usize>>
    decreases n,
{
    if n <= 0 {
        seq![]
    } else {
        portfolios(state, pool, size, n - 1).push(
            choice(state_after(state, pool, size, n - 1), pool, size).0,
        )
    }
}

/// The state of the generator after `n` portfolios.
pub open spec fn state_after(state: nat, pool: Seq<usize>, size: usize, n: int) -> nat
    decreases n,
{
    if n <= 0 {
        state
    } else {
        choice(state_after(state, pool, size, n - 1), pool, size).1
    }
}

/// What lists of numbers hold.
pub open spec fn lists(s: Seq<Vec<usize>>) -> Seq<Seq<usize>> {
    s.map_values(|v: Vec<usize>| v@)
}

/// Random portfolios, each of distinct names of the pool. The same seed gives the same portfolios.
pub fn draw_portfolios(b: &Baseline, n_simulations: usize, seed: u64) -> (r: Vec<Vec<usize>>)
    requires
        b.pool@.no_duplicates(),
        b.size <= b.pool@.len(),
    ensures
        lists(r@) == portfolios(seeded_state(seed), b.pool@, b.size, n_simulations as int),
        r@.len() == n_simulations,
        forall|i: int|
            0 <= i < r@.len() ==> (#[trigger] r@[i])@.len() == b.size && r@[i]@.no_duplicates(),
        forall|i: int, k: int|
            0 <= i < r@.len() && 0 <= k < r@[i]@.len() ==> b.pool@.contains(#[trigger] r@[i]@[k]),
{
    let mut g: StdRng = seeded(seed);
    let mut out: Vec<Vec<usize>> = Vec::new();
    let mut n: usize = 0;
    let ghost start = seeded_state(seed);
    proof {
        assert(lists(out@) =~= portfolios(start, b.pool@, b.size, 0));
    }
    while n < n_simulations
        invariant
            n <= n_simulations,
            b.pool@.no_duplicates(),
            b.size <= b.pool@.len(),
            out@.len() == n,
            state_of(g) == state_after(start, b.pool@, b.size, n as int),
            lists(out@) == portfolios(start, b.pool@, b.size, n as int),
            forall|i: int|
                0 <= i < out@.len() ==> (#[trigger] out@[i])@.len() == b.size
                    && out@[i]@.no_duplicates(),
            forall|i: int, k: int|
                0 <= i < out@.len() && 0 <= k < out@[i]@.len() ==> b.pool@.contains(
                    #[trigger] out@[i]@[k],
                ),
        decreases n_simulations - n,
    {
        let ghost before = out@;
        let names: Vec<usize> = draw(&mut g, &b.pool, b.size);
        let ghost drawn = names@;
        out.push(names);
        proof {
            assert(lists(out@) =~= lists(before).push(drawn));
        }
        n = n + 1;
    }
    out
}

/// A pool lists no name twice, so that portfolios drawn from it hold distinct names.
pub proof fn pools_are_distinct(tickers: Seq<Seq<char>>, returns_of: Seq<Number>, p: Seq<usize>)
    requires
        is_pool(tickers, returns_of, p),
    ensures
        p.no_duplicates(),
{
    assert forall|i: int, j: int| 0 <= i < p.len() && 0 <= j < p.len() && i != j implies p[i]
        != p[j] by {
        if i < j {
            assert(order::text_lt(tickers[p[i] as int], tickers[p[j] as int]));
        } else {
            assert(order::text_lt(tickers[p[j] as int], tickers[p[i] as int]));
        }
    }
}

/// The numbers as sorting keys.
pub open spec fn keys_of(s: Seq<Number>) -> Seq<i64> {
    s.map_values(|x: Number| x.place() as i64)
}

/// `s` holds the numbers of `v` in increasing order, equal ones as they stand.
pub open spec fn is_sorted_copy(v: Seq<Number>, s: Seq<Number>) -> bool {
    exists|p: Seq<usize>| #[trigger]
        order::is_stable_order(keys_of(v), p) && s == Seq::new(p.len(), |k: int| v[p[k] as int])
}

/// The numbers in increasing order.
pub fn sorted_numbers(v: &Vec<Number>) -> (r: Vec<Number>)
    ensures
        is_sorted_copy(v@, r@),
{
    let mut keys: Vec<i64> = Vec::new();
    let mut k: usize = 0;
    while k < v.len()
        invariant
            k <= v.len(),
            keys@.len() == k,
            forall|j: int| 0 <= j < k ==> (#[trigger] keys@[j]) == v@[j].place() as i64,
        decreases v.len() - k,
    {
        keys.push(v[k].key());
        k = k + 1;
    }
    proof {
        assert(keys@ =~= keys_of(v@));
    }
    let p: Vec<usize> = order::stable_order(&keys);
    let mut out: Vec<Number> = Vec::new();
    let mut m: usize = 0;
    while m < p.len()
        invariant
            m <= p.len(),
            order::is_stable_order(keys_of(v@), p@),
            out@.len() == m,
            forall|j: int| 0 <= j < m ==> (#[trigger] out@[j]) == v@[p@[j] as int],
        decreases p.len() - m,
    {
        proof {
            assert(p@[m as int] < keys_of(v@).len());
        }
        out.push(v[p[m]]);
        m = m + 1;
    }
    proof {
        assert(out@ =~= Seq::new(p@.len(), |k: int| v@[p@[k] as int]));
    }
    out
}

/// How many of the numbers are greater than `mark`.
pub fn count_beating(v: &Vec<Number>, mark: Number) -> (r: usize)
    ensures
        r == v@.filter(|x: Number| mark.lt(x)).len(),
{
    let mut n: usize = 0;
    let mut i: usize = 0;
    let ghost beats = |x: Number| mark.lt(x);
    proof {
        reveal(Seq::filter);
        assert(v@.take(0) =~= seq![]);
        assert(v@.take(0).filter(beats) =~= seq![]);
    }
    while i < v.len()
        invariant
            i <= v.len(),
            beats == (|x: Number| mark.lt(x)),
            n == v@.take(i as int).filter(beats).len(),
            n <= i,
        decreases v.len() - i,
    {
        proof {
            reveal(Seq::filter);
            assert(v@.take(i + 1).drop_last() =~= v@.take(i as int));
            assert(v@.take(i + 1).last() == v@[i as int]);
        }
        if mark.is_lt(v[i]) {
            n = n + 1;
        }
        i = i + 1;
    }
    proof {
        assert(v@.take(v@.len() as int) =~= v@);
    }
    n
}

/// The number at a position of a sorted list, the last one where the position lies beyond it, and
/// zero for an empty list.
pub fn percentile(sorted: &Vec<Number>, position: usize) -> (r: Number)
    ensures
        r == (if sorted@.len() == 0 {
            Number { bits: 0 }
        } else if position < sorted@.len() {
            sorted@[position as int]
        } else {
            sorted@.last()
        }),
{
    if sorted.len() == 0 {
        Number::zero()
    } else if position < sorted.len() {
        sorted[position]
    } else {
        sorted[sorted.len() - 1]
    }
}

/// The position in a sorted list of `n` numbers below which `percent` in a hundred lie, rounded to
/// the nearest.
pub open spec fn percent_position(percent: int, n: int) -> int {
    (percent * (n - 1) + 50) / 100
}

/// The number at a percentile of a sorted list, zero for an empty one.
pub open spec fn at_percent(s: Seq<Number>, percent: int) -> Number {
    if s.len() == 0 {
        Number { bits: 0 }
    } else {
        s[percent_position(percent, s.len() as int)]
    }
}

/// How the returns of random portfolios compare with that of the strategy.
#[derive(Clone, Copy, Debug, PartialEq, Eq, Structural)]
pub struct BaselineReturns {
    /// Only one in twenty returned less.
    pub percentile_5: Number,
    pub median: Number,
    /// Only one in twenty returned more.
    pub percentile_95: Number,
    /// How many returned more than the strategy.
    pub beat: usize,
}

/// Whether `r` is read from the sorted returns `s`.
pub open spec fn read_from(s: Seq<Number>, strategy: Number, r: BaselineReturns) -> bool {
    &&& r.percentile_5 == at_percent(s, 5)
    &&& r.median == at_percent(s, 50)
    &&& r.percentile_95 == at_percent(s, 95)
    &&& r.beat == s.filter(|x: Number| strategy.lt(x)).len()
}

/// Whether `r` is how the returns `v` of random portfolios compare with that of the strategy.
pub open spec fn compares(v: Seq<Number>, strategy: Number, r: BaselineReturns) -> bool {
    exists|s: Seq<Number>| #[trigger] is_sorted_copy(v, s) && read_from(s, strategy, r)
}

/// The number at a percentile of a sorted list.
fn pick_percent(sorted: &Vec<Number>, percent: u64) -> (r: Number)
    requires
        percent <= 100,
    ensures
        r == at_percent(sorted@, percent as int),
{
    if sorted.len() == 0 {
        return Number::zero();
    }
    let steps: u128 = (sorted.len() - 1) as u128;
    proof {
        assert(0 <= percent * steps <= 100 * steps) by (nonlinear_arith)
            requires
                0 <= percent <= 100,
                0 <= steps,
        ;
    }
    let position: u128 = (percent as u128 * steps + 50) / 100;
    proof {
        assert(position <= steps);
    }
    percentile(sorted, position as usize)
}

/// How the returns of random portfolios compare with that of the strategy.
pub fn baseline_returns(v: &Vec<Number>, strategy: Number) -> (r: BaselineReturns)
    ensures
        compares(v@, strategy, r),
{
    let sorted: Vec<Number> = sorted_numbers(v);
    let r: BaselineReturns = BaselineReturns {
        percentile_5: pick_percent(&sorted, 5),
        median: pick_percent(&sorted, 50),
        percentile_95: pick_percent(&sorted, 95),
        beat: count_beating(&sorted, strategy),
    };
    proof {
        assert(read_from(sorted@, strategy, r));
    }
    r
}

/// Of a sorted copy, an earlier number is not greater than a later one, and each is one of the
/// numbers.
proof fn lemma_sorted_copy(v: Seq<Number>, s: Seq<Number>, i: int, j: int)
    requires
        is_sorted_copy(v, s),
        0 <= i <= j < s.len(),
    ensures
        s.len() == v.len(),
        s[i].place() <= s[j].place(),
        v.contains(s[i]),
{
    let p = choose|p: Seq<usize>| #[trigger]
        order::is_stable_order(keys_of(v), p) && s == Seq::new(p.len(), |k: int| v[p[k] as int]);
    assert(p[i] < keys_of(v).len());
    assert(p[j] < keys_of(v).len());
    assert(v[p[i] as int] == s[i]);
    assert(keys_of(v)[p[i] as int] == s[i].place());
    assert(keys_of(v)[p[j] as int] == s[j].place());
    if i < j {
        assert(order::precedes(keys_of(v), p[i] as int, p[j] as int));
    }
}

/// The percentiles of random portfolios stand in order: one in twenty does not return more than the
/// median, nor the median more than nineteen in twenty. Each is the return of a portfolio, and no
/// more portfolios beat the strategy than there are.
pub proof fn percentiles_are_ordered(v: Seq<Number>, strategy: Number, r: BaselineReturns)
    requires
        compares(v, strategy, r),
    ensures
        r.percentile_5.place() <= r.median.place() <= r.percentile_95.place(),
        v.len() > 0 ==> v.contains(r.percentile_5) && v.contains(r.median) && v.contains(
            r.percentile_95,
        ),
        (forall|i: int| 0 <= i < v.len() ==> !(#[trigger] v[i]).nan()) ==> r.percentile_5.le(
            r.median,
        ) && r.median.le(r.percentile_95),
        r.beat <= v.len(),
{
    let s = choose|s: Seq<Number>| #[trigger]
        is_sorted_copy(v, s) && read_from(s, strategy, r);
    broadcast use vstd::seq_lib::group_filter_ensures;

    assert(s.filter(|x: Number| strategy.lt(x)).len() <= s.len());
    let p = choose|p: Seq<usize>| #[trigger]
        order::is_stable_order(keys_of(v), p) && s == Seq::new(p.len(), |k: int| v[p[k] as int]);
    assert(s.len() == v.len());
    if s.len() > 0 {
        let n = s.len() as int;
        let a = percent_position(5, n);
        let b = percent_position(50, n);
        let c = percent_position(95, n);
        assert(0 <= a <= b <= c < n);
        lemma_sorted_copy(v, s, a, b);
        lemma_sorted_copy(v, s, b, c);
        lemma_sorted_copy(v, s, c, c);
    }
}

/// The same returns always compare in the same way.
pub proof fn equal_returns_compare_equally(
    v: Seq<Number>,
    strategy: Number,
    a: BaselineReturns,
    b: BaselineReturns,
)
    requires
        compares(v, strategy, a),
        compares(v, strategy, b),
    ensures
        a == b,
{
    let s = choose|s: Seq<Number>| #[trigger]
        is_sorted_copy(v, s) && read_from(s, strategy, a);
    let t = choose|t: Seq<Number>| #[trigger]
        is_sorted_copy(v, t) && read_from(t, strategy, b);
    let p = choose|p: Seq<usize>| #[trigger]
        order::is_stable_order(keys_of(v), p) && s == Seq::new(p.len(), |k: int| v[p[k] as int]);
    let q = choose|q: Seq<usize>| #[trigger]
        order::is_stable_order(keys_of(v), q) && t == Seq::new(q.len(), |k: int| v[q[k] as int]);
    order::stable_order_is_unique(keys_of(v), p, q);
}

/// There is one median.
proof fn lemma_one_median(s: Seq<usize>, a: usize, b: usize)
    requires
        is_median(s, a),
        is_median(s, b),
    ensures
        a == b,
{
    let leq = |x: usize, y: usize| x <= y;
    let t = choose|t: Seq<usize>| #[trigger]
        increasing(t) && t.to_multiset() == s.to_multiset() && t.len() > 0 && a == t[(t.len()
            / 2) as int];
    let u = choose|u: Seq<usize>| #[trigger]
        increasing(u) && u.to_multiset() == s.to_multiset() && u.len() > 0 && b == u[(u.len()
            / 2) as int];
    assert(vstd::relations::sorted_by(t, leq));
    assert(vstd::relations::sorted_by(u, leq));
    assert(vstd::relations::total_ordering(leq));
    vstd::seq_lib::lemma_sorted_unique(t, u, leq);
}

/// The names of a pool.
spec fn pool_names(tickers: Seq<Seq<char>>, p: Seq<usize>) -> Seq<Seq<char>> {
    p.map_values(|i: usize| tickers[i as int])
}

/// There is one pool.
proof fn lemma_one_pool(
    tickers: Seq<Seq<char>>,
    returns_of: Seq<Number>,
    p: Seq<usize>,
    q: Seq<usize>,
)
    requires
        tickers.no_duplicates(),
        tickers.len() == returns_of.len(),
        is_pool(tickers, returns_of, p),
        is_pool(tickers, returns_of, q),
    ensures
        p == q,
{
    let a = pool_names(tickers, p);
    let b = pool_names(tickers, q);
    lemma_pool_names(tickers, returns_of, p, q);
    lemma_pool_names(tickers, returns_of, q, p);
    order::lemma_strictly_sorted_unique(a, b);
    assert forall|k: int| 0 <= k < p.len() implies p[k] == q[k] by {
        assert(a[k] == tickers[p[k] as int]);
        assert(b[k] == tickers[q[k] as int]);
    }
    assert(p =~= q);
}

/// The names of one pool are in order and stand in the other.
proof fn lemma_pool_names(
    tickers: Seq<Seq<char>>,
    returns_of: Seq<Number>,
    p: Seq<usize>,
    q: Seq<usize>,
)
    requires
        is_pool(tickers, returns_of, p),
        is_pool(tickers, returns_of, q),
    ensures
        order::strictly_sorted(pool_names(tickers, p)),
        forall|t: Seq<char>| #[trigger]
            pool_names(tickers, p).contains(t) ==> pool_names(tickers, q).contains(t),
{
    let a = pool_names(tickers, p);
    let b = pool_names(tickers, q);
    assert forall|t: Seq<char>| a.contains(t) implies b.contains(t) by {
        let k = choose|k: int| 0 <= k < a.len() && a[k] == t;
        assert(returns_of[p[k] as int].finite());
        let l = choose|l: int| 0 <= l < q.len() && #[trigger] q[l] == p[k];
        assert(b[l] == t);
    }
}

/// Equal arguments give equal baselines: the plan is fixed by the positions held and the returns of
/// the universe, and the portfolios by the plan and the seed.
pub proof fn baselines_are_reproducible(
    sizes: Seq<usize>,
    tickers: Seq<Seq<char>>,
    returns_of: Seq<Number>,
    a: Baseline,
    b: Baseline,
    seed: u64,
    n: int,
)
    requires
        tickers.no_duplicates(),
        tickers.len() == returns_of.len(),
        is_plan(sizes, tickers, returns_of, a),
        is_plan(sizes, tickers, returns_of, b),
    ensures
        a.size == b.size,
        a.pool@ == b.pool@,
        portfolios(seeded_state(seed), a.pool@, a.size, n) == portfolios(
            seeded_state(seed),
            b.pool@,
            b.size,
            n,
        ),
{
    lemma_one_median(held_sizes(sizes), a.size, b.size);
    lemma_one_pool(tickers, returns_of, a.pool@, b.pool@);
}

// ── What the figures mean ────────────────────────────────────────────────────

/// A daily return goes from a day's value to that of the next; a day that starts from nothing has
/// none.
pub proof fn daily_returns_go_forward(values: Vec<Number>, r: Vec<Option<(Number, Number)>>, i: int)
    requires
        call_ensures(daily_returns_from_snapshots, (&values,), r),
        0 <= i,
        i + 1 < values@.len(),
    ensures
        r@.len() == values@.len() - 1,
        0 < values@[i].bits <= 0x7FF0_0000_0000_0000 ==> r@[i] == Some((values@[i], values@[i + 1])),
        values@[i].bits == 0 ==> r@[i] is None,
{
    assert(r@[i] == day_step(values@, i));
}

proof fn lemma_peak(values: Seq<Number>, i: int, j: int)
    requires
        0 <= j <= i < values.len(),
        forall|k: int| 0 <= k < values.len() ==> !(#[trigger] values[k]).nan(),
    ensures
        0 <= peak_day(values, i) <= i,
        values[j].place() <= values[peak_day(values, i)].place(),
        peak_day(values, i) < j ==> values[j].place() < values[peak_day(values, i)].place(),
    decreases i,
{
    if i > 0 {
        assert(!values[i].nan());
        if j < i {
            lemma_peak(values, i - 1, j);
        } else {
            lemma_peak(values, i - 1, i - 1);
        }
        assert(!values[peak_day(values, i - 1)].nan());
    }
}

/// A day is measured against the highest value up to it, the latest day where there are several.
pub proof fn days_are_measured_against_the_highest_value(
    values: Vec<Number>,
    r: Vec<usize>,
    i: int,
    j: int,
)
    requires
        call_ensures(peaks, (&values,), r),
        0 <= j <= i < values@.len(),
        forall|k: int| 0 <= k < values@.len() ==> !(#[trigger] values@[k]).nan(),
    ensures
        r@[i] <= i,
        !values@[r@[i] as int].lt(values@[j]),
        r@[i] < j ==> values@[j].lt(values@[r@[i] as int]),
{
    lemma_peak(values@, i, j);
    assert(r@[i] == peak_day(values@, i));
    assert(!values@[r@[i] as int].nan() && !values@[j].nan());
}

proof fn lemma_worst(values: Seq<Number>, depths: Seq<Number>, n: int, i: int)
    requires
        0 <= i < n <= values.len(),
        values.len() == depths.len(),
        forall|k: int| 0 <= k < depths.len() ==> !(#[trigger] depths[k]).nan(),
    ensures
        !at_peak(values, i) ==> worst(values, depths, n).place() <= depths[i].place(),
        worst(values, depths, n).place() <= 0,
        !worst(values, depths, n).nan(),
        worst(values, depths, n).bits == 0 || exists|k: int|
            0 <= k < n && (#[trigger] depths[k]) == worst(values, depths, n),
    decreases n,
{
    assert(!depths[n - 1].nan());
    if n > 1 {
        if i < n - 1 {
            lemma_worst(values, depths, n - 1, i);
        } else {
            lemma_worst(values, depths, n - 1, 0);
        }
    } else {
        assert(worst(values, depths, 0).bits == 0);
    }
    let w = worst(values, depths, n - 1);
    if worst(values, depths, n) != w {
        assert(depths[n - 1] == worst(values, depths, n));
    }
}

/// The worst drawdown is the deepest that any day stood below a peak before it: no such day is
/// deeper, and it is the depth of some day.
pub proof fn the_worst_drawdown_is_the_deepest_day(
    dates: Vec<Date>,
    values: Vec<Number>,
    depths: Vec<Number>,
    r: (Number, Vec<DrawdownPeriod>),
    i: int,
    j: int,
)
    requires
        call_ensures(compute_drawdowns, (&dates, &values, &depths), r),
        dates@.len() == values@.len(),
        depths@.len() == values@.len(),
        0 <= j < i < values@.len(),
        values@[i].lt(values@[j]),
        forall|k: int| 0 <= k < depths@.len() ==> !(#[trigger] depths@[k]).nan(),
        forall|k: int| 0 <= k < values@.len() ==> !(#[trigger] values@[k]).nan(),
    ensures
        !depths@[i].lt(r.0),
        r.0.bits == 0 || exists|k: int| 0 <= k < depths@.len() && (#[trigger] depths@[k]) == r.0,
{
    lemma_peak(values@, i - 1, j);
    lemma_worst(values@, depths@, values@.len() as int, i);
    assert(!values@[peak_day(values@, i - 1)].nan());
    assert(!at_peak(values@, i));
    assert(!depths@[i].nan());
}

/// Drawdowns are listed from the deepest to the shallowest.
pub proof fn drawdowns_come_deepest_first(
    dates: Vec<Date>,
    values: Vec<Number>,
    depths: Vec<Number>,
    r: (Number, Vec<DrawdownPeriod>),
    i: int,
    j: int,
)
    requires
        call_ensures(compute_drawdowns, (&dates, &values, &depths), r),
        0 <= i < j < r.1@.len(),
    ensures
        r.1@[i].drawdown_pct.place() <= r.1@[j].drawdown_pct.place(),
{
    let all = periods_from(dates@, values@, depths@, 0);
    let p = choose|p: Seq<usize>| #[trigger]
        order::is_stable_order(depths_of(all), p) && r.1@ == Seq::new(
            p.len(),
            |k: int| all[p[k] as int],
        );
    let (a, b) = (p[i] as int, p[j] as int);
    assert(order::precedes(depths_of(all), a, b));
    assert(depths_of(all)[a] == all[a].drawdown_pct.place() as i64);
    assert(depths_of(all)[b] == all[b].drawdown_pct.place() as i64);
    assert(all[a] == r.1@[i] && all[b] == r.1@[j]);
}

/// Whether a drawdown runs from a peak over its deepest day back to a value as high: the peak is
/// the highest value up to the fall, no day in between is deeper than the trough, and the recovery
/// is the first value as high as the peak.
pub open spec fn falls_and_recovers(
    dates: Seq<Date>,
    values: Seq<Number>,
    depths: Seq<Number>,
    p: DrawdownPeriod,
) -> bool {
    exists|a: int, i: int, t: int, e: int|
        #![trigger values[a], depths[i], depths[t], dates[e]]
        {
            &&& 0 <= a < i <= t < e <= values.len()
            &&& p.peak_date == dates[a]
            &&& p.trough_date == dates[t]
            &&& p.drawdown_pct == depths[t]
            &&& forall|k: int| i <= k < e ==> !(#[trigger] depths[k]).lt(depths[t])
            &&& forall|k: int| i <= k < e ==> (#[trigger] values[k]).lt(values[a])
            &&& forall|k: int| 0 <= k < e ==> !values[a].lt(#[trigger] values[k])
            &&& e < values.len() ==> p.recovery_date == Some(dates[e]) && values[a].le(values[e])
            &&& e == values.len() ==> p.recovery_date is None && p.recovery_days is None
            &&& e < values.len() && dates[e].days >= dates[t].days ==> p.recovery_days == Some(
                (dates[e].days - dates[t].days) as u64,
            )
        }
}

proof fn lemma_deepest(depths: Seq<Number>, i: int, e: int, k: int)
    requires
        0 <= i <= k < e <= depths.len(),
        forall|q: int| 0 <= q < depths.len() ==> !(#[trigger] depths[q]).nan(),
    ensures
        i <= deepest(depths, i, e) < e,
        depths[deepest(depths, i, e)].place() <= depths[k].place(),
    decreases e - i,
{
    if e > i + 1 {
        assert(!depths[e - 1].nan());
        if k < e - 1 {
            lemma_deepest(depths, i, e - 1, k);
        } else {
            lemma_deepest(depths, i, e - 1, i);
        }
        assert(!depths[deepest(depths, i, e - 1)].nan());
    }
}

proof fn lemma_until_recovery(values: Seq<Number>, i: int, k: int)
    requires
        0 <= i <= k < values.len(),
        k < recovery(values, i),
    ensures
        !at_peak(values, k),
    decreases k - i,
{
    if i < k {
        lemma_until_recovery(values, i + 1, k);
    }
}

proof fn lemma_recovered(values: Seq<Number>, i: int)
    requires
        0 <= i <= values.len(),
    ensures
        recovery(values, i) < values.len() ==> at_peak(values, recovery(values, i)),
    decreases values.len() - i,
{
    if i < values.len() && !at_peak(values, i) {
        lemma_recovered(values, i + 1);
    }
}

proof fn lemma_peak_stays(values: Seq<Number>, i: int, k: int)
    requires
        0 < i <= k < values.len(),
        k < recovery(values, i),
    ensures
        peak_day(values, k) == peak_day(values, i - 1),
    decreases k - i,
{
    lemma_until_recovery(values, i, k);
    if i < k {
        lemma_recovery(values, i);
        lemma_peak_stays(values, i, k - 1);
    }
}

proof fn lemma_one_period(
    dates: Seq<Date>,
    values: Seq<Number>,
    depths: Seq<Number>,
    i: int,
)
    requires
        dates.len() == values.len(),
        depths.len() == values.len(),
        0 < i < values.len(),
        !at_peak(values, i),
        forall|q: int| 0 <= q < depths.len() ==> !(#[trigger] depths[q]).nan(),
        forall|q: int| 0 <= q < values.len() ==> !(#[trigger] values[q]).nan(),
    ensures
        falls_and_recovers(
            dates,
            values,
            depths,
            period_of(dates, values, depths, i, recovery(values, i)),
        ),
{
    let e = recovery(values, i);
    lemma_recovery(values, i);
    lemma_recovered(values, i);
    let a = peak_day(values, i - 1);
    let t = deepest(depths, i, e);
    lemma_deepest(depths, i, e, i);
    lemma_peak(values, i - 1, i - 1);
    lemma_peak_stays(values, i, i);
    lemma_peak_stays(values, i, e - 1);
    assert forall|k: int| i <= k < e implies !(#[trigger] depths[k]).lt(depths[t]) by {
        lemma_deepest(depths, i, e, k);
    }
    assert forall|k: int| 0 <= k < e implies !values[a].lt(#[trigger] values[k]) by {
        lemma_peak(values, e - 1, k);
    }
    assert forall|k: int| i <= k < e implies (#[trigger] values[k]).lt(values[a]) by {
        lemma_peak(values, e - 1, k);
        assert(!values[k].nan() && !values[a].nan());
    }
    let p = period_of(dates, values, depths, i, e);
    assert(p.peak_date == dates[a]);
    assert(0 <= a < i <= t < e <= values.len());
    if e < values.len() {
        assert(at_peak(values, e));
        assert(values[a].le(values[e]));
    }
    let (x, y, z, w) = (values[a], depths[i], depths[t], dates[e]);
    assert(falls_and_recovers(dates, values, depths, p));
}

proof fn lemma_periods(dates: Seq<Date>, values: Seq<Number>, depths: Seq<Number>, i: int)
    requires
        dates.len() == values.len(),
        depths.len() == values.len(),
        0 <= i <= values.len(),
        forall|q: int| 0 <= q < depths.len() ==> !(#[trigger] depths[q]).nan(),
        forall|q: int| 0 <= q < values.len() ==> !(#[trigger] values[q]).nan(),
    ensures
        forall|k: int|
            0 <= k < periods_from(dates, values, depths, i).len() ==> falls_and_recovers(
                dates,
                values,
                depths,
                #[trigger] periods_from(dates, values, depths, i)[k],
            ),
    decreases values.len() - i,
{
    if i < values.len() {
        let all = periods_from(dates, values, depths, i);
        if at_peak(values, i) {
            lemma_periods(dates, values, depths, i + 1);
            let rest = periods_from(dates, values, depths, i + 1);
            assert(all == rest);
            assert forall|k: int| 0 <= k < all.len() implies falls_and_recovers(
                dates,
                values,
                depths,
                #[trigger] all[k],
            ) by {
                assert(all[k] == rest[k]);
            }
        } else {
            assert(!values[0].nan());
            assert(i > 0);
            lemma_one_period(dates, values, depths, i);
            lemma_recovery(values, i);
            let e = recovery(values, i);
            lemma_periods(dates, values, depths, e);
            let rest = periods_from(dates, values, depths, e);
            assert(all == seq![period_of(dates, values, depths, i, e)] + rest);
            assert forall|k: int| 0 <= k < all.len() implies falls_and_recovers(
                dates,
                values,
                depths,
                #[trigger] all[k],
            ) by {
                if k > 0 {
                    assert(all[k] == rest[k - 1]);
                }
            }
        }
    }
}

/// Every drawdown that is listed falls from a peak and recovers as its dates say.
pub proof fn drawdowns_run_from_peak_to_recovery(
    dates: Vec<Date>,
    values: Vec<Number>,
    depths: Vec<Number>,
    r: (Number, Vec<DrawdownPeriod>),
    k: int,
)
    requires
        call_ensures(compute_drawdowns, (&dates, &values, &depths), r),
        dates@.len() == values@.len(),
        depths@.len() == values@.len(),
        0 <= k < r.1@.len(),
        forall|q: int| 0 <= q < depths@.len() ==> !(#[trigger] depths@[q]).nan(),
        forall|q: int| 0 <= q < values@.len() ==> !(#[trigger] values@[q]).nan(),
    ensures
        falls_and_recovers(dates@, values@, depths@, r.1@[k]),
{
    lemma_periods(dates@, values@, depths@, 0);
    let all = periods_from(dates@, values@, depths@, 0);
    let p = choose|p: Seq<usize>| #[trigger]
        order::is_stable_order(depths_of(all), p) && r.1@ == Seq::new(
            p.len(),
            |k: int| all[p[k] as int],
        );
    assert(p[k] < all.len());
    assert(r.1@[k] == all[p[k] as int]);
}

// ── The baseline through its functions ───────────────────────────────────────

/// Names with a known return form the pool, all of them and in increasing order.
pub proof fn the_pool_holds_every_name_with_a_return(
    tickers: Vec<String>,
    returns_of: Vec<Number>,
    r: Vec<usize>,
    m: int,
    i: int,
)
    requires
        tickers@.len() == returns_of@.len(),
        text::texts(tickers@).no_duplicates(),
        call_ensures(pool, (&tickers, &returns_of), r),
    ensures
        0 <= m < tickers@.len() && returns_of@[m].bits % 0x8000_0000_0000_0000
            < 0x7FF0_0000_0000_0000 ==> exists|k: int|
            0 <= k < r@.len() && #[trigger] r@[k] == m,
        0 <= i < r@.len() ==> r@[i] < tickers@.len() && returns_of@[r@[i] as int].bits
            % 0x8000_0000_0000_0000 < 0x7FF0_0000_0000_0000,
        0 <= i < r@.len() - 1 ==> order::text_lt(
            tickers@[r@[i] as int]@,
            tickers@[r@[i + 1] as int]@,
        ),
{
    let t = text::texts(tickers@);
    let args = (&tickers, &returns_of);
    assert(is_pool(text::texts(args.0@), args.1@, r@));
    if 0 <= m < tickers@.len() {
        assert(args.1@[m] == returns_of@[m]);
    }
    if 0 <= i < r@.len() {
        assert(r@[i] < t.len());
    }
    if 0 <= i < r@.len() - 1 {
        assert(order::text_lt(t[r@[i] as int], t[r@[i + 1] as int]));
        assert(r@[i + 1] < t.len());
    }
}

/// A baseline draws from the pool portfolios of the typical size, and is skipped where the strategy
/// held nothing or the pool has no more names than that.
pub proof fn baselines_draw_the_typical_size_from_the_pool(
    sizes: Vec<usize>,
    tickers: Vec<String>,
    returns_of: Vec<Number>,
    size: Option<usize>,
    p: Vec<usize>,
    r: Result<Baseline, Skipped>,
)
    requires
        tickers@.len() == returns_of@.len(),
        text::texts(tickers@).no_duplicates(),
        call_ensures(typical_size, (&sizes,), size),
        call_ensures(pool, (&tickers, &returns_of), p),
        call_ensures(plan_baseline, (&sizes, &tickers, &returns_of), r),
    ensures
        size is None ==> r is Err,
        size matches Some(k) ==> (r is Ok <==> k < p@.len()),
        r matches Ok(b) ==> size == Some(b.size) && b.pool@ == p@,
{
    let t = text::texts(tickers@);
    let h = held_sizes(sizes@);
    let args = (&tickers, &returns_of);
    assert(is_pool(text::texts(args.0@), args.1@, p@));
    match r {
        Ok(b) => {
            lemma_one_median(h, b.size, size->0);
            lemma_one_pool(t, returns_of@, b.pool@, p@);
        },
        Err(Skipped::UniverseTooSmall { names, size: k }) => {
            lemma_one_median(h, k, size->0);
            let q = choose|q: Seq<usize>| #[trigger]
                is_pool(t, returns_of@, q) && q.len() == names;
            lemma_one_pool(t, returns_of@, q, p@);
        },
        Err(Skipped::HeldNothing) => {},
    }
}

/// The typical size is that of a period in which something was held; no more than half of these
/// periods held fewer names and no more than half held more.
pub proof fn the_typical_size_is_the_median(sizes: Vec<usize>, r: Option<usize>)
    requires
        call_ensures(typical_size, (&sizes,), r),
    ensures
        r is None <==> forall|i: int| 0 <= i < sizes@.len() ==> (#[trigger] sizes@[i]) == 0,
        r matches Some(k) ==> k > 0 && sizes@.contains(k),
        r matches Some(k) ==> {
            let held = sizes@.filter(|n: usize| n > 0);
            exists|t: Seq<usize>|
                #![trigger t.to_multiset()]
                t.to_multiset() == held.to_multiset() && t.len() == held.len() && (forall|
                    i: int,
                    j: int,
                |
                    0 <= i <= j < t.len() ==> (#[trigger] t[i]) <= (#[trigger] t[j])) && t[(t.len()
                    / 2) as int] == k
        },
{
    let keep = |n: usize| n > 0;
    let held = sizes@.filter(keep);
    let idx = order::lemma_filter_positions(sizes@, keep);
    assert(held == held_sizes(sizes@));
    if r is None {
        assert forall|i: int| 0 <= i < sizes@.len() implies (#[trigger] sizes@[i]) == 0 by {
            if sizes@[i] > 0 {
                assert(keep(sizes@[i]));
                let k = choose|k: int| 0 <= k < idx.len() && #[trigger] idx[k] == i;
            }
        }
    } else {
        let k = r->0;
        let t = choose|t: Seq<usize>| #[trigger]
            increasing(t) && t.to_multiset() == held.to_multiset() && t.len() > 0 && k == t[(
            t.len() / 2) as int];
        t.to_multiset_ensures();
        held.to_multiset_ensures();
        assert(t.len() == held.len());
        assert(t.contains(k));
        assert(held.to_multiset().count(k) > 0);
        assert(held.contains(k));
        let j = choose|j: int| 0 <= j < held.len() && held[j] == k;
        assert(sizes@[idx[j]] == k);
    }
}

/// Random portfolios beat the strategy where they return more than it; the percentiles given are
/// returns of portfolios, those at a twentieth, the middle and nineteen twentieths of the way from
/// the lowest to the highest.
pub proof fn percentiles_stand_at_their_place(
    v: Vec<Number>,
    strategy: Number,
    sorted: Vec<Number>,
    r: BaselineReturns,
    n: int,
)
    requires
        call_ensures(baseline_returns, (&v, strategy), r),
        call_ensures(sorted_numbers, (&v,), sorted),
        n == v@.len(),
        n > 0,
    ensures
        sorted@.len() == n,
        forall|i: int, j: int|
            0 <= i <= j < n ==> (#[trigger] sorted@[i]).place() <= (#[trigger] sorted@[j]).place(),
        r.percentile_5 == sorted@[(5 * (n - 1) + 50) / 100],
        r.median == sorted@[n / 2],
        r.percentile_95 == sorted@[(95 * (n - 1) + 50) / 100],
{
    let s = choose|s: Seq<Number>| #[trigger]
        is_sorted_copy(v@, s) && read_from(s, strategy, r);
    let p = choose|p: Seq<usize>| #[trigger]
        order::is_stable_order(keys_of(v@), p) && s == Seq::new(p.len(), |k: int| v@[p[k] as int]);
    let q = choose|q: Seq<usize>| #[trigger]
        order::is_stable_order(keys_of(v@), q) && sorted@ == Seq::new(
            q.len(),
            |k: int| v@[q[k] as int],
        );
    order::stable_order_is_unique(keys_of(v@), p, q);
    assert(s =~= sorted@);
    assert forall|i: int, j: int| 0 <= i <= j < n implies (#[trigger] sorted@[i]).place() <= (
    #[trigger] sorted@[j]).place() by {
        lemma_sorted_copy(v@, sorted@, i, j);
    }
    assert((50 * (n - 1) + 50) / 100 == n / 2);
}

} // verus!
