//! Date-sorted price series.
//!
//! Every accessor is explicit about which side of a date it may return:
//!
//!   * `on_or_before` gives the last bar that was known at a date;
//!   * `strictly_after` gives the next bar that can be traded on.
//!
//! No accessor mixes the two.

use vstd::prelude::*;
use vstd::slice::slice_subrange;

use crate::calendar::Date;
use crate::data::source::PriceBar;
use crate::number::Number;
use crate::text;

verus! {

// ── Series ───────────────────────────────────────────────────────────────────

/// Bars in strictly increasing order of date.
pub open spec fn dates_increase(s: Seq<PriceBar>) -> bool {
    forall|i: int, j: int|
        0 <= i < j < s.len() ==> (#[trigger] s[i]).date.days < (#[trigger] s[j]).date.days
}

/// A usable bar has a finite, positive adjusted close.
pub open spec fn usable(b: PriceBar) -> bool {
    b.adj_close.positive()
}

/// The bar that counts for a day: the last usable one dated that day.
pub open spec fn last_usable_on(s: Seq<PriceBar>, day: int) -> Option<PriceBar>
    decreases s.len(),
{
    if s.len() == 0 {
        None
    } else if s.last().date.days == day && usable(s.last()) {
        Some(s.last())
    } else {
        last_usable_on(s.drop_last(), day)
    }
}

/// Whether the series `s` has the bar `b` for the day `day`, or none.
pub open spec fn holds_on(s: Seq<PriceBar>, day: int, b: Option<PriceBar>) -> bool {
    match b {
        Some(bar) => s.contains(bar) && bar.date.days == day,
        None => forall|i: int| 0 <= i < s.len() ==> (#[trigger] s[i]).date.days != day,
    }
}

/// Number of bars dated on or before `day`, in a series with increasing dates.
pub open spec fn through(s: Seq<PriceBar>, day: int) -> int
    decreases s.len(),
{
    if s.len() == 0 {
        0
    } else if s.last().date.days <= day {
        s.len() as int
    } else {
        through(s.drop_last(), day)
    }
}

/// The bar dated exactly `day`.
pub open spec fn bar_on(s: Seq<PriceBar>, day: int) -> Option<PriceBar> {
    let k = through(s, day);
    if k > 0 && s[k - 1].date.days == day {
        Some(s[k - 1])
    } else {
        None
    }
}

/// The latest bar dated on or before `day`.
pub open spec fn bar_through(s: Seq<PriceBar>, day: int) -> Option<PriceBar> {
    let k = through(s, day);
    if k > 0 {
        Some(s[k - 1])
    } else {
        None
    }
}

/// `through` splits a series at a date.
pub proof fn lemma_through(s: Seq<PriceBar>, day: int)
    requires
        dates_increase(s),
    ensures
        0 <= through(s, day) <= s.len(),
        forall|i: int| 0 <= i < through(s, day) ==> (#[trigger] s[i]).date.days <= day,
        forall|i: int| through(s, day) <= i < s.len() ==> (#[trigger] s[i]).date.days > day,
    decreases s.len(),
{
    if s.len() > 0 && s.last().date.days > day {
        assert(dates_increase(s.drop_last()));
        lemma_through(s.drop_last(), day);
        assert forall|i: int| 0 <= i < through(s, day) implies (#[trigger] s[i]).date.days
            <= day by {
            assert(s.drop_last()[i] == s[i]);
        }
        assert forall|i: int| through(s, day) <= i < s.len() implies (#[trigger] s[i]).date.days
            > day by {
            if i < s.len() - 1 {
                assert(s.drop_last()[i] == s[i]);
            }
        }
    } else if s.len() > 0 {
        assert forall|i: int| 0 <= i < s.len() implies (#[trigger] s[i]).date.days <= day by {
            if i < s.len() - 1 {
                assert(s[i].date.days < s[s.len() - 1].date.days);
            }
        }
    }
}

/// A price series: usable bars, one per date, in order of date.
#[derive(Debug)]
pub struct PriceSeries {
    bars: Vec<PriceBar>,
}

impl View for PriceSeries {
    type V = Seq<PriceBar>;

    closed spec fn view(&self) -> Seq<PriceBar> {
        self.bars@
    }
}

impl PriceSeries {
    #[verifier::type_invariant]
    closed spec fn well_formed(&self) -> bool {
        dates_increase(self.bars@) && forall|i: int|
            0 <= i < self.bars.len() ==> usable(#[trigger] self.bars[i])
    }

    /// Number of bars dated before `date`.
    fn before(&self, date: Date) -> (r: usize)
        ensures
            r <= self@.len(),
            r == through(self@, date.days - 1),
            forall|i: int| 0 <= i < r ==> (#[trigger] self@[i]).date.days < date.days,
            forall|i: int| r <= i < self@.len() ==> (#[trigger] self@[i]).date.days >= date.days,
    {
        proof {
            use_type_invariant(self);
        }
        let r: usize = lower_bound(&self.bars, date);
        proof {
            lemma_through(self@, date.days - 1);
            let t = through(self@, date.days - 1);
            if t < r {
                assert(self@[t].date.days > date.days - 1);
            } else if r < t {
                assert(self@[r as int].date.days <= date.days - 1);
            }
        }
        r
    }

    /// Number of bars dated on or before `date`.
    fn upto(&self, date: Date) -> (r: usize)
        ensures
            r <= self@.len(),
            r == through(self@, date.days as int),
            forall|i: int| 0 <= i < r ==> (#[trigger] self@[i]).date.days <= date.days,
            forall|i: int| r <= i < self@.len() ==> (#[trigger] self@[i]).date.days > date.days,
    {
        proof {
            use_type_invariant(self);
        }
        let r: usize = upper_bound(&self.bars, date);
        proof {
            lemma_through(self@, date.days as int);
            let t = through(self@, date.days as int);
            if t < r {
                assert(self@[t].date.days > date.days);
            } else if r < t {
                assert(self@[r as int].date.days <= date.days);
            }
        }
        r
    }

    /// The series of the usable bars of `bars`: sorted by date, and where a date occurs more
    /// than once the last bar given for it counts.
    pub fn new(bars: Vec<PriceBar>) -> (r: PriceSeries)
        ensures
            dates_increase(r@),
            forall|day: int| holds_on(r@, day, #[trigger] last_usable_on(bars@, day)),
    {
        let mut out: Vec<PriceBar> = Vec::new();
        let mut n: usize = 0;
        proof {
            assert forall|day: int| holds_on(
                out@,
                day,
                #[trigger] last_usable_on(bars@.take(0), day),
            ) by {}
        }
        while n < bars.len()
            invariant
                n <= bars.len(),
                dates_increase(out@),
                forall|i: int| 0 <= i < out.len() ==> usable(#[trigger] out[i]),
                forall|day: int|
                    holds_on(out@, day, #[trigger] last_usable_on(bars@.take(n as int), day)),
            decreases bars.len() - n,
        {
            let b: PriceBar = bars[n];
            let ghost before = out@;
            proof {
                assert(bars@.take(n + 1).drop_last() =~= bars@.take(n as int));
                assert(bars@.take(n + 1).last() == b);
            }
            if b.adj_close.is_positive() {
                put(&mut out, b);
                proof {
                    assert forall|day: int| holds_on(
                        out@,
                        day,
                        #[trigger] last_usable_on(bars@.take(n + 1), day),
                    ) by {
                        let old_bar = last_usable_on(bars@.take(n as int), day);
                        assert(holds_on(before, day, old_bar));
                        if day != b.date.days && old_bar is None {
                            assert forall|i: int| 0 <= i < out.len() implies (
                            #[trigger] out@[i]).date.days != day by {
                                assert(out@.contains(out@[i]));
                                if out@[i].date.days == day {
                                    assert(before.contains(out@[i]));
                                }
                            }
                        }
                    }
                }
            } else {
                proof {
                    assert forall|day: int| holds_on(
                        out@,
                        day,
                        #[trigger] last_usable_on(bars@.take(n + 1), day),
                    ) by {
                        assert(last_usable_on(bars@.take(n + 1), day) == last_usable_on(
                            bars@.take(n as int),
                            day,
                        ));
                    }
                }
            }
            n = n + 1;
        }
        proof {
            assert(bars@.take(bars.len() as int) =~= bars@);
        }
        PriceSeries { bars: out }
    }

    /// Number of bars.
    pub fn len(&self) -> (r: usize)
        ensures
            r == self@.len(),
    {
        self.bars.len()
    }

    /// Whether there is no bar.
    pub fn is_empty(&self) -> (r: bool)
        ensures
            r == (self@.len() == 0),
    {
        self.bars.len() == 0
    }

    /// The bars, in order of date.
    pub fn bars(&self) -> (r: &Vec<PriceBar>)
        ensures
            r@ == self@,
            dates_increase(r@),
            forall|i: int| 0 <= i < r.len() ==> usable(#[trigger] r[i]),
    {
        proof {
            use_type_invariant(self);
        }
        &self.bars
    }

    /// Date of the first bar.
    pub fn first_date(&self) -> (r: Option<Date>)
        ensures
            r == (if self@.len() == 0 {
                None
            } else {
                Some(self@.first().date)
            }),
    {
        if self.bars.len() == 0 {
            None
        } else {
            Some(self.bars[0].date)
        }
    }

    /// Date of the last bar.
    pub fn last_date(&self) -> (r: Option<Date>)
        ensures
            r == (if self@.len() == 0 {
                None
            } else {
                Some(self@.last().date)
            }),
    {
        if self.bars.len() == 0 {
            None
        } else {
            Some(self.bars[self.bars.len() - 1].date)
        }
    }

    /// The bar dated exactly `date`, if the market traded that day.
    pub fn on(&self, date: Date) -> (r: Option<&PriceBar>)
        ensures
            match r {
                Some(b) => self@.contains(*b) && b.date == date && bar_on(self@, date.days as int)
                    == Some(*b),
                None => (forall|i: int|
                    0 <= i < self@.len() ==> (#[trigger] self@[i]).date != date) && bar_on(
                    self@,
                    date.days as int,
                ) is None,
            },
    {
        let i: usize = self.before(date);
        proof {
            use_type_invariant(self);
            lemma_through(self@, date.days as int);
            let k = through(self@, date.days as int);
            if k > 0 && i < k - 1 {
                assert(self@[i as int].date.days < self@[k - 1].date.days);
            }
            if k > 0 && i > k - 1 {
                assert(self@[k - 1].date.days < date.days);
            }
        }
        if i < self.bars.len() && self.bars[i].date.days == date.days {
            proof {
                assert(self@[i as int] == self.bars[i as int]);
            }
            Some(&self.bars[i])
        } else {
            proof {
                use_type_invariant(self);
                assert forall|j: int| 0 <= j < self@.len() implies (#[trigger] self@[j]).date
                    != date by {
                    if j > i {
                        assert(self@[i as int].date.days < self@[j].date.days);
                    }
                }
            }
            None
        }
    }

    /// The latest bar dated on or before `date`.
    pub fn on_or_before(&self, date: Date) -> (r: Option<&PriceBar>)
        ensures
            match r {
                Some(b) => self@.contains(*b) && b.date.days <= date.days && forall|i: int|
                    0 <= i < self@.len() && (#[trigger] self@[i]).date.days <= date.days
                        ==> self@[i].date.days <= b.date.days,
                None => forall|i: int|
                    0 <= i < self@.len() ==> (#[trigger] self@[i]).date.days > date.days,
            },
            r matches Some(b) ==> usable(*b),
            match r {
                Some(b) => bar_through(self@, date.days as int) == Some(*b),
                None => bar_through(self@, date.days as int) is None,
            },
    {
        let i: usize = self.upto(date);
        if i == 0 {
            None
        } else {
            proof {
                use_type_invariant(self);
                assert(self@[i - 1] == self.bars[i - 1]);
                assert forall|j: int|
                    0 <= j < self@.len() && (#[trigger] self@[j]).date.days <= date.days implies
                    self@[j].date.days <= self@[i - 1].date.days by {
                    if j < i - 1 {
                        assert(self@[j].date.days < self@[i - 1].date.days);
                    }
                }
            }
            Some(&self.bars[i - 1])
        }
    }

    /// The first bar dated after `date`: the next bar that can be traded on.
    pub fn strictly_after(&self, date: Date) -> (r: Option<&PriceBar>)
        ensures
            match r {
                Some(b) => self@.contains(*b) && b.date.days > date.days && forall|i: int|
                    0 <= i < self@.len() && (#[trigger] self@[i]).date.days > date.days
                        ==> self@[i].date.days >= b.date.days,
                None => forall|i: int|
                    0 <= i < self@.len() ==> (#[trigger] self@[i]).date.days <= date.days,
            },
    {
        let i: usize = self.upto(date);
        if i < self.bars.len() {
            proof {
                use_type_invariant(self);
                assert(self@[i as int] == self.bars[i as int]);
                assert forall|j: int|
                    0 <= j < self@.len() && (#[trigger] self@[j]).date.days > date.days implies
                    self@[j].date.days >= self@[i as int].date.days by {
                    if j > i {
                        assert(self@[i as int].date.days < self@[j].date.days);
                    }
                }
            }
            Some(&self.bars[i])
        } else {
            None
        }
    }

    /// Position of the first bar dated after `date`, or the number of bars.
    pub fn next_index(&self, date: Date) -> (r: usize)
        ensures
            r == through(self@, date.days as int),
            r <= self@.len(),
    {
        self.upto(date)
    }

    /// All bars from `from` through `to`, both days included.
    pub fn window(&self, from: Date, to: Date) -> (r: &[PriceBar])
        ensures
            dates_increase(r@),
            forall|b: PriceBar|
                r@.contains(b) <==> self@.contains(b) && from.days <= b.date.days <= to.days,
    {
        let lo: usize = self.before(from);
        let hi: usize = self.upto(to);
        proof {
            use_type_invariant(self);
        }
        if lo >= hi {
            proof {
                assert forall|b: PriceBar| self@.contains(b) implies !(from.days <= b.date.days
                    <= to.days) by {
                    let k = choose|k: int| 0 <= k < self@.len() && self@[k] == b;
                    assert(self@[k] == b);
                }
            }
            slice_subrange(self.bars.as_slice(), 0, 0)
        } else {
            let r: &[PriceBar] = slice_subrange(self.bars.as_slice(), lo, hi);
            proof {
                assert forall|b: PriceBar|
                    r@.contains(b) <==> self@.contains(b) && from.days <= b.date.days
                        <= to.days by {
                    if self@.contains(b) && from.days <= b.date.days <= to.days {
                        let k = choose|k: int| 0 <= k < self@.len() && self@[k] == b;
                        assert(self@[k] == b);
                        assert(r@[k - lo] == b);
                    }
                    if r@.contains(b) {
                        let k = choose|k: int| 0 <= k < r@.len() && r@[k] == b;
                        assert(self@[k + lo] == b);
                    }
                }
            }
            r
        }
    }

    /// The last `n` bars dated on or before `date`.
    pub fn last_n_through(&self, date: Date, n: usize) -> (r: &[PriceBar])
        ensures
            ({
                let hi = through(self@, date.days as int);
                let k = if n <= hi { n as int } else { hi };
                0 <= hi <= self@.len() && r@ == self@.subrange(hi - k, hi)
            }),
    {
        let hi: usize = self.upto(date);
        let lo: usize = if n <= hi {
            hi - n
        } else {
            0
        };
        slice_subrange(self.bars.as_slice(), lo, hi)
    }

    /// The bars whose daily returns measure volatility at `date`: the last `n + 1` through that
    /// date, if there are at least six.
    pub fn volatility_window(&self, date: Date, n: usize) -> (r: Option<&[PriceBar]>)
        requires
            n < usize::MAX,
        ensures
            ({
                let hi = through(self@, date.days as int);
                let k = if n + 1 <= hi { n + 1 } else { hi };
                match r {
                    Some(w) => k >= 6 && w@ == self@.subrange(hi - k, hi),
                    None => k < 6,
                }
            }),
    {
        let w: &[PriceBar] = self.last_n_through(date, n + 1);
        if w.len() < 6 {
            None
        } else {
            Some(w)
        }
    }
}

/// Position of the first bar dated on or after `date`.
fn lower_bound(v: &Vec<PriceBar>, date: Date) -> (r: usize)
    requires
        dates_increase(v@),
    ensures
        r <= v.len(),
        forall|i: int| 0 <= i < r ==> (#[trigger] v[i]).date.days < date.days,
        forall|i: int| r <= i < v.len() ==> (#[trigger] v[i]).date.days >= date.days,
{
    let mut lo: usize = 0;
    let mut hi: usize = v.len();
    while lo < hi
        invariant
            lo <= hi <= v.len(),
            dates_increase(v@),
            forall|i: int| 0 <= i < lo ==> (#[trigger] v[i]).date.days < date.days,
            forall|i: int| hi <= i < v.len() ==> (#[trigger] v[i]).date.days >= date.days,
        decreases hi - lo,
    {
        let mid: usize = lo + (hi - lo) / 2;
        if v[mid].date.days < date.days {
            proof {
                assert forall|i: int| 0 <= i < mid + 1 implies (#[trigger] v[i]).date.days
                    < date.days by {
                    if i < mid {
                        assert(v[i].date.days < v[mid as int].date.days);
                    }
                }
            }
            lo = mid + 1;
        } else {
            proof {
                assert forall|i: int| mid <= i < v.len() implies (#[trigger] v[i]).date.days
                    >= date.days by {
                    if i > mid {
                        assert(v[mid as int].date.days < v[i].date.days);
                    }
                }
            }
            hi = mid;
        }
    }
    lo
}

/// Position of the first bar dated after `date`.
fn upper_bound(v: &Vec<PriceBar>, date: Date) -> (r: usize)
    requires
        dates_increase(v@),
    ensures
        r <= v.len(),
        forall|i: int| 0 <= i < r ==> (#[trigger] v[i]).date.days <= date.days,
        forall|i: int| r <= i < v.len() ==> (#[trigger] v[i]).date.days > date.days,
{
    let i: usize = lower_bound(v, date);
    if i < v.len() && v[i].date.days == date.days {
        proof {
            assert forall|j: int| i + 1 <= j < v.len() implies (#[trigger] v[j]).date.days
                > date.days by {
                assert(v[i as int].date.days < v[j].date.days);
            }
        }
        i + 1
    } else {
        proof {
            assert forall|j: int| i <= j < v.len() implies (#[trigger] v[j]).date.days
                > date.days by {
                if j > i {
                    assert(v[i as int].date.days < v[j].date.days);
                }
            }
        }
        i
    }
}

/// Puts a bar at its place by date, in the stead of one with the same date.
fn put(v: &mut Vec<PriceBar>, b: PriceBar)
    requires
        dates_increase(old(v)@),
        usable(b),
        forall|i: int| 0 <= i < old(v).len() ==> usable(#[trigger] old(v)[i]),
    ensures
        dates_increase(final(v)@),
        forall|i: int| 0 <= i < final(v).len() ==> usable(#[trigger] final(v)[i]),
        final(v)@.contains(b),
        forall|x: PriceBar|
            x.date != b.date ==> (final(v)@.contains(x) <==> old(v)@.contains(x)),
{
    let i: usize = lower_bound(v, b.date);
    let ghost before = v@;
    if i < v.len() && v[i].date.days == b.date.days {
        v.set(i, b);
        proof {
            assert(v@ =~= before.update(i as int, b));
            assert(v@[i as int] == b);
            assert forall|x: PriceBar|
                x.date != b.date implies (v@.contains(x) <==> before.contains(x)) by {
                if before.contains(x) {
                    let k = choose|k: int| 0 <= k < before.len() && before[k] == x;
                    assert(v@[k] == x);
                }
                if v@.contains(x) {
                    let k = choose|k: int| 0 <= k < v@.len() && v@[k] == x;
                    assert(before[k] == x);
                }
            }
        }
    } else {
        v.insert(i, b);
        proof {
            assert(v@ =~= before.insert(i as int, b));
            assert(v@[i as int] == b);
            assert forall|p: int, q: int| 0 <= p < q < v.len() implies (
            #[trigger] v@[p]).date.days < (#[trigger] v@[q]).date.days by {
                let bp = if p < i { p } else { p - 1 };
                let bq = if q < i { q } else { q - 1 };
                if p == i {
                    assert(v@[q] == before[q - 1]);
                    if q - 1 > i {
                        assert(before[i as int].date.days < before[q - 1].date.days);
                    }
                } else if q == i {
                    assert(v@[p] == before[p]);
                } else {
                    assert(v@[p] == before[bp] && v@[q] == before[bq]);
                }
            }
            assert forall|k: int| 0 <= k < v.len() implies usable(#[trigger] v@[k]) by {
                if k < i {
                    assert(v@[k] == before[k]);
                } else if k > i {
                    assert(v@[k] == before[k - 1]);
                }
            }
            assert forall|x: PriceBar|
                x.date != b.date implies (v@.contains(x) <==> before.contains(x)) by {
                if before.contains(x) {
                    let k = choose|k: int| 0 <= k < before.len() && before[k] == x;
                    if k < i {
                        assert(v@[k] == x);
                    } else {
                        assert(v@[k + 1] == x);
                    }
                }
                if v@.contains(x) {
                    let k = choose|k: int| 0 <= k < v@.len() && v@[k] == x;
                    if k < i {
                        assert(before[k] == x);
                    } else if k > i {
                        assert(before[k - 1] == x);
                    }
                }
            }
        }
    }
}

// ── Momentum ─────────────────────────────────────────────────────────────────

/// The first and last price of the 12-1 month return of about thirteen months of bars: the
/// first bar, and the bar about one month (a tenth of the bars, at most 21) before the last.
/// Nothing with fewer than 50 bars, or where the first price is zero or less.
pub fn momentum_12m1m(bars: &[PriceBar]) -> (r: Option<(Number, Number)>)
    ensures
        ({
            let n = bars@.len() as int;
            let skip = if n / 10 < 21 { n / 10 } else { 21 };
            match r {
                Some((first, last)) => n >= 50 && first == bars@[0].adj_close && !first.le(
                    Number { bits: 0 },
                ) && last == bars@[n - skip - 1].adj_close,
                None => n < 50 || bars@[0].adj_close.le(Number { bits: 0 }),
            }
        }),
{
    let n: usize = bars.len();
    if n < 50 {
        return None;
    }
    let tenth: usize = n / 10;
    let skip: usize = if tenth < 21 {
        tenth
    } else {
        21
    };
    let first: Number = bars[0].adj_close;
    if first.is_le(Number::zero()) {
        return None;
    }
    Some((first, bars[n - skip - 1].adj_close))
}

// ── Store ────────────────────────────────────────────────────────────────────

/// The series held by ticker.
pub open spec fn store_map(s: Seq<(String, PriceSeries)>) -> Map<Seq<char>, Seq<PriceBar>>
    decreases s.len(),
{
    if s.len() == 0 {
        Map::empty()
    } else {
        store_map(s.drop_last()).insert(s.last().0@, s.last().1@)
    }
}

/// No ticker occurs twice.
pub open spec fn tickers_distinct(s: Seq<(String, PriceSeries)>) -> bool {
    forall|i: int, j: int|
        0 <= i < j < s.len() ==> (#[trigger] s[i]).0@ != (#[trigger] s[j]).0@
}

/// With distinct tickers, the map holds exactly the entries.
proof fn lemma_store_map(s: Seq<(String, PriceSeries)>)
    requires
        tickers_distinct(s),
    ensures
        forall|i: int|
            0 <= i < s.len() ==> store_map(s).contains_key((#[trigger] s[i]).0@) && store_map(
                s,
            )[s[i].0@] == s[i].1@,
        forall|t: Seq<char>| #[trigger]
            store_map(s).contains_key(t) ==> exists|i: int|
                0 <= i < s.len() && (#[trigger] s[i]).0@ == t,
    decreases s.len(),
{
    if s.len() > 0 {
        let shorter = s.drop_last();
        assert(tickers_distinct(shorter));
        lemma_store_map(shorter);
        assert forall|i: int| 0 <= i < s.len() implies store_map(s).contains_key(
            (#[trigger] s[i]).0@,
        ) && store_map(s)[s[i].0@] == s[i].1@ by {
            if i < s.len() - 1 {
                assert(shorter[i] == s[i]);
                assert(s[i].0@ != s[s.len() - 1].0@);
            }
        }
        assert forall|t: Seq<char>| #[trigger] store_map(s).contains_key(t) implies exists|i: int|
            0 <= i < s.len() && (#[trigger] s[i]).0@ == t by {
            if t == s.last().0@ {
                assert(s[s.len() - 1].0@ == t);
            } else {
                assert(store_map(shorter).contains_key(t));
                let k = choose|k: int| 0 <= k < shorter.len() && (#[trigger] shorter[k]).0@ == t;
                assert(s[k].0@ == t);
            }
        }
    }
}

/// Price series of many tickers; an empty series is never stored.
#[derive(Debug)]
pub struct PriceStore {
    entries: Vec<(String, PriceSeries)>,
}

impl View for PriceStore {
    type V = Map<Seq<char>, Seq<PriceBar>>;

    closed spec fn view(&self) -> Map<Seq<char>, Seq<PriceBar>> {
        store_map(self.entries@)
    }
}

/// Whether some series of the store has a bar on a day.
pub open spec fn trades_on(m: Map<Seq<char>, Seq<PriceBar>>, day: int) -> bool {
    exists|t: Seq<char>, b: PriceBar| #[trigger]
        m.contains_key(t) && #[trigger] m[t].contains(b) && b.date.days == day
}

impl PriceStore {
    #[verifier::type_invariant]
    closed spec fn well_formed(&self) -> bool {
        tickers_distinct(self.entries@)
    }

    /// A store with no series.
    pub fn new() -> (r: PriceStore)
        ensures
            r@ == Map::<Seq<char>, Seq<PriceBar>>::empty(),
    {
        PriceStore { entries: Vec::new() }
    }

    fn position(&self, ticker: &str) -> (r: Option<usize>)
        ensures
            match r {
                Some(i) => i < self.entries.len() && self.entries[i as int].0@ == ticker@,
                None => forall|i: int|
                    0 <= i < self.entries.len() ==> (#[trigger] self.entries[i]).0@ != ticker@,
            },
    {
        let mut i: usize = 0;
        while i < self.entries.len()
            invariant
                i <= self.entries.len(),
                forall|j: int| 0 <= j < i ==> (#[trigger] self.entries[j]).0@ != ticker@,
            decreases self.entries.len() - i,
        {
            if text::same_text(self.entries[i].0.as_str(), ticker) {
                return Some(i);
            }
            i = i + 1;
        }
        None
    }

    /// Stores a series under a ticker, in the stead of one stored before; an empty series is
    /// not stored.
    pub fn insert(&mut self, ticker: String, series: PriceSeries)
        ensures
            final(self)@ == (if series@.len() == 0 {
                old(self)@
            } else {
                old(self)@.insert(ticker@, series@)
            }),
    {
        proof {
            use_type_invariant(&*self);
        }
        if series.is_empty() {
            return;
        }
        let found: Option<usize> = self.position(ticker.as_str());
        let mut entries: Vec<(String, PriceSeries)> = Vec::new();
        std::mem::swap(&mut entries, &mut self.entries);
        let ghost before = entries@;
        let ghost key = ticker@;
        let ghost bars = series@;
        match found {
            Some(i) => {
                entries.set(i, (ticker, series));
                proof {
                    assert(entries@ =~= before.update(i as int, entries@[i as int]));
                    assert forall|a: int, b: int| 0 <= a < b < entries.len() implies (
                    #[trigger] entries@[a]).0@ != (#[trigger] entries@[b]).0@ by {
                        assert(before[a].0@ != before[b].0@);
                    }
                    lemma_store_map(before);
                    lemma_store_map(entries@);
                    assert(store_map(entries@) =~= store_map(before).insert(key, bars)) by {
                        assert(entries@[i as int].0@ == key);
                        assert forall|t: Seq<char>|
                            store_map(entries@).contains_key(t) <==> store_map(before).insert(
                                key,
                                bars,
                            ).contains_key(t) by {
                            if store_map(entries@).contains_key(t) {
                                let k = choose|k: int|
                                    0 <= k < entries.len() && (#[trigger] entries@[k]).0@ == t;
                                assert(before[k].0@ == t);
                            }
                            if store_map(before).contains_key(t) {
                                let k = choose|k: int|
                                    0 <= k < before.len() && (#[trigger] before[k]).0@ == t;
                                assert(entries@[k].0@ == t);
                            }
                        }
                        assert forall|t: Seq<char>|
                            store_map(entries@).contains_key(t) implies store_map(entries@)[t]
                            == store_map(before).insert(key, bars)[t] by {
                            let k = choose|k: int|
                                0 <= k < entries.len() && (#[trigger] entries@[k]).0@ == t;
                            if k != i {
                                assert(before[k] == entries@[k]);
                                if k < i {
                                    assert(entries@[k].0@ != entries@[i as int].0@);
                                } else {
                                    assert(entries@[i as int].0@ != entries@[k].0@);
                                }
                            }
                        }
                    }
                }
            },
            None => {
                entries.push((ticker, series));
                proof {
                    assert(entries@.drop_last() =~= before);
                    assert forall|a: int, b: int| 0 <= a < b < entries.len() implies (
                    #[trigger] entries@[a]).0@ != (#[trigger] entries@[b]).0@ by {
                        if b < before.len() {
                            assert(before[a].0@ != before[b].0@);
                        } else {
                            assert(before[a].0@ != key);
                        }
                    }
                }
            },
        }
        self.entries = entries;
    }

    /// The series of a ticker.
    pub fn get(&self, ticker: &str) -> (r: Option<&PriceSeries>)
        ensures
            match r {
                Some(s) => self@.contains_key(ticker@) && self@[ticker@] == s@,
                None => !self@.contains_key(ticker@),
            },
    {
        proof {
            use_type_invariant(self);
            lemma_store_map(self.entries@);
        }
        match self.position(ticker) {
            Some(i) => Some(&self.entries[i].1),
            None => None,
        }
    }

    /// Number of tickers with a series.
    pub fn len(&self) -> (r: usize)
        ensures
            r == self@.dom().len(),
            self@.dom().finite(),
    {
        proof {
            use_type_invariant(self);
            lemma_store_len(self.entries@);
        }
        self.entries.len()
    }

    /// Whether no ticker has a series.
    pub fn is_empty(&self) -> (r: bool)
        ensures
            r == (self@.dom().len() == 0),
    {
        self.len() == 0
    }

    /// Every day from `from` through `to` on which some ticker traded, in increasing order.
    pub fn calendar(&self, from: Date, to: Date) -> (r: Vec<Date>)
        ensures
            days_increase(r@),
            forall|day: Date|
                r@.contains(day) <==> from.days <= day.days <= to.days && trades_on(
                    self@,
                    day.days as int,
                ),
    {
        proof {
            use_type_invariant(self);
            lemma_store_map(self.entries@);
        }
        let mut out: Vec<Date> = Vec::new();
        let mut i: usize = 0;
        while i < self.entries.len()
            invariant
                i <= self.entries.len(),
                days_increase(out@),
                forall|day: Date|
                    out@.contains(day) <==> from.days <= day.days <= to.days && exists|k: int, b: PriceBar|
                        0 <= k < i && #[trigger] self.entries@[k].1@.contains(b) && b.date == day,
            decreases self.entries.len() - i,
        {
            let w: &[PriceBar] = self.entries[i].1.window(from, to);
            let mut j: usize = 0;
            while j < w.len()
                invariant
                    j <= w@.len(),
                    i < self.entries.len(),
                    days_increase(out@),
                    forall|b: PriceBar|
                        w@.contains(b) <==> self.entries@[i as int].1@.contains(b) && from.days
                            <= b.date.days <= to.days,
                    forall|day: Date|
                        out@.contains(day) <==> from.days <= day.days <= to.days && ((exists|
                            k: int,
                            b: PriceBar,
                        |
                            0 <= k < i && #[trigger] self.entries@[k].1@.contains(b) && b.date
                                == day) || exists|q: int|
                            0 <= q < j && (#[trigger] w@[q]).date == day),
                decreases w@.len() - j,
            {
                let ghost before = out@;
                proof {
                    assert(w@.contains(w@[j as int]));
                }
                put_day(&mut out, w[j].date);
                proof {
                    let day0 = w@[j as int].date;
                    assert forall|day: Date|
                        out@.contains(day) <==> from.days <= day.days <= to.days && ((exists|
                            k: int,
                            b: PriceBar,
                        |
                            0 <= k < i && #[trigger] self.entries@[k].1@.contains(b) && b.date
                                == day) || exists|q: int|
                            0 <= q < j + 1 && (#[trigger] w@[q]).date == day) by {
                        if day == day0 {
                            assert(w@[j as int].date == day);
                        }
                    }
                }
                j = j + 1;
            }
            proof {
                assert forall|day: Date|
                    out@.contains(day) <==> from.days <= day.days <= to.days && exists|
                        k: int,
                        b: PriceBar,
                    |
                        0 <= k < i + 1 && #[trigger] self.entries@[k].1@.contains(b) && b.date
                            == day by {
                    if exists|q: int| 0 <= q < w@.len() && (#[trigger] w@[q]).date == day {
                        let q = choose|q: int| 0 <= q < w@.len() && (#[trigger] w@[q]).date == day;
                        assert(w@.contains(w@[q]));
                        assert(self.entries@[i as int].1@.contains(w@[q]));
                    }
                    if from.days <= day.days <= to.days && exists|k: int, b: PriceBar|
                        0 <= k < i + 1 && #[trigger] self.entries@[k].1@.contains(b) && b.date
                            == day {
                        let (k, b) = choose|k: int, b: PriceBar|
                            0 <= k < i + 1 && #[trigger] self.entries@[k].1@.contains(b) && b.date
                                == day;
                        if k == i {
                            assert(w@.contains(b));
                            let q = choose|q: int| 0 <= q < w@.len() && w@[q] == b;
                            assert(w@[q].date == day);
                        }
                    }
                }
            }
            i = i + 1;
        }
        proof {
            assert forall|day: Date|
                out@.contains(day) <==> from.days <= day.days <= to.days && trades_on(
                    self@,
                    day.days as int,
                ) by {
                if exists|k: int, b: PriceBar|
                    0 <= k < self.entries.len() && #[trigger] self.entries@[k].1@.contains(b)
                        && b.date == day {
                    let (k, b) = choose|k: int, b: PriceBar|
                        0 <= k < self.entries.len() && #[trigger] self.entries@[k].1@.contains(b)
                            && b.date == day;
                    let t = self.entries@[k].0@;
                    assert(self@.contains_key(t) && self@[t].contains(b));
                }
                if trades_on(self@, day.days as int) {
                    let (t, b) = choose|t: Seq<char>, b: PriceBar| #[trigger]
                        self@.contains_key(t) && #[trigger] self@[t].contains(b) && b.date.days
                            == day.days;
                    let k = choose|k: int|
                        0 <= k < self.entries.len() && (#[trigger] self.entries@[k]).0@ == t;
                    assert(self.entries@[k].1@.contains(b));
                    assert(b.date == day);
                }
            }
        }
        out
    }
}

/// The number of tickers is the number of entries.
proof fn lemma_store_len(s: Seq<(String, PriceSeries)>)
    requires
        tickers_distinct(s),
    ensures
        store_map(s).dom().finite(),
        store_map(s).dom().len() == s.len(),
    decreases s.len(),
{
    if s.len() > 0 {
        let shorter = s.drop_last();
        assert(tickers_distinct(shorter));
        lemma_store_len(shorter);
        lemma_store_map(shorter);
        assert(!store_map(shorter).contains_key(s.last().0@)) by {
            if store_map(shorter).contains_key(s.last().0@) {
                let k = choose|k: int|
                    0 <= k < shorter.len() && (#[trigger] shorter[k]).0@ == s.last().0@;
                assert(s[k].0@ != s[s.len() - 1].0@);
            }
        }
        assert(store_map(s).dom() =~= store_map(shorter).dom().insert(s.last().0@));
    }
}

// ── Days ─────────────────────────────────────────────────────────────────────

/// Strictly increasing days.
pub open spec fn days_increase(s: Seq<Date>) -> bool {
    forall|i: int, j: int| 0 <= i < j < s.len() ==> (#[trigger] s[i]).days < (#[trigger] s[j]).days
}

/// Position of the first day on or after `day`, in increasing days.
pub fn first_on_or_after(v: &Vec<Date>, day: Date) -> (r: usize)
    requires
        days_increase(v@),
    ensures
        r <= v.len(),
        forall|i: int| 0 <= i < r ==> (#[trigger] v[i]).days < day.days,
        forall|i: int| r <= i < v.len() ==> (#[trigger] v[i]).days >= day.days,
{
    let mut lo: usize = 0;
    let mut hi: usize = v.len();
    while lo < hi
        invariant
            lo <= hi <= v.len(),
            days_increase(v@),
            forall|i: int| 0 <= i < lo ==> (#[trigger] v[i]).days < day.days,
            forall|i: int| hi <= i < v.len() ==> (#[trigger] v[i]).days >= day.days,
        decreases hi - lo,
    {
        let mid: usize = lo + (hi - lo) / 2;
        if v[mid].days < day.days {
            proof {
                assert forall|i: int| 0 <= i < mid + 1 implies (#[trigger] v[i]).days
                    < day.days by {
                    if i < mid {
                        assert(v[i].days < v[mid as int].days);
                    }
                }
            }
            lo = mid + 1;
        } else {
            proof {
                assert forall|i: int| mid <= i < v.len() implies (#[trigger] v[i]).days
                    >= day.days by {
                    if i > mid {
                        assert(v[mid as int].days < v[i].days);
                    }
                }
            }
            hi = mid;
        }
    }
    lo
}

/// Puts a day at its place, unless it is there already.
pub fn put_day(v: &mut Vec<Date>, day: Date)
    requires
        days_increase(old(v)@),
    ensures
        days_increase(final(v)@),
        forall|x: Date| #[trigger]
            final(v)@.contains(x) <==> old(v)@.contains(x) || x == day,
{
    let i: usize = first_on_or_after(v, day);
    let ghost before = v@;
    if i < v.len() && v[i].days == day.days {
        proof {
            assert(v@[i as int] == day);
        }
        return;
    }
    v.insert(i, day);
    proof {
        assert(v@ =~= before.insert(i as int, day));
        assert forall|p: int, q: int| 0 <= p < q < v.len() implies (#[trigger] v@[p]).days < (
        #[trigger] v@[q]).days by {
            let bp = if p < i { p } else { p - 1 };
            let bq = if q < i { q } else { q - 1 };
            if p == i {
                assert(v@[q] == before[q - 1]);
                if q - 1 > i {
                    assert(before[i as int].days < before[q - 1].days);
                }
            } else if q == i {
                assert(v@[p] == before[p]);
            } else {
                assert(v@[p] == before[bp] && v@[q] == before[bq]);
            }
        }
        assert forall|x: Date| #[trigger] v@.contains(x) == (before.contains(x) || x == day) by {
            if before.contains(x) {
                let k = choose|k: int| 0 <= k < before.len() && before[k] == x;
                if k < i {
                    assert(v@[k] == x);
                } else {
                    assert(v@[k + 1] == x);
                }
            }
            if x == day {
                assert(v@[i as int] == x);
            }
            if v@.contains(x) {
                let k = choose|k: int| 0 <= k < v@.len() && v@[k] == x;
                if k < i {
                    assert(before[k] == x);
                } else if k > i {
                    assert(before[k - 1] == x);
                }
            }
        }
    }
}

// ── Adjusted prices ──────────────────────────────────────────────────────────

/// Bars that differ in nothing but their unadjusted prices.
pub open spec fn adjusted_alike(s: Seq<PriceBar>, t: Seq<PriceBar>) -> bool {
    &&& s.len() == t.len()
    &&& forall|i: int|
        0 <= i < s.len() ==> (#[trigger] s[i]).date == t[i].date && s[i].adj_open == t[i].adj_open
            && s[i].adj_close == t[i].adj_close && s[i].volume == t[i].volume
}

/// Stores whose series differ in nothing but their unadjusted prices.
pub open spec fn stores_alike(
    m: Map<Seq<char>, Seq<PriceBar>>,
    n: Map<Seq<char>, Seq<PriceBar>>,
) -> bool {
    forall|t: Seq<char>|
        (#[trigger] m.contains_key(t) <==> n.contains_key(t)) && (m.contains_key(t)
            ==> adjusted_alike(m[t], n[t]))
}

/// Bars of the same dates are split alike at every day.
pub proof fn lemma_through_alike(s: Seq<PriceBar>, t: Seq<PriceBar>, day: int)
    requires
        adjusted_alike(s, t),
    ensures
        through(s, day) == through(t, day),
        0 <= through(s, day) <= s.len(),
    decreases s.len(),
{
    if s.len() > 0 {
        assert(s.last().date == t.last().date) by {
            assert(s[s.len() - 1].date == t[s.len() - 1].date);
        }
        assert(adjusted_alike(s.drop_last(), t.drop_last())) by {
            assert forall|i: int| 0 <= i < s.drop_last().len() implies (
            #[trigger] s.drop_last()[i]).date == t.drop_last()[i].date && s.drop_last()[i].adj_open
                == t.drop_last()[i].adj_open && s.drop_last()[i].adj_close
                == t.drop_last()[i].adj_close && s.drop_last()[i].volume
                == t.drop_last()[i].volume by {
                assert(s[i].date == t[i].date);
            }
        }
        lemma_through_alike(s.drop_last(), t.drop_last(), day);
    }
}

/// Where the bars from a position on are later than a day and those before it are not, the day is
/// reached by as many bars.
pub proof fn lemma_split(s: Seq<PriceBar>, day: int, k: int)
    requires
        dates_increase(s),
        0 <= k <= s.len(),
        k > 0 ==> s[k - 1].date.days <= day,
        k < s.len() ==> s[k].date.days > day,
    ensures
        through(s, day) == k,
{
    lemma_through(s, day);
    let t = through(s, day);
    if t < k {
        assert(s[k - 1].date.days > day);
    } else if t > k {
        assert(s[k].date.days <= day);
    }
}

/// A series keeps one bar of every day that has a usable one, the last given, and takes over each
/// bar as it is.
pub proof fn the_last_usable_bar_counts(bars: Vec<PriceBar>, r: PriceSeries, k: int)
    requires
        call_ensures(PriceSeries::new, (bars,), r),
        0 <= k < bars@.len(),
        0 < bars@[k].adj_close.bits < 0x7FF0_0000_0000_0000,
        forall|j: int|
            k < j < bars@.len() && (#[trigger] bars@[j]).date == bars@[k].date
                ==> !bars@[j].adj_close.positive(),
    ensures
        r@.contains(bars@[k]),
        forall|i: int|
            0 <= i < r@.len() && (#[trigger] r@[i]).date == bars@[k].date ==> r@[i] == bars@[k],
{
    let day = bars@[k].date.days as int;
    lemma_last_usable(bars@, k);
    let args = (bars,);
    assert(last_usable_on(args.0@, day) == Some(bars@[k]));
    assert(holds_on(r@, day, last_usable_on(bars@, day)));
    let q = choose|q: int| 0 <= q < r@.len() && r@[q] == bars@[k];
    assert forall|i: int| 0 <= i < r@.len() && (#[trigger] r@[i]).date == bars@[k].date implies r@[i]
        == bars@[k] by {
        if i < q {
            assert(r@[i].date.days < r@[q].date.days);
        } else if i > q {
            assert(r@[q].date.days < r@[i].date.days);
        }
    }
}

proof fn lemma_last_usable(s: Seq<PriceBar>, k: int)
    requires
        0 <= k < s.len(),
        usable(s[k]),
        forall|j: int|
            k < j < s.len() && (#[trigger] s[j]).date == s[k].date ==> !usable(s[j]),
    ensures
        last_usable_on(s, s[k].date.days as int) == Some(s[k]),
    decreases s.len(),
{
    if k < s.len() - 1 {
        let init = s.drop_last();
        if s.last().date.days == s[k].date.days {
            assert(s[s.len() - 1].date == s[k].date);
        }
        assert forall|j: int| k < j < init.len() && (#[trigger] init[j]).date
            == init[k].date implies !usable(init[j]) by {
            assert(s[j].date == s[k].date);
        }
        lemma_last_usable(init, k);
    }
}

/// Momentum leaves out the latest month and is measured on the adjusted scale: with a year of bars
/// it runs from the adjusted close of the first to that of the bar 21 before the last; with fewer
/// bars a tenth of them is left out. What the unadjusted prices are does not matter.
pub proof fn momentum_is_adjusted_and_skips_a_month(bars: &[PriceBar], r: Option<(Number, Number)>)
    requires
        call_ensures(momentum_12m1m, (bars,), r),
        forall|i: int| 0 <= i < bars@.len() ==> usable(#[trigger] bars@[i]),
    ensures
        r is Some <==> bars@.len() >= 50,
        r matches Some((first, last)) ==> first == bars@[0].adj_close,
        bars@.len() >= 210 ==> (r matches Some((first, last)) && last == bars@[bars@.len()
            - 22].adj_close),
        50 <= bars@.len() < 210 ==> (r matches Some((first, last)) && exists|k: int|
            0 <= k < bars@.len() && 10 * (bars@.len() - 1 - k) <= bars@.len() < 10 * (bars@.len()
                - k) && last == (#[trigger] bars@[k]).adj_close),
{
    let n = bars@.len() as int;
    if n >= 50 {
        assert(usable(bars@[0]));
        let skip = if n / 10 < 21 { n / 10 } else { 21 };
        assert(0 <= n - skip - 1 < n);
        assert(bars@[n - skip - 1].adj_close == (r->0).1);
    }
}

/// What the windows of a series hold depends on dates alone: the last bars through a day are the
/// latest ones, without gaps, and never later than the day.
pub proof fn the_last_bars_are_the_latest(s: PriceSeries, date: Date, n: usize, r: &[PriceBar])
    requires
        call_ensures(PriceSeries::last_n_through, (&s, date, n), r),
        dates_increase(s@),
    ensures
        r@.len() <= n,
        forall|i: int| 0 <= i < r@.len() ==> (#[trigger] r@[i]).date.days <= date.days,
        forall|i: int, j: int|
            0 <= i < s@.len() && (#[trigger] s@[i]).date.days <= date.days && 0 <= j < r@.len() && (
            #[trigger] r@[j]).date.days < s@[i].date.days ==> r@.contains(s@[i]),
        forall|i: int|
            0 <= i < s@.len() && (#[trigger] s@[i]).date.days <= date.days && !r@.contains(s@[i])
                ==> r@.len() == n,
{
    lemma_through(s@, date.days as int);
    let hi = through(s@, date.days as int);
    let k = if n <= hi { n as int } else { hi };
    assert forall|i: int| 0 <= i < s@.len() && (#[trigger] s@[i]).date.days <= date.days && i >= hi
        - k implies r@.contains(s@[i]) by {
        assert(i < hi);
        assert(r@[i - (hi - k)] == s@[i]);
    }
    assert forall|i: int, j: int|
        0 <= i < s@.len() && (#[trigger] s@[i]).date.days <= date.days && 0 <= j < r@.len() && (
        #[trigger] r@[j]).date.days < s@[i].date.days implies r@.contains(s@[i]) by {
        let q = hi - k + j;
        assert(r@[j] == s@[q]);
        if i < q {
            assert(s@[i].date.days < s@[q].date.days);
        }
    }
}

/// A bar counts for its own day and for every day up to the next bar: it is the one found on its
/// day and on or before each of these days, and the next bar is the one found after them.
pub proof fn a_bar_counts_until_the_next(
    s: PriceSeries,
    bars: &Vec<PriceBar>,
    i: int,
    date: Date,
    on: Option<&PriceBar>,
    before: Option<&PriceBar>,
    after: Option<&PriceBar>,
    next: usize,
)
    requires
        call_ensures(PriceSeries::bars, (&s,), bars),
        0 <= i < bars@.len(),
        bars@[i].date.days <= date.days,
        i + 1 < bars@.len() ==> date.days < bars@[i + 1].date.days,
        call_ensures(PriceSeries::on, (&s, date), on),
        call_ensures(PriceSeries::on_or_before, (&s, date), before),
        call_ensures(PriceSeries::strictly_after, (&s, date), after),
        call_ensures(PriceSeries::next_index, (&s, date), next),
    ensures
        bars@[i].date == date ==> (on matches Some(b) && *b == bars@[i]),
        bars@[i].date != date ==> on is None,
        before matches Some(b) && *b == bars@[i],
        i + 1 < bars@.len() ==> (after matches Some(b) && *b == bars@[i + 1]),
        i + 1 == bars@.len() ==> after is None,
        next == i + 1,
{
    let v = s@;
    lemma_split(v, date.days as int, i + 1);
    let args = (&s, date);
    assert(args.0@[i].date.days <= date.days);
    if let Some(b) = on {
        let j = choose|j: int| 0 <= j < v.len() && v[j] == *b;
        if j < i {
            assert(v[j].date.days < v[i].date.days);
        } else if j > i {
            assert(v[i + 1].date.days <= v[j].date.days);
        }
    } else if bars@[i].date == date {
        assert(args.0@[i].date == date);
    }
    if i + 1 < v.len() {
        assert(args.0@[i + 1].date.days > date.days);
        let b = after->0;
        let j = choose|j: int| 0 <= j < v.len() && v[j] == *b;
        if j <= i {
            assert(v[j].date.days <= v[i].date.days);
        } else if j > i + 1 {
            assert(v[i + 1].date.days < v[j].date.days);
        }
    } else if let Some(b) = after {
        let j = choose|j: int| 0 <= j < v.len() && v[j] == *b;
        assert(v[j].date.days <= v[i].date.days);
    }
}

/// Before the first bar there is none, and the first bar is the one to come.
pub proof fn nothing_is_known_before_the_first_bar(
    s: PriceSeries,
    bars: &Vec<PriceBar>,
    date: Date,
    before: Option<&PriceBar>,
    after: Option<&PriceBar>,
    next: usize,
)
    requires
        call_ensures(PriceSeries::bars, (&s,), bars),
        bars@.len() > 0,
        date.days < bars@[0].date.days,
        call_ensures(PriceSeries::on_or_before, (&s, date), before),
        call_ensures(PriceSeries::strictly_after, (&s, date), after),
        call_ensures(PriceSeries::next_index, (&s, date), next),
    ensures
        before is None,
        after matches Some(b) && *b == bars@[0],
        next == 0,
{
    let v = s@;
    lemma_split(v, date.days as int, 0);
    let args = (&s, date);
    assert(args.0@[0].date.days > date.days);
    if let Some(b) = before {
        let j = choose|j: int| 0 <= j < v.len() && v[j] == *b;
        assert(v[0].date.days <= v[j].date.days);
    }
    let b = after->0;
    let j = choose|j: int| 0 <= j < v.len() && v[j] == *b;
    if j > 0 {
        assert(v[0].date.days < v[j].date.days);
    }
}

/// A series is as long as it has bars, and starts and ends with the days of the first and the last.
pub proof fn a_series_runs_from_its_first_bar_to_its_last(
    s: PriceSeries,
    bars: &Vec<PriceBar>,
    n: usize,
    empty: bool,
    first: Option<Date>,
    last: Option<Date>,
)
    requires
        call_ensures(PriceSeries::bars, (&s,), bars),
        call_ensures(PriceSeries::len, (&s,), n),
        call_ensures(PriceSeries::is_empty, (&s,), empty),
        call_ensures(PriceSeries::first_date, (&s,), first),
        call_ensures(PriceSeries::last_date, (&s,), last),
    ensures
        n == bars@.len(),
        empty <==> n == 0,
        n == 0 ==> first is None && last is None,
        n > 0 ==> first == Some(bars@[0].date) && last == Some(bars@[n - 1].date),
        n > 1 ==> first->0.days < last->0.days,
{
}

/// A window holds exactly the bars of its days, both ends included.
pub proof fn windows_hold_both_ends(
    s: PriceSeries,
    bars: &Vec<PriceBar>,
    from: Date,
    to: Date,
    r: &[PriceBar],
    i: int,
)
    requires
        call_ensures(PriceSeries::bars, (&s,), bars),
        call_ensures(PriceSeries::window, (&s, from, to), r),
        0 <= i < bars@.len(),
    ensures
        from.days <= bars@[i].date.days <= to.days ==> r@.contains(bars@[i]),
        bars@[i].date.days < from.days || bars@[i].date.days > to.days ==> !r@.contains(bars@[i]),
        forall|k: int| 0 <= k < r@.len() ==> bars@.contains(#[trigger] r@[k]),
{
    assert(bars@.contains(bars@[i]));
    assert(s@.contains(bars@[i]));
    assert forall|k: int| 0 <= k < r@.len() implies bars@.contains(#[trigger] r@[k]) by {
        assert(r@.contains(r@[k]));
    }
}

/// Volatility is measured over the last bars known by a day: one more than the returns asked for,
/// as far as there are so many, and at least six.
pub proof fn volatility_takes_the_latest_bars(
    s: PriceSeries,
    bars: &Vec<PriceBar>,
    date: Date,
    n: usize,
    known: usize,
    r: Option<&[PriceBar]>,
    k: int,
)
    requires
        n < usize::MAX,
        call_ensures(PriceSeries::bars, (&s,), bars),
        call_ensures(PriceSeries::next_index, (&s, date), known),
        call_ensures(PriceSeries::volatility_window, (&s, date, n), r),
    ensures
        r is Some <==> known >= 6 && n >= 5,
        r matches Some(w) ==> w@.len() == (if n + 1 <= known {
            n + 1
        } else {
            known as int
        }),
        r matches Some(w) ==> 0 <= k < w@.len() ==> w@[k] == bars@[known - w@.len() + k],
{
}

/// A series that was put in a store is found under its ticker, and every other ticker's series
/// stays; an empty one is not put in.
pub proof fn a_stored_series_is_found_under_its_ticker(
    store: &mut PriceStore,
    ticker: String,
    series: PriceSeries,
    name: &str,
    other: &str,
    own: Option<&PriceSeries>,
    was: Option<&PriceSeries>,
    is: Option<&PriceSeries>,
)
    requires
        call_ensures(PriceStore::insert, (store, ticker, series), ()),
        name@ == ticker@,
        other@ != ticker@,
        call_ensures(PriceStore::get, (final(store), name), own),
        call_ensures(PriceStore::get, (old(store), other), was),
        call_ensures(PriceStore::get, (final(store), other), is),
    ensures
        series@.len() > 0 ==> (own matches Some(s) && s@ == series@),
        was is Some <==> is is Some,
        was is Some ==> was->0@ == is->0@,
{
}

/// The trading days of a store are exactly the days on which one of its series has a bar.
pub proof fn a_day_with_any_bar_is_a_trading_day(
    store: PriceStore,
    from: Date,
    to: Date,
    r: Vec<Date>,
    ticker: &str,
    s: &PriceSeries,
    i: int,
)
    requires
        call_ensures(PriceStore::calendar, (&store, from, to), r),
        call_ensures(PriceStore::get, (&store, ticker), Some(s)),
        0 <= i < s@.len(),
    ensures
        from.days <= s@[i].date.days <= to.days ==> r@.contains(s@[i].date),
        forall|k: int| 0 <= k < r@.len() ==> from.days <= (#[trigger] r@[k]).days <= to.days,
        forall|k: int|
            0 <= k < r@.len() ==> exists|t: Seq<char>, j: int|
                store@.contains_key(t) && 0 <= j < store@[t].len() && (
                #[trigger] store@[t][j]).date.days == (#[trigger] r@[k]).days,
{
    let b = s@[i];
    assert(store@[ticker@].contains(b));
    assert(trades_on(store@, b.date.days as int));
    let args = (&store, from, to);
    assert(trades_on(args.0@, b.date.days as int));
    assert forall|k: int| 0 <= k < r@.len() implies from.days <= (#[trigger] r@[k]).days <= to.days
        by {
        assert(r@.contains(r@[k]));
    }
    assert forall|k: int| 0 <= k < r@.len() implies exists|t: Seq<char>, j: int|
        store@.contains_key(t) && 0 <= j < store@[t].len() && (#[trigger] store@[t][j]).date.days
            == (#[trigger] r@[k]).days by {
        assert(r@.contains(r@[k]));
        let (t, x) = choose|t: Seq<char>, x: PriceBar| #[trigger]
            store@.contains_key(t) && #[trigger] store@[t].contains(x) && x.date.days == r@[k].days;
        let j = choose|j: int| 0 <= j < store@[t].len() && store@[t][j] == x;
        assert(store@[t][j].date.days == r@[k].days);
    }
}

/// The position found for a day parts the earlier days from the others.
pub proof fn earlier_days_stand_in_front(v: Vec<Date>, day: Date, r: usize, i: int)
    requires
        days_increase(v@),
        call_ensures(first_on_or_after, (&v, day), r),
        0 <= i < v@.len(),
    ensures
        v@[i].days < day.days <==> i < r,
{
    let args = (&v, day);
    assert(args.0@[i] == v@[i]);
}

/// A store is empty exactly where it counts no series, and one that has a series is not.
pub proof fn a_store_with_a_series_is_not_empty(
    store: PriceStore,
    n: usize,
    empty: bool,
    ticker: &str,
    s: Option<&PriceSeries>,
)
    requires
        call_ensures(PriceStore::len, (&store,), n),
        call_ensures(PriceStore::is_empty, (&store,), empty),
        call_ensures(PriceStore::get, (&store, ticker), s),
    ensures
        empty <==> n == 0,
        s is Some ==> !empty && n > 0,
{
    if s is Some {
        assert(store@.dom().contains(ticker@));
        assert(store@.dom().finite());
        if store@.dom().len() == 0 {
            assert(store@.dom() =~= Set::empty());
        }
    }
}

} // verus!
