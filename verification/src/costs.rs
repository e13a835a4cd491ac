//! Capital-gains tax: tax years, holding periods and the gains of each year.
//!
//! Rates and amounts are carried as encoded numbers; the caller multiplies and
//! adds. What is decided here is which gains belong together.

use vstd::prelude::*;

use crate::calendar;
use crate::calendar::Date;
use crate::number::Number;
use crate::order;

verus! {

/// One realised round trip.
#[derive(Clone, Copy, Debug, PartialEq, Eq, Structural)]
pub struct RealizedGain {
    pub entry_date: Date,
    pub exit_date: Date,
    /// Profit after commissions and slippage.
    pub pnl: Number,
}

/// The rules of a tax regime.
#[derive(Clone, Copy, Debug, PartialEq, Eq, Structural)]
pub struct TaxModel {
    pub short_term_rate: Number,
    pub long_term_rate: Number,
    /// Holding period, in days, above which a gain is long-term.
    pub long_term_days: i64,
    /// Long-term gains exempt per tax year.
    pub annual_long_term_exemption: Number,
    /// Month in which the tax year starts.
    pub fiscal_year_start_month: u32,
}

/// The gains of one tax year, by position in the list they came from.
#[derive(Debug)]
pub struct TaxYear {
    pub tax_year: i32,
    pub short_term: Vec<usize>,
    pub long_term: Vec<usize>,
}

impl TaxModel {
    /// No tax.
    pub fn none() -> (r: TaxModel)
        ensures
            r.short_term_rate.bits == 0,
            r.long_term_rate.bits == 0,
            r.long_term_days == 365,
            r.annual_long_term_exemption.bits == 0,
            r.fiscal_year_start_month == 1,
    {
        TaxModel {
            short_term_rate: Number::zero(),
            long_term_rate: Number::zero(),
            long_term_days: 365,
            annual_long_term_exemption: Number::zero(),
            fiscal_year_start_month: 1,
        }
    }

    /// Listed equity in India: 20% short-term, 12.5% long-term above 125,000 a year, long-term
    /// after twelve months, tax years from April.
    pub fn india_equity() -> (r: TaxModel)
        ensures
            r.short_term_rate.bits == 0x3FC9_9999_9999_999A,
            r.long_term_rate.bits == 0x3FC0_0000_0000_0000,
            r.long_term_days == 365,
            r.annual_long_term_exemption.bits == 0x40FE_8480_0000_0000,
            r.fiscal_year_start_month == 4,
    {
        TaxModel {
            short_term_rate: Number { bits: 0x3FC9_9999_9999_999A },
            long_term_rate: Number { bits: 0x3FC0_0000_0000_0000 },
            long_term_days: 365,
            annual_long_term_exemption: Number { bits: 0x40FE_8480_0000_0000 },
            fiscal_year_start_month: 4,
        }
    }

    /// Taxable account in the United States, illustrative: 24% short-term, 15% long-term.
    pub fn us_taxable() -> (r: TaxModel)
        ensures
            r.short_term_rate.bits == 0x3FCE_B851_EB85_1EB8,
            r.long_term_rate.bits == 0x3FC3_3333_3333_3333,
            r.long_term_days == 365,
            r.annual_long_term_exemption.bits == 0,
            r.fiscal_year_start_month == 1,
    {
        TaxModel {
            short_term_rate: Number { bits: 0x3FCE_B851_EB85_1EB8 },
            long_term_rate: Number { bits: 0x3FC3_3333_3333_3333 },
            long_term_days: 365,
            annual_long_term_exemption: Number::zero(),
            fiscal_year_start_month: 1,
        }
    }

    /// The tax year of a month: the calendar year, or the one before where the month comes before
    /// the start of the tax year.
    pub open spec fn year_of(self, y: int, m: int) -> int {
        if self.fiscal_year_start_month <= 1 || m >= self.fiscal_year_start_month {
            y
        } else {
            y - 1
        }
    }

    /// Whether `year` is the tax year of `d`.
    pub open spec fn in_tax_year(self, d: Date, year: int) -> bool {
        forall|y: int, m: int, day: int| #[trigger]
            d.is_ymd(y, m, day) ==> year == self.year_of(y, m)
    }

    /// The tax year in which a date falls.
    pub fn tax_year(&self, d: Date) -> (r: i32)
        requires
            d.in_range(),
        ensures
            self.in_tax_year(d, r as int),
            calendar::FIRST_YEAR - 1 <= r <= calendar::LAST_YEAR,
    {
        let (y, m, day): (i32, u32, u32) = d.ymd();
        proof {
            assert forall|y2: int, m2: int, d2: int| #[trigger] d.is_ymd(y2, m2, d2) implies y2 == y
                && m2 == m by {
                calendar::day_number_is_injective(y as int, m as int, day as int, y2, m2, d2);
            }
        }
        if self.fiscal_year_start_month <= 1 || m >= self.fiscal_year_start_month {
            y
        } else {
            y - 1
        }
    }

    /// Whether a gain is long-term: held for more than the threshold.
    pub open spec fn long_term(self, g: RealizedGain) -> bool {
        g.exit_date.days - g.entry_date.days > self.long_term_days
    }

    /// Whether a gain is long-term.
    pub fn is_long_term(&self, g: &RealizedGain) -> (r: bool)
        ensures
            r == self.long_term(*g),
    {
        g.exit_date.days_since(g.entry_date) > self.long_term_days
    }

    /// Whether the years hold exactly the first `n` gains: years increase and none is without a
    /// gain, and a gain stands once in the list of its tax year and of its holding period, and in
    /// no other.
    pub open spec fn assessed(
        self,
        years: Seq<TaxYear>,
        gains: Seq<RealizedGain>,
        n: int,
    ) -> bool {
        &&& forall|a: int, b: int|
            0 <= a < b < years.len() ==> (#[trigger] years[a]).tax_year < (
            #[trigger] years[b]).tax_year
        &&& forall|k: int, i: usize|
            0 <= k < years.len() ==> (#[trigger] years[k].short_term@.contains(i) <==> i < n
                && self.in_tax_year(gains[i as int].exit_date, years[k].tax_year as int)
                && !self.long_term(gains[i as int]))
        &&& forall|k: int, i: usize|
            0 <= k < years.len() ==> (#[trigger] years[k].long_term@.contains(i) <==> i < n
                && self.in_tax_year(gains[i as int].exit_date, years[k].tax_year as int)
                && self.long_term(gains[i as int]))
        &&& forall|i: int|
            0 <= i < n ==> exists|k: int|
                0 <= k < years.len() && self.in_tax_year(
                    (#[trigger] gains[i]).exit_date,
                    (#[trigger] years[k]).tax_year as int,
                )
        &&& forall|k: int|
            0 <= k < years.len() ==> order::once_each((#[trigger] years[k]).short_term@) && order::once_each(
                years[k].long_term@,
            ) && years[k].short_term@.len() + years[k].long_term@.len() > 0
    }

    /// The gains by tax year and holding period, in order of year. The year of a gain is that of
    /// its exit.
    pub fn assess(&self, gains: &Vec<RealizedGain>) -> (r: Vec<TaxYear>)
        requires
            forall|i: int| 0 <= i < gains@.len() ==> (#[trigger] gains@[i]).exit_date.in_range(),
        ensures
            self.assessed(r@, gains@, gains@.len() as int),
    {
        let mut years: Vec<TaxYear> = Vec::new();
        let mut n: usize = 0;
        while n < gains.len()
            invariant
                n <= gains.len(),
                forall|i: int|
                    0 <= i < gains@.len() ==> (#[trigger] gains@[i]).exit_date.in_range(),
                self.assessed(years@, gains@, n as int),
            decreases gains.len() - n,
        {
            let g: RealizedGain = gains[n];
            let year: i32 = self.tax_year(g.exit_date);
            let (gy, gm, gd): (i32, u32, u32) = g.exit_date.ymd();
            let long: bool = self.is_long_term(&g);
            let ghost before = years@;
            proof {
                assert forall|z: int| self.in_tax_year(g.exit_date, z) implies z == year by {
                    assert(g.exit_date.is_ymd(gy as int, gm as int, gd as int));
                }
            }
            let mut k: usize = 0;
            while k < years.len() && years[k].tax_year < year
                invariant
                    k <= years.len(),
                    years@ == before,
                    forall|j: int| 0 <= j < k ==> (#[trigger] years@[j]).tax_year < year,
                decreases years.len() - k,
            {
                k = k + 1;
            }
            if k < years.len() && years[k].tax_year == year {
                let mut bucket: TaxYear = years.remove(k);
                let ghost short0 = bucket.short_term@;
                let ghost long0 = bucket.long_term@;
                if long {
                    bucket.long_term.push(n);
                } else {
                    bucket.short_term.push(n);
                }
                let ghost now = bucket;
                proof {
                    lemma_push_contains(short0, n);
                    lemma_push_contains(long0, n);
                    lemma_push_once(short0, n);
                    lemma_push_once(long0, n);
                }
                years.insert(k, bucket);
                proof {
                    assert(years@ =~= before.update(k as int, now));
                    assert(self.in_tax_year(g.exit_date, year as int));
                    self.lemma_grown(before, years@, gains@, n as int, k as int);
                }
            } else {
                let mut bucket: TaxYear = TaxYear {
                    tax_year: year,
                    short_term: Vec::new(),
                    long_term: Vec::new(),
                };
                if long {
                    bucket.long_term.push(n);
                } else {
                    bucket.short_term.push(n);
                }
                let ghost now = bucket;
                proof {
                    lemma_push_contains(Seq::<usize>::empty(), n);
                    lemma_push_once(Seq::<usize>::empty(), n);
                }
                years.insert(k, bucket);
                proof {
                    assert(years@ =~= before.insert(k as int, now));
                    assert(self.in_tax_year(g.exit_date, year as int));
                    if k < before.len() {
                        assert(before[k as int].tax_year > year);
                    }
                    self.lemma_opened(before, years@, gains@, n as int, k as int);
                }
            }
            n = n + 1;
        }
        years
    }

    /// Adding a gain to the bucket of its year keeps the buckets right.
    proof fn lemma_grown(
        self,
        before: Seq<TaxYear>,
        after: Seq<TaxYear>,
        gains: Seq<RealizedGain>,
        n: int,
        k: int,
    )
        requires
            self.assessed(before, gains, n),
            0 <= n < gains.len(),
            n <= usize::MAX,
            0 <= k < before.len(),
            after == before.update(k, after[k]),
            after[k].tax_year == before[k].tax_year,
            self.in_tax_year(gains[n].exit_date, after[k].tax_year as int),
            forall|z: int|
                self.in_tax_year(gains[n].exit_date, z) ==> z == after[k].tax_year,
            forall|i: usize| #[trigger]
                after[k].short_term@.contains(i) <==> before[k].short_term@.contains(i) || (i == n
                    && !self.long_term(gains[n])),
            forall|i: usize| #[trigger]
                after[k].long_term@.contains(i) <==> before[k].long_term@.contains(i) || (i == n
                    && self.long_term(gains[n])),
            order::once_each(after[k].short_term@),
            order::once_each(after[k].long_term@),
            after[k].short_term@.len() + after[k].long_term@.len() > 0,
        ensures
            self.assessed(after, gains, n + 1),
    {
        assert forall|a: int, b: int| 0 <= a < b < after.len() implies (
        #[trigger] after[a]).tax_year < (#[trigger] after[b]).tax_year by {
            assert(before[a].tax_year < before[b].tax_year);
        }
        assert forall|j: int, i: usize| 0 <= j < after.len() implies (
        #[trigger] after[j].short_term@.contains(i) <==> i < n + 1 && self.in_tax_year(
            gains[i as int].exit_date,
            after[j].tax_year as int,
        ) && !self.long_term(gains[i as int])) by {
            assert(before[j].short_term@.contains(i) <==> i < n && self.in_tax_year(
                gains[i as int].exit_date,
                before[j].tax_year as int,
            ) && !self.long_term(gains[i as int]));
            if j < k {
                assert(before[j].tax_year < before[k].tax_year);
            } else if j > k {
                assert(before[k].tax_year < before[j].tax_year);
            }
        }
        assert forall|j: int, i: usize| 0 <= j < after.len() implies (
        #[trigger] after[j].long_term@.contains(i) <==> i < n + 1 && self.in_tax_year(
            gains[i as int].exit_date,
            after[j].tax_year as int,
        ) && self.long_term(gains[i as int])) by {
            assert(before[j].long_term@.contains(i) <==> i < n && self.in_tax_year(
                gains[i as int].exit_date,
                before[j].tax_year as int,
            ) && self.long_term(gains[i as int]));
            if j < k {
                assert(before[j].tax_year < before[k].tax_year);
            } else if j > k {
                assert(before[k].tax_year < before[j].tax_year);
            }
        }
        assert forall|i: int| 0 <= i < n + 1 implies exists|j: int|
            0 <= j < after.len() && self.in_tax_year(
                (#[trigger] gains[i]).exit_date,
                (#[trigger] after[j]).tax_year as int,
            ) by {
            if i < n {
                let j = choose|j: int|
                    0 <= j < before.len() && self.in_tax_year(
                        gains[i].exit_date,
                        (#[trigger] before[j]).tax_year as int,
                    );
                assert(after[j].tax_year == before[j].tax_year);
            } else {
                assert(after[k].tax_year == before[k].tax_year);
            }
        }
    }

    /// Opening a bucket for the year of a gain keeps the buckets right.
    proof fn lemma_opened(
        self,
        before: Seq<TaxYear>,
        after: Seq<TaxYear>,
        gains: Seq<RealizedGain>,
        n: int,
        k: int,
    )
        requires
            self.assessed(before, gains, n),
            0 <= n < gains.len(),
            n <= usize::MAX,
            0 <= k <= before.len(),
            after == before.insert(k, after[k]),
            forall|j: int| 0 <= j < k ==> (#[trigger] before[j]).tax_year < after[k].tax_year,
            k < before.len() ==> before[k].tax_year > after[k].tax_year,
            self.in_tax_year(gains[n].exit_date, after[k].tax_year as int),
            forall|z: int|
                self.in_tax_year(gains[n].exit_date, z) ==> z == after[k].tax_year,
            forall|i: usize| #[trigger]
                after[k].short_term@.contains(i) <==> i == n && !self.long_term(gains[n]),
            forall|i: usize| #[trigger]
                after[k].long_term@.contains(i) <==> i == n && self.long_term(gains[n]),
            order::once_each(after[k].short_term@),
            order::once_each(after[k].long_term@),
            after[k].short_term@.len() + after[k].long_term@.len() > 0,
        ensures
            self.assessed(after, gains, n + 1),
    {
        let year = after[k].tax_year;
        assert forall|j: int| 0 <= j < before.len() implies (#[trigger] before[j]).tax_year
            != year by {
            if j > k {
                assert(before[k].tax_year < before[j].tax_year);
            }
        }
        assert forall|a: int, b: int| 0 <= a < b < after.len() implies (
        #[trigger] after[a]).tax_year < (#[trigger] after[b]).tax_year by {
            let oa = if a < k { a } else { a - 1 };
            let ob = if b < k { b } else { b - 1 };
            if a == k {
                assert(after[b] == before[b - 1]);
                if b - 1 > k {
                    assert(before[k].tax_year < before[b - 1].tax_year);
                }
            } else if b == k {
                assert(after[a] == before[a]);
            } else {
                assert(before[oa].tax_year < before[ob].tax_year);
            }
        }
        // No earlier gain falls in the new year.
        assert forall|i: int| 0 <= i < n implies !self.in_tax_year(
            (#[trigger] gains[i]).exit_date,
            year as int,
        ) by {
            if self.in_tax_year(gains[i].exit_date, year as int) {
                let j = choose|j: int|
                    0 <= j < before.len() && self.in_tax_year(
                        gains[i].exit_date,
                        (#[trigger] before[j]).tax_year as int,
                    );
                self.lemma_one_year(gains[i].exit_date, year as int, before[j].tax_year as int);
            }
        }
        assert forall|j: int, i: usize| 0 <= j < after.len() implies (
        #[trigger] after[j].short_term@.contains(i) <==> i < n + 1 && self.in_tax_year(
            gains[i as int].exit_date,
            after[j].tax_year as int,
        ) && !self.long_term(gains[i as int])) by {
            if j != k {
                let o = if j < k { j } else { j - 1 };
                assert(after[j] == before[o]);
                assert(before[o].short_term@.contains(i) <==> i < n && self.in_tax_year(
                    gains[i as int].exit_date,
                    before[o].tax_year as int,
                ) && !self.long_term(gains[i as int]));
            }
        }
        assert forall|j: int, i: usize| 0 <= j < after.len() implies (
        #[trigger] after[j].long_term@.contains(i) <==> i < n + 1 && self.in_tax_year(
            gains[i as int].exit_date,
            after[j].tax_year as int,
        ) && self.long_term(gains[i as int])) by {
            if j != k {
                let o = if j < k { j } else { j - 1 };
                assert(after[j] == before[o]);
                assert(before[o].long_term@.contains(i) <==> i < n && self.in_tax_year(
                    gains[i as int].exit_date,
                    before[o].tax_year as int,
                ) && self.long_term(gains[i as int]));
            }
        }
        assert forall|i: int| 0 <= i < n + 1 implies exists|j: int|
            0 <= j < after.len() && self.in_tax_year(
                (#[trigger] gains[i]).exit_date,
                (#[trigger] after[j]).tax_year as int,
            ) by {
            if i < n {
                let j = choose|j: int|
                    0 <= j < before.len() && self.in_tax_year(
                        gains[i].exit_date,
                        (#[trigger] before[j]).tax_year as int,
                    );
                let a = if j < k { j } else { j + 1 };
                assert(after[a] == before[j]);
            } else {
                assert(after[k].tax_year == year);
            }
        }
    }

    /// A date falls in one tax year only.
    proof fn lemma_one_year(self, d: Date, a: int, b: int)
        requires
            self.in_tax_year(d, a),
            self.in_tax_year(d, b),
        ensures
            a == b,
    {
        calendar::every_day_is_a_date(d.days as int);
        let (y, m, day) = choose|y: int, m: int, day: int|
            calendar::civil(y, m, day) && #[trigger] calendar::day_number(y, m, day) == d.days;
        assert(d.is_ymd(y, m, day));
    }
}

/// A later position goes to the end.
proof fn lemma_push_once(s: Seq<usize>, x: usize)
    requires
        order::once_each(s),
        forall|i: usize| #[trigger] s.contains(i) ==> i < x,
    ensures
        order::once_each(s.push(x)),
{
    assert forall|i: int, j: int| 0 <= i < j < s.push(x).len() implies (#[trigger] s.push(x)[i]) < (
    #[trigger] s.push(x)[j]) by {
        assert(s.contains(s[i]));
    }
}

/// Membership after a push.
proof fn lemma_push_contains(s: Seq<usize>, x: usize)
    ensures
        forall|i: usize| #[trigger] s.push(x).contains(i) <==> s.contains(i) || i == x,
{
    assert forall|i: usize| #[trigger] s.push(x).contains(i) <==> s.contains(i) || i == x by {
        if s.contains(i) {
            let k = choose|k: int| 0 <= k < s.len() && s[k] == i;
            assert(s.push(x)[k] == i);
        }
        if i == x {
            assert(s.push(x)[s.len() as int] == i);
        }
    }
}

/// A gain is long-term where more days than the threshold lie between purchase and sale: one day
/// more turns it, the year of the sale has no part in it, and neither has the profit.
pub proof fn long_term_is_a_matter_of_days(
    model: TaxModel,
    a: RealizedGain,
    b: RealizedGain,
    ra: bool,
    rb: bool,
)
    requires
        call_ensures(TaxModel::is_long_term, (&model, &a), ra),
        call_ensures(TaxModel::is_long_term, (&model, &b), rb),
    ensures
        a.exit_date.days - a.entry_date.days == model.long_term_days ==> !ra,
        a.exit_date.days - a.entry_date.days == model.long_term_days + 1 ==> ra,
        b.exit_date.days - b.entry_date.days >= a.exit_date.days - a.entry_date.days && ra ==> rb,
{
}

/// The tax year of a day is the calendar year from the month on in which tax years start, and the
/// one before in the months ahead of it.
pub proof fn tax_years_start_in_their_month(
    model: TaxModel,
    d: Date,
    r: i32,
    y: int,
    m: int,
    day: int,
)
    requires
        call_ensures(TaxModel::tax_year, (&model, d), r),
        d.is_ymd(y, m, day),
        1 <= model.fiscal_year_start_month <= 12,
    ensures
        m >= model.fiscal_year_start_month ==> r == y,
        m < model.fiscal_year_start_month ==> r == y - 1,
{
}

/// Every gain is taxed in one year, that of its sale, and on one side: with the long-term gains
/// exactly where it was held for longer than the threshold.
pub proof fn a_gain_is_taxed_once_in_the_year_of_its_sale(
    model: TaxModel,
    gains: Vec<RealizedGain>,
    r: Vec<TaxYear>,
    i: usize,
    year: i32,
    long: bool,
    k: int,
)
    requires
        call_ensures(TaxModel::assess, (&model, &gains), r),
        i < gains@.len(),
        call_ensures(TaxModel::tax_year, (&model, gains@[i as int].exit_date), year),
        call_ensures(TaxModel::is_long_term, (&model, &gains@[i as int]), long),
        0 <= k < r@.len(),
        gains@[i as int].exit_date.in_range(),
    ensures
        r@[k].tax_year == year && long ==> r@[k].long_term@.contains(i)
            && !r@[k].short_term@.contains(i),
        r@[k].tax_year == year && !long ==> r@[k].short_term@.contains(i)
            && !r@[k].long_term@.contains(i),
        r@[k].tax_year != year ==> !r@[k].short_term@.contains(i) && !r@[k].long_term@.contains(i),
        exists|q: int| 0 <= q < r@.len() && (#[trigger] r@[q]).tax_year == year,
{
    let g = gains@[i as int];
    assert(model.in_tax_year(g.exit_date, year as int));
    let q = choose|q: int|
        0 <= q < r@.len() && model.in_tax_year(g.exit_date, (#[trigger] r@[q]).tax_year as int);
    model.lemma_one_year(g.exit_date, r@[q].tax_year as int, year as int);
    if model.in_tax_year(g.exit_date, r@[k].tax_year as int) {
        model.lemma_one_year(g.exit_date, r@[k].tax_year as int, year as int);
    }
    assert(r@[k].short_term@.contains(i) <==> model.in_tax_year(
        g.exit_date,
        r@[k].tax_year as int,
    ) && !model.long_term(g));
    assert(r@[k].long_term@.contains(i) <==> model.in_tax_year(g.exit_date, r@[k].tax_year as int)
        && model.long_term(g));
}

/// Without tax nothing is taken. In India a short holding is taxed at a fifth and a long one at an
/// eighth beyond 125000 a year, in years that start in April; in the United States at 24 and 15 in
/// a hundred, in calendar years. A holding is long from a year on.
pub proof fn taxes_are_those_of_the_country(none: TaxModel, india: TaxModel, us: TaxModel)
    requires
        call_ensures(TaxModel::none, (), none),
        call_ensures(TaxModel::india_equity, (), india),
        call_ensures(TaxModel::us_taxable, (), us),
    ensures
        none.short_term_rate.bits == 0 && none.long_term_rate.bits == 0
            && none.annual_long_term_exemption.bits == 0,
        none.fiscal_year_start_month == 1,
        india.long_term_rate.lt(india.short_term_rate) && us.long_term_rate.lt(us.short_term_rate),
        india.short_term_rate.bits == 0x3FC9_9999_9999_999A && india.long_term_rate.bits
            == 0x3FC0_0000_0000_0000 && india.annual_long_term_exemption.bits
            == 0x40FE_8480_0000_0000,
        us.short_term_rate.bits == 0x3FCE_B851_EB85_1EB8 && us.long_term_rate.bits
            == 0x3FC3_3333_3333_3333 && us.annual_long_term_exemption.bits == 0,
        india.fiscal_year_start_month == 4 && us.fiscal_year_start_month == 1,
        none.long_term_days == 365 && india.long_term_days == 365 && us.long_term_days == 365,
{
}

} // verus!
