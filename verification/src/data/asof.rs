//! A view of the data as of a date.
//!
//! Look-ahead is the most common way in which a backtest lies. A view never
//! returns a row that was not public by its date, whatever the rows it is
//! given, and for a past date it accepts only fundamentals that were built
//! from dated filings.

use vstd::prelude::*;

use crate::calendar;
use crate::calendar::Date;
use crate::data::source::PriceBar;
use crate::data::types::{InsiderTrade, MacroDataPoint, NewsItem, PitFact, RedditSnapshot};
use crate::text;

verus! {

/// A date within this many days of today counts as live: sources that only describe the present
/// describe it too.
pub const LIVE_GRACE_DAYS: i64 = 3;

/// Days within which a snapshot of mentions must have been collected.
pub const COLLECTION_GRACE_DAYS: i64 = 3;

/// Whether a date lies so far back that what describes the present must not be used for it.
pub open spec fn historical(as_of: int, today: int) -> bool {
    as_of < today - LIVE_GRACE_DAYS
}

/// Whether `as_of` lies so far before `today` that what describes the present must not be used.
pub fn is_historical(as_of: Date, today: Date) -> (r: bool)
    ensures
        r == historical(as_of.days as int, today.days as int),
{
    (as_of.days as i64) < today.days as i64 - LIVE_GRACE_DAYS
}

/// A row that becomes public on some day.
pub trait Dated {
    /// Whether the row was public by a day.
    spec fn public_by(&self, day: int) -> bool;

    /// Whether the row was public by a date.
    fn is_public_by(&self, date: Date) -> (r: bool)
        ensures
            r == self.public_by(date.days as int),
    ;
}

impl Dated for PriceBar {
    open spec fn public_by(&self, day: int) -> bool {
        self.date.days <= day
    }

    fn is_public_by(&self, date: Date) -> (r: bool) {
        self.date.days <= date.days
    }
}

impl Dated for InsiderTrade {
    open spec fn public_by(&self, day: int) -> bool {
        self.filing_date.days <= day && self.trade_date.days <= day
    }

    fn is_public_by(&self, date: Date) -> (r: bool) {
        self.filing_date.days <= date.days && self.trade_date.days <= date.days
    }
}

impl Dated for NewsItem {
    open spec fn public_by(&self, day: int) -> bool {
        self.article_date.days <= day
    }

    fn is_public_by(&self, date: Date) -> (r: bool) {
        self.article_date.days <= date.days
    }
}

impl Dated for RedditSnapshot {
    open spec fn public_by(&self, day: int) -> bool {
        self.fetch_date.days <= day
    }

    fn is_public_by(&self, date: Date) -> (r: bool) {
        self.fetch_date.days <= date.days
    }
}

impl Dated for MacroDataPoint {
    open spec fn public_by(&self, day: int) -> bool {
        self.date.days <= day
    }

    fn is_public_by(&self, date: Date) -> (r: bool) {
        self.date.days <= date.days
    }
}

impl Dated for PitFact {
    open spec fn public_by(&self, day: int) -> bool {
        self.filed.days <= day
    }

    fn is_public_by(&self, date: Date) -> (r: bool) {
        self.filed.days <= date.days
    }
}

/// The rows that were public by a day, in their order.
pub open spec fn known_by<T: Dated>(rows: Seq<T>, day: int) -> Seq<T> {
    rows.filter(|x: T| x.public_by(day))
}

/// Keeps the rows that were public by a date.
fn retain_public<T: Dated>(rows: Vec<T>, date: Date) -> (r: Vec<T>)
    ensures
        r@ == known_by(rows@, date.days as int),
{
    let mut rest: Vec<T> = rows;
    let mut out: Vec<T> = Vec::new();
    let ghost all = rows@;
    let ghost keep = |x: T| x.public_by(date.days as int);
    let n: usize = rest.len();
    let mut i: usize = 0;
    proof {
        assert(all.skip(0) =~= rest@);
        reveal(Seq::filter);
        assert(all.take(0) =~= seq![]);
        assert(out@ =~= all.take(0).filter(keep));
    }
    while i < n
        invariant
            i <= n,
            n == all.len(),
            rest@ == all.skip(i as int),
            keep == (|x: T| x.public_by(date.days as int)),
            out@ == all.take(i as int).filter(keep),
        decreases n - i,
    {
        let row: T = rest.remove(0);
        proof {
            assert(row == all[i as int]);
            assert(rest@ =~= all.skip(i + 1));
            reveal(Seq::filter);
            assert(all.take(i + 1).drop_last() =~= all.take(i as int));
            assert(all.take(i + 1).last() == row);
        }
        if row.is_public_by(date) {
            out.push(row);
        }
        i = i + 1;
    }
    proof {
        assert(all.take(n as int) =~= all);
    }
    out
}

/// Nothing that became public after a day is known by it.
pub proof fn nothing_later_is_known<T: Dated>(rows: Seq<T>, day: int, i: int)
    requires
        0 <= i < known_by(rows, day).len(),
    ensures
        known_by(rows, day)[i].public_by(day),
{
    broadcast use vstd::seq_lib::group_filter_ensures;

    assert(known_by(rows, day)[i].public_by(day));
}

/// Everything that was public by a day is known by it.
pub proof fn what_was_public_is_known<T: Dated>(rows: Seq<T>, day: int, i: int)
    requires
        0 <= i < rows.len(),
        rows[i].public_by(day),
    ensures
        known_by(rows, day).contains(rows[i]),
{
    broadcast use vstd::seq_lib::group_filter_ensures;

}

/// Moving a view forward only adds rows: what was known stays known.
pub proof fn later_views_know_more(rows: Seq<PitFact>, a: int, b: int, x: PitFact)
    requires
        a <= b,
        known_by(rows, a).contains(x),
    ensures
        known_by(rows, b).contains(x),
{
    broadcast use vstd::seq_lib::group_filter_ensures;

    rows.lemma_filter_contains_rev(|f: PitFact| f.public_by(a), x);
    let k = choose|k: int| 0 <= k < known_by(rows, a).len() && known_by(rows, a)[k] == x;
    assert(known_by(rows, a)[k].public_by(a));
    let i = choose|i: int| 0 <= i < rows.len() && rows[i] == x;
    assert(known_by(rows, b).contains(rows[i]));
}

/// A read-only view of the data as of a date.
#[derive(Clone, Copy, Debug, PartialEq, Eq, Structural)]
pub struct AsOf {
    pub date: Date,
    /// The day on which the view is used.
    pub today: Date,
}

impl AsOf {
    /// The view of `date`, used on `today`.
    pub fn new(date: Date, today: Date) -> (r: AsOf)
        ensures
            r.date == date,
            r.today == today,
    {
        AsOf { date, today }
    }

    /// Whether the view describes the past.
    pub fn is_historical(&self) -> (r: bool)
        ensures
            r == historical(self.date.days as int, self.today.days as int),
    {
        is_historical(self.date, self.today)
    }

    /// The days to ask for: from `lookback_days` before the view's date through it.
    pub fn range(&self, lookback_days: i64) -> (r: (Date, Date))
        requires
            self.date.in_range(),
            calendar::day_in_range(self.date.days - lookback_days),
            lookback_days > i64::MIN,
        ensures
            r.0.days == self.date.days - lookback_days,
            r.1 == self.date,
    {
        (self.date.plus_days(-lookback_days), self.date)
    }

    /// The bars that were known.
    pub fn price_bars(&self, rows: Vec<PriceBar>) -> (r: Vec<PriceBar>)
        ensures
            r@ == known_by(rows@, self.date.days as int),
    {
        retain_public(rows, self.date)
    }

    /// The last bar that was known.
    pub fn last_bar(&self, rows: Vec<PriceBar>) -> (r: Option<PriceBar>)
        ensures
            r == (if known_by(rows@, self.date.days as int).len() == 0 {
                None
            } else {
                Some(known_by(rows@, self.date.days as int).last())
            }),
            r matches Some(b) ==> b.date.days <= self.date.days,
    {
        let ghost all = rows@;
        let known: Vec<PriceBar> = retain_public(rows, self.date);
        if known.len() == 0 {
            None
        } else {
            proof {
                nothing_later_is_known(all, self.date.days as int, known@.len() - 1);
            }
            Some(known[known.len() - 1])
        }
    }

    /// The insider trades whose filing was public.
    pub fn insider_trades(&self, rows: Vec<InsiderTrade>) -> (r: Vec<InsiderTrade>)
        ensures
            r@ == known_by(rows@, self.date.days as int),
    {
        retain_public(rows, self.date)
    }

    /// The articles that had appeared.
    pub fn news_items(&self, rows: Vec<NewsItem>) -> (r: Vec<NewsItem>)
        ensures
            r@ == known_by(rows@, self.date.days as int),
    {
        retain_public(rows, self.date)
    }

    /// The snapshots that had been taken.
    pub fn reddit_snapshots(&self, rows: Vec<RedditSnapshot>) -> (r: Vec<RedditSnapshot>)
        ensures
            r@ == known_by(rows@, self.date.days as int),
    {
        retain_public(rows, self.date)
    }

    /// The macro values that had been published.
    pub fn macro_points(&self, rows: Vec<MacroDataPoint>) -> (r: Vec<MacroDataPoint>)
        ensures
            r@ == known_by(rows@, self.date.days as int),
    {
        retain_public(rows, self.date)
    }

    /// The company facts that had been filed.
    pub fn pit_facts(&self, rows: Vec<PitFact>) -> (r: Vec<PitFact>)
        ensures
            r@ == known_by(rows@, self.date.days as int),
    {
        retain_public(rows, self.date)
    }

    /// Whether stored fundamentals of this provenance may describe the view's date: for a past
    /// date only those built from dated filings.
    pub fn accepts_fundamentals(&self, source: Option<&str>) -> (r: bool)
        ensures
            r == (!historical(self.date.days as int, self.today.days as int) || (source matches Some(
                s,
            ) && s@ == "sec_pit"@)),
    {
        if !self.is_historical() {
            return true;
        }
        match source {
            Some(s) => text::same_text(s, "sec_pit"),
            None => false,
        }
    }
}

/// Whether a snapshot of mentions was collected on the day it is labelled with, give or take the
/// days allowed; one collected later describes another day.
pub fn is_genuine_snapshot(label: Date, collected: Date) -> (r: bool)
    ensures
        r == (collected.days <= label.days + COLLECTION_GRACE_DAYS),
{
    collected.days as i64 <= label.days as i64 + COLLECTION_GRACE_DAYS
}

/// The latest of `dates` that is not after `as_of` and not more than `max_age_days` before it.
pub fn latest_usable(dates: &Vec<Date>, as_of: Date, max_age_days: i64) -> (r: Option<Date>)
    requires
        -0x4000_0000_0000 <= max_age_days <= 0x4000_0000_0000,
    ensures
        match r {
            Some(d) => dates@.contains(d) && as_of.days - max_age_days <= d.days <= as_of.days
                && forall|i: int|
                0 <= i < dates@.len() && (#[trigger] dates@[i]).days <= as_of.days
                    ==> dates@[i].days <= d.days,
            None => forall|i: int|
                0 <= i < dates@.len() ==> !(as_of.days - max_age_days <= (
                #[trigger] dates@[i]).days <= as_of.days),
        },
{
    let oldest: i64 = as_of.days as i64 - max_age_days;
    let mut best: Option<Date> = None;
    let mut i: usize = 0;
    while i < dates.len()
        invariant
            i <= dates.len(),
            oldest == as_of.days - max_age_days,
            match best {
                Some(d) => dates@.contains(d) && oldest <= d.days <= as_of.days && forall|k: int|
                    0 <= k < i && (#[trigger] dates@[k]).days <= as_of.days ==> dates@[k].days
                        <= d.days,
                None => forall|k: int|
                    0 <= k < i ==> !(oldest <= (#[trigger] dates@[k]).days <= as_of.days),
            },
        decreases dates.len() - i,
    {
        let d: Date = dates[i];
        let usable: bool = oldest <= d.days as i64 && d.days <= as_of.days;
        proof {
            assert(dates@[i as int] == d);
        }
        match best {
            Some(b) => {
                if usable && d.days > b.days {
                    best = Some(d);
                }
            },
            None => {
                if usable {
                    best = Some(d);
                }
            },
        }
        i = i + 1;
    }
    best
}

/// A view holds an insider trade exactly where it had been made and its filing was public by the
/// view's date: a trade that was filed later is not in it, however early it was made.
pub proof fn trades_are_seen_once_filed(view: AsOf, rows: Vec<InsiderTrade>, r: Vec<InsiderTrade>)
    requires
        call_ensures(AsOf::insider_trades, (&view, rows), r),
    ensures
        forall|k: int|
            0 <= k < r@.len() ==> (#[trigger] r@[k]).filing_date.days <= view.date.days
                && r@[k].trade_date.days <= view.date.days,
        forall|i: int|
            0 <= i < rows@.len() && (#[trigger] rows@[i]).filing_date.days <= view.date.days
                && rows@[i].trade_date.days <= view.date.days ==> r@.contains(rows@[i]),
{
    let day = view.date.days as int;
    assert forall|k: int| 0 <= k < r@.len() implies (#[trigger] r@[k]).filing_date.days <= day
        && r@[k].trade_date.days <= day by {
        nothing_later_is_known(rows@, day, k);
    }
    assert forall|i: int| 0 <= i < rows@.len() && (#[trigger] rows@[i]).filing_date.days <= day
        && rows@[i].trade_date.days <= day implies r@.contains(rows@[i]) by {
        what_was_public_is_known(rows@, day, i);
    }
}

/// A view holds the bars through its date and none after it.
pub proof fn bars_are_seen_through_the_date(
    view: AsOf,
    rows: Vec<PriceBar>,
    r: Vec<PriceBar>,
    last: Option<PriceBar>,
)
    requires
        call_ensures(AsOf::price_bars, (&view, rows), r),
        call_ensures(AsOf::last_bar, (&view, rows), last),
    ensures
        forall|k: int| 0 <= k < r@.len() ==> (#[trigger] r@[k]).date.days <= view.date.days,
        forall|i: int|
            0 <= i < rows@.len() && (#[trigger] rows@[i]).date.days <= view.date.days
                ==> r@.contains(rows@[i]),
        last is None <==> r@.len() == 0,
        last matches Some(b) ==> b == r@[r@.len() - 1],
{
    let day = view.date.days as int;
    assert forall|k: int| 0 <= k < r@.len() implies (#[trigger] r@[k]).date.days <= day by {
        nothing_later_is_known(rows@, day, k);
    }
    assert forall|i: int| 0 <= i < rows@.len() && (#[trigger] rows@[i]).date.days
        <= day implies r@.contains(rows@[i]) by {
        what_was_public_is_known(rows@, day, i);
    }
}

/// A view holds the facts that had been filed, whatever period they are about.
pub proof fn facts_are_seen_once_filed(view: AsOf, rows: Vec<PitFact>, r: Vec<PitFact>)
    requires
        call_ensures(AsOf::pit_facts, (&view, rows), r),
    ensures
        forall|k: int| 0 <= k < r@.len() ==> (#[trigger] r@[k]).filed.days <= view.date.days,
        forall|i: int|
            0 <= i < rows@.len() && (#[trigger] rows@[i]).filed.days <= view.date.days
                ==> r@.contains(rows@[i]),
{
    let day = view.date.days as int;
    assert forall|k: int| 0 <= k < r@.len() implies (#[trigger] r@[k]).filed.days <= day by {
        nothing_later_is_known(rows@, day, k);
    }
    assert forall|i: int| 0 <= i < rows@.len() && (#[trigger] rows@[i]).filed.days
        <= day implies r@.contains(rows@[i]) by {
        what_was_public_is_known(rows@, day, i);
    }
}

/// Articles, snapshots of mentions and macro values are seen from their own day on.
pub proof fn dated_rows_are_seen_from_their_day(
    view: AsOf,
    news: Vec<NewsItem>,
    mentions: Vec<RedditSnapshot>,
    points: Vec<MacroDataPoint>,
    rn: Vec<NewsItem>,
    rm: Vec<RedditSnapshot>,
    rp: Vec<MacroDataPoint>,
)
    requires
        call_ensures(AsOf::news_items, (&view, news), rn),
        call_ensures(AsOf::reddit_snapshots, (&view, mentions), rm),
        call_ensures(AsOf::macro_points, (&view, points), rp),
    ensures
        forall|k: int|
            0 <= k < rn@.len() ==> (#[trigger] rn@[k]).article_date.days <= view.date.days,
        forall|i: int|
            0 <= i < news@.len() && (#[trigger] news@[i]).article_date.days <= view.date.days
                ==> rn@.contains(news@[i]),
        forall|k: int|
            0 <= k < rm@.len() ==> (#[trigger] rm@[k]).fetch_date.days <= view.date.days,
        forall|i: int|
            0 <= i < mentions@.len() && (#[trigger] mentions@[i]).fetch_date.days <= view.date.days
                ==> rm@.contains(mentions@[i]),
        forall|k: int| 0 <= k < rp@.len() ==> (#[trigger] rp@[k]).date.days <= view.date.days,
        forall|i: int|
            0 <= i < points@.len() && (#[trigger] points@[i]).date.days <= view.date.days
                ==> rp@.contains(points@[i]),
{
    let day = view.date.days as int;
    assert forall|k: int| 0 <= k < rn@.len() implies (#[trigger] rn@[k]).article_date.days
        <= day by {
        nothing_later_is_known(news@, day, k);
    }
    assert forall|i: int| 0 <= i < news@.len() && (#[trigger] news@[i]).article_date.days
        <= day implies rn@.contains(news@[i]) by {
        what_was_public_is_known(news@, day, i);
    }
    assert forall|k: int| 0 <= k < rm@.len() implies (#[trigger] rm@[k]).fetch_date.days <= day by {
        nothing_later_is_known(mentions@, day, k);
    }
    assert forall|i: int| 0 <= i < mentions@.len() && (#[trigger] mentions@[i]).fetch_date.days
        <= day implies rm@.contains(mentions@[i]) by {
        what_was_public_is_known(mentions@, day, i);
    }
    assert forall|k: int| 0 <= k < rp@.len() implies (#[trigger] rp@[k]).date.days <= day by {
        nothing_later_is_known(points@, day, k);
    }
    assert forall|i: int| 0 <= i < points@.len() && (#[trigger] points@[i]).date.days
        <= day implies rp@.contains(points@[i]) by {
        what_was_public_is_known(points@, day, i);
    }
}

/// What describes the present is used for a day of the last three and for no earlier one; figures
/// built from dated filings are always used.
pub proof fn the_present_describes_the_last_days_alone(
    view: AsOf,
    past: bool,
    unknown: bool,
    current: bool,
    dated: bool,
    source: &str,
    pit: &str,
)
    requires
        call_ensures(AsOf::is_historical, (&view,), past),
        call_ensures(AsOf::accepts_fundamentals, (&view, None::<&str>), unknown),
        call_ensures(AsOf::accepts_fundamentals, (&view, Some(source)), current),
        call_ensures(AsOf::accepts_fundamentals, (&view, Some(pit)), dated),
        source@ != "sec_pit"@,
        pit@ == "sec_pit"@,
    ensures
        past <==> view.today.days - view.date.days > 3,
        unknown == !past,
        current == !past,
        dated,
{
}

/// A snapshot counts for its label where it was collected by three days after it.
pub proof fn snapshots_are_collected_by_their_label(label: Date, collected: Date, r: bool)
    requires
        call_ensures(is_genuine_snapshot, (label, collected), r),
    ensures
        r <==> collected.days - label.days <= 3,
{
}

/// The date used is the latest one known by the day asked for, provided that it is not too old, and
/// there is one exactly where some date is neither later nor too old.
pub proof fn the_latest_known_date_is_used(
    dates: Vec<Date>,
    as_of: Date,
    max_age_days: i64,
    r: Option<Date>,
    i: int,
)
    requires
        0 <= max_age_days <= 0x4000_0000_0000,
        call_ensures(latest_usable, (&dates, as_of, max_age_days), r),
        0 <= i < dates@.len(),
        dates@[i].days <= as_of.days,
    ensures
        as_of.days - dates@[i].days <= max_age_days ==> r is Some,
        r matches Some(d) ==> dates@[i].days <= d.days <= as_of.days && as_of.days - d.days
            <= max_age_days,
{
    let args = (&dates, as_of, max_age_days);
    assert(args.0@[i].days <= as_of.days);
}

/// A range ends on the date and starts so many days before it.
pub proof fn ranges_end_on_the_date(x: AsOf, lookback_days: i64, r: (Date, Date))
    requires
        x.date.in_range(),
        calendar::day_in_range(x.date.days - lookback_days),
        lookback_days > i64::MIN,
        call_ensures(AsOf::range, (&x, lookback_days), r),
    ensures
        r.1 == x.date,
        r.1.days - r.0.days == lookback_days,
{
}

} // verus!
