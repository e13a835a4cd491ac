//! Quotes and company data from Yahoo.

use vstd::prelude::*;
use vstd::string::*;

use crate::calendar;
use crate::calendar::Date;
use crate::data::json::{Json, JsonView};
use crate::data::source;
use crate::data::source::{AssetInfo, MarketCap, PriceBar};
use crate::number::Number;
use crate::text;

verus! {

/// A bar as it is quoted.
#[derive(Clone, Copy, Debug, PartialEq, Eq, Structural)]
pub struct QuotedBar {
    pub date: Date,
    pub open: Number,
    pub high: Number,
    pub low: Number,
    pub close: Number,
    pub adj_close: Number,
    pub volume: u64,
}

/// The columns of a chart; a column may be shorter than the others, and hold gaps.
#[derive(Debug)]
pub struct Columns {
    pub timestamps: Vec<i64>,
    pub open: Vec<Option<Number>>,
    pub high: Vec<Option<Number>>,
    pub low: Vec<Option<Number>>,
    pub close: Vec<Option<Number>>,
    pub volume: Vec<Option<u64>>,
    pub adj_close: Vec<Option<Number>>,
}

/// What a column holds at a position.
pub open spec fn at<T>(s: Seq<Option<T>>, i: int) -> Option<T> {
    if 0 <= i < s.len() {
        s[i]
    } else {
        None
    }
}

/// The bar at a position, where no column but that of the adjusted close has a gap there and the
/// timestamp is one of a representable day. Without an adjusted close the close stands for it.
pub open spec fn bar_at(c: Columns, i: int) -> Option<QuotedBar> {
    let day = c.timestamps@[i] as int / 86_400 + calendar::EPOCH_DAY;
    match (
        at(c.open@, i),
        at(c.high@, i),
        at(c.low@, i),
        at(c.close@, i),
        at(c.volume@, i),
        calendar::day_in_range(day),
    ) {
        (Some(open), Some(high), Some(low), Some(close), Some(volume), true) => Some(
            QuotedBar {
                date: Date { days: day as i32 },
                open,
                high,
                low,
                close,
                adj_close: match at(c.adj_close@, i) {
                    Some(x) => x,
                    None => close,
                },
                volume,
            },
        ),
        _ => None,
    }
}

/// The bars at the first `n` positions.
pub open spec fn bars_upto(c: Columns, n: int) -> Seq<QuotedBar>
    decreases n,
{
    if n <= 0 {
        seq![]
    } else {
        let rest = bars_upto(c, n - 1);
        match bar_at(c, n - 1) {
            Some(b) => rest.push(b),
            None => rest,
        }
    }
}

/// What a column of numbers holds at a position.
fn number_at(v: &Vec<Option<Number>>, i: usize) -> (r: Option<Number>)
    ensures
        r == at(v@, i as int),
{
    if i < v.len() {
        v[i]
    } else {
        None
    }
}

/// What a column of volumes holds at a position.
fn volume_at(v: &Vec<Option<u64>>, i: usize) -> (r: Option<u64>)
    ensures
        r == at(v@, i as int),
{
    if i < v.len() {
        v[i]
    } else {
        None
    }
}

/// The bars of a chart; positions with a gap are skipped.
pub fn chart_bars(c: &Columns) -> (r: Vec<QuotedBar>)
    ensures
        r@ == bars_upto(*c, c.timestamps@.len() as int),
{
    let mut out: Vec<QuotedBar> = Vec::new();
    let mut i: usize = 0;
    while i < c.timestamps.len()
        invariant
            i <= c.timestamps@.len(),
            out@ == bars_upto(*c, i as int),
        decreases c.timestamps@.len() - i,
    {
        let date: Option<Date> = Date::from_timestamp(c.timestamps[i]);
        let volume: Option<u64> = volume_at(&c.volume, i);
        match (
            number_at(&c.open, i),
            number_at(&c.high, i),
            number_at(&c.low, i),
            number_at(&c.close, i),
        ) {
            (Some(open), Some(high), Some(low), Some(close)) => {
                match (volume, date) {
                    (Some(volume), Some(date)) => {
                        let adj_close: Number = match number_at(&c.adj_close, i) {
                            Some(x) => x,
                            None => close,
                        };
                        let b: QuotedBar = QuotedBar {
                            date,
                            open,
                            high,
                            low,
                            close,
                            adj_close,
                            volume,
                        };
                        proof {
                            assert(bar_at(*c, i as int) == Some(b));
                        }
                        out.push(b);
                    },
                    _ => {},
                }
            },
            _ => {},
        }
        i = i + 1;
    }
    out
}

/// The request for the bars of a ticker from one date through another.
pub fn chart_url(ticker: &str, from: Date, to: Date) -> (r: String)
    requires
        from.in_range(),
        calendar::day_in_range(to.days + 1),
    ensures
        r@ == "https://query1.finance.yahoo.com/v8/finance/chart/"@ + ticker@ + "?period1="@
            + text::signed_decimal((from.days - calendar::EPOCH_DAY) * 86_400) + "&period2="@
            + text::signed_decimal((to.days + 1 - calendar::EPOCH_DAY) * 86_400)
            + "&interval=1d&includeAdjustedClose=true"@,
{
    let mut s: String = "https://query1.finance.yahoo.com/v8/finance/chart/".to_owned();
    s.append(ticker);
    s.append("?period1=");
    s.append(text::signed_text(from.to_epoch()).as_str());
    s.append("&period2=");
    s.append(text::signed_text(to.plus_days(1).to_epoch()).as_str());
    s.append("&interval=1d&includeAdjustedClose=true");
    s
}

/// The crumb that a reply holds: the reply must have succeeded, hold something and not speak of an
/// error.
pub fn accept_crumb(succeeded: bool, body: &str) -> (r: Option<String>)
    ensures
        match r {
            Some(c) => succeeded && body@.len() > 0 && !text::occurs(body@, "error"@) && c@
                == text::trimmed(body@),
            None => !succeeded || body@.len() == 0 || text::occurs(body@, "error"@),
        },
{
    if !succeeded || body.unicode_len() == 0 || text::contains(body, "error") {
        None
    } else {
        Some(text::trim(body))
    }
}

/// Today's open and latest price from the bars that were just fetched: the last bar's open where
/// it is today's, its close where it is not, and its adjusted close.
pub fn today_prices(fetched: &Vec<QuotedBar>, today: Date) -> (r: Option<(Number, Number)>)
    ensures
        r == (if fetched@.len() == 0 {
            None
        } else if fetched@.last().date.days == today.days {
            Some((fetched@.last().open, fetched@.last().adj_close))
        } else {
            Some((fetched@.last().close, fetched@.last().adj_close))
        }),
{
    if fetched.len() == 0 {
        return None;
    }
    let last: QuotedBar = fetched[fetched.len() - 1];
    if last.date.days == today.days {
        Some((last.open, last.adj_close))
    } else {
        Some((last.close, last.adj_close))
    }
}

/// The open and the latest price from stored bars, for when nothing could be fetched: those of the
/// last bar, or zero.
pub fn stored_prices(stored: &Vec<PriceBar>) -> (r: (Number, Number))
    ensures
        r == (if stored@.len() == 0 {
            (Number { bits: 0 }, Number { bits: 0 })
        } else {
            (stored@.last().open, stored@.last().adj_close)
        }),
{
    if stored.len() == 0 {
        return (Number::zero(), Number::zero());
    }
    let last: PriceBar = stored[stored.len() - 1];
    (last.open, last.adj_close)
}

// ── Company data ─────────────────────────────────────────────────────────────

/// The number that a field holds under `raw`.
pub open spec fn raw(v: Option<JsonView>) -> Option<Number> {
    match v {
        Some(x) => match x.member("raw"@) {
            Some(y) => y.number(),
            None => None,
        },
        None => None,
    }
}

/// The number that a field holds under `raw`.
pub fn extract_raw(v: Option<&Json>) -> (r: Option<Number>)
    ensures
        r == raw(
            match v {
                Some(j) => Some(j@),
                None => None,
            },
        ),
{
    match v {
        Some(x) => match x.member("raw") {
            Some(y) => y.as_number(),
            None => None,
        },
        None => None,
    }
}

/// The text of a field, where it is one.
pub open spec fn field_text(v: JsonView, name: Seq<char>) -> Option<Seq<char>> {
    match v.member(name) {
        Some(x) => x.text(),
        None => None,
    }
}

/// The text of a field, or a default.
pub open spec fn field_or(v: JsonView, name: Seq<char>, default: Seq<char>) -> Seq<char> {
    match field_text(v, name) {
        Some(s) => s,
        None => default,
    }
}

/// A company's name: the long one or, where that field is missing, the short one, or the ticker.
pub open spec fn company_name(v: JsonView, ticker: Seq<char>) -> Seq<char> {
    if v.member("longName"@) is Some {
        field_or(v, "longName"@, ticker)
    } else {
        field_or(v, "shortName"@, ticker)
    }
}

/// The text of a field, or a default.
fn text_or(v: &Json, name: &str, default: &str) -> (r: String)
    ensures
        r@ == field_or(v@, name@, default@),
{
    match v.member(name) {
        Some(x) => match x.as_text() {
            Some(s) => s.to_owned(),
            None => default.to_owned(),
        },
        None => default.to_owned(),
    }
}

/// What the price and profile modules of a reply say of a company.
pub fn asset_info(ticker: &str, price: &Json, profile: &Json) -> (r: AssetInfo)
    ensures
        r.ticker@ == ticker@,
        r.name@ == company_name(price@, ticker@),
        r.exchange@ == field_or(price@, "exchangeName"@, "UNKNOWN"@),
        r.currency@ == field_or(price@, "currency"@, "USD"@),
        match r.gics_industry {
            Some(s) => field_text(profile@, "industry"@) == Some(s@),
            None => field_text(profile@, "industry"@) is None,
        },
        r.market_cap_usd == raw(price@.member("marketCap"@)),
        r.market_cap_usd matches Some(cap) ==> r.market_cap_tier == Some(
            if cap.lt(Number { bits: source::TWO_BILLION }) {
                MarketCap::SmallCap
            } else if cap.lt(Number { bits: source::TEN_BILLION }) {
                MarketCap::MidCap
            } else {
                MarketCap::LargeCap
            },
        ),
        r.market_cap_usd is None ==> r.market_cap_tier is None,
{
    let name: String = if price.member("longName").is_some() {
        text_or(price, "longName", ticker)
    } else {
        text_or(price, "shortName", ticker)
    };
    let gics_industry: Option<String> = match profile.member("industry") {
        Some(x) => match x.as_text() {
            Some(s) => Some(s.to_owned()),
            None => None,
        },
        None => None,
    };
    let market_cap_usd: Option<Number> = extract_raw(price.member("marketCap"));
    let market_cap_tier: Option<MarketCap> = match market_cap_usd {
        Some(cap) => Some(source::classify_cap(cap)),
        None => None,
    };
    AssetInfo {
        ticker: ticker.to_owned(),
        name,
        exchange: text_or(price, "exchangeName", "UNKNOWN"),
        currency: text_or(price, "currency", "USD"),
        gics_industry,
        market_cap_usd,
        market_cap_tier,
    }
}

/// A company's current figures as quoted: margins and returns as fractions.
#[derive(Clone, Copy, Debug, PartialEq, Eq, Structural)]
pub struct CurrentFigures {
    pub total_revenue: Option<Number>,
    pub profit_margins: Option<Number>,
    pub debt_to_equity: Option<Number>,
    pub price_to_book: Option<Number>,
    pub operating_cashflow: Option<Number>,
    pub return_on_assets: Option<Number>,
    /// Gross profits, where revenue is known and greater than zero: the margin is their quotient.
    pub gross_profits: Option<Number>,
}

/// What the financial and key-statistics modules of a reply say of a company.
pub fn current_figures(financial: &Json, statistics: &Json) -> (r: CurrentFigures)
    ensures
        r.total_revenue == raw(financial@.member("totalRevenue"@)),
        r.profit_margins == raw(financial@.member("profitMargins"@)),
        r.debt_to_equity == raw(financial@.member("debtToEquity"@)),
        r.price_to_book == raw(statistics@.member("priceToBook"@)),
        r.operating_cashflow == raw(financial@.member("operatingCashflow"@)),
        r.return_on_assets == raw(financial@.member("returnOnAssets"@)),
        r.gross_profits == (match r.total_revenue {
            Some(revenue) => if (Number { bits: 0 }).lt(revenue) {
                raw(financial@.member("grossProfits"@))
            } else {
                None
            },
            None => None,
        }),
{
    let total_revenue: Option<Number> = extract_raw(financial.member("totalRevenue"));
    let gross_profits: Option<Number> = match total_revenue {
        Some(revenue) => if Number::zero().is_lt(revenue) {
            extract_raw(financial.member("grossProfits"))
        } else {
            None
        },
        None => None,
    };
    CurrentFigures {
        total_revenue,
        profit_margins: extract_raw(financial.member("profitMargins")),
        debt_to_equity: extract_raw(financial.member("debtToEquity")),
        price_to_book: extract_raw(statistics.member("priceToBook")),
        operating_cashflow: extract_raw(financial.member("operatingCashflow")),
        return_on_assets: extract_raw(financial.member("returnOnAssets")),
        gross_profits,
    }
}

/// Where fundamentals for a date come from.
#[derive(Clone, Copy, Debug, PartialEq, Eq, Structural)]
pub enum FundamentalsSource {
    Stored,
    /// Dated filings.
    Filings,
    /// The current snapshot, which only describes today.
    Current,
    /// None: the current snapshot would leak the future.
    Refused,
}

/// Where fundamentals come from: stored ones that are valid for the date, or dated filings, or,
/// unless the date lies in the past, the current snapshot.
pub fn choose_source(stored: bool, filings: bool, historical: bool) -> (r: FundamentalsSource)
    ensures
        r == (if stored {
            FundamentalsSource::Stored
        } else if filings {
            FundamentalsSource::Filings
        } else if historical {
            FundamentalsSource::Refused
        } else {
            FundamentalsSource::Current
        }),
        historical ==> r != FundamentalsSource::Current,
{
    if stored {
        FundamentalsSource::Stored
    } else if filings {
        FundamentalsSource::Filings
    } else if historical {
        FundamentalsSource::Refused
    } else {
        FundamentalsSource::Current
    }
}

// ── What bars and figures mean ───────────────────────────────────────────────

/// The positions that the bars of a chart come from.
proof fn lemma_bars_upto(c: Columns, n: int) -> (idx: Seq<int>)
    requires
        0 <= n <= c.timestamps@.len(),
    ensures
        idx.len() == bars_upto(c, n).len(),
        forall|k: int|
            0 <= k < idx.len() ==> 0 <= (#[trigger] idx[k]) < n && bar_at(c, idx[k]) == Some(
                bars_upto(c, n)[k],
            ),
        forall|j: int, k: int| 0 <= j < k < idx.len() ==> (#[trigger] idx[j]) < (#[trigger] idx[k]),
        forall|i: int|
            0 <= i < n && (#[trigger] bar_at(c, i)) is Some ==> exists|k: int|
                0 <= k < idx.len() && #[trigger] idx[k] == i,
    decreases n,
{
    if n <= 0 {
        seq![]
    } else {
        let before = lemma_bars_upto(c, n - 1);
        if bar_at(c, n - 1) is Some {
            let idx = before.push(n - 1);
            assert forall|i: int| 0 <= i < n && (#[trigger] bar_at(c, i)) is Some implies exists|
                k: int,
            |
                0 <= k < idx.len() && #[trigger] idx[k] == i by {
                if i == n - 1 {
                    assert(idx[before.len() as int] == i);
                } else {
                    let k = choose|k: int| 0 <= k < before.len() && #[trigger] before[k] == i;
                    assert(idx[k] == i);
                }
            }
            idx
        } else {
            before
        }
    }
}

/// Every bar of a chart takes each figure from the column of that figure, all at one position, and
/// its day from the timestamp there, in days of 86400 seconds from the first of January 1970. An
/// adjusted close that the chart lacks is the close. Bars keep the order of the chart.
pub proof fn bars_take_each_figure_from_its_column(c: Columns, r: Vec<QuotedBar>) -> (idx: Seq<int>)
    requires
        call_ensures(chart_bars, (&c,), r),
    ensures
        idx.len() == r@.len(),
        forall|k: int|
            0 <= k < r@.len() ==> {
                let i = #[trigger] idx[k];
                let b = r@[k];
                &&& 0 <= i < c.timestamps@.len()
                &&& i < c.open@.len() && c.open@[i] == Some(b.open)
                &&& i < c.high@.len() && c.high@[i] == Some(b.high)
                &&& i < c.low@.len() && c.low@[i] == Some(b.low)
                &&& i < c.close@.len() && c.close@[i] == Some(b.close)
                &&& i < c.volume@.len() && c.volume@[i] == Some(b.volume)
                &&& i < c.adj_close@.len() && c.adj_close@[i] is Some ==> c.adj_close@[i] == Some(
                    b.adj_close,
                )
                &&& i >= c.adj_close@.len() || c.adj_close@[i] is None ==> b.adj_close == b.close
                &&& (b.date.days - calendar::EPOCH_DAY) * 86_400 <= c.timestamps@[i]
                    < (b.date.days - calendar::EPOCH_DAY + 1) * 86_400
            },
        forall|j: int, k: int| 0 <= j < k < idx.len() ==> (#[trigger] idx[j]) < (#[trigger] idx[k]),
{
    let n = c.timestamps@.len() as int;
    let idx = lemma_bars_upto(c, n);
    assert forall|k: int| 0 <= k < r@.len() implies {
        let i = #[trigger] idx[k];
        let b = r@[k];
        &&& 0 <= i < c.timestamps@.len()
        &&& i < c.open@.len() && c.open@[i] == Some(b.open)
        &&& i < c.high@.len() && c.high@[i] == Some(b.high)
        &&& i < c.low@.len() && c.low@[i] == Some(b.low)
        &&& i < c.close@.len() && c.close@[i] == Some(b.close)
        &&& i < c.volume@.len() && c.volume@[i] == Some(b.volume)
        &&& i < c.adj_close@.len() && c.adj_close@[i] is Some ==> c.adj_close@[i] == Some(
            b.adj_close,
        )
        &&& i >= c.adj_close@.len() || c.adj_close@[i] is None ==> b.adj_close == b.close
        &&& (b.date.days - calendar::EPOCH_DAY) * 86_400 <= c.timestamps@[i] < (b.date.days
            - calendar::EPOCH_DAY + 1) * 86_400
    } by {
        let i = idx[k];
        assert(bar_at(c, i) == Some(r@[k]));
    }
    idx
}

/// A position where every column has a figure, the adjusted close aside, gives a bar, provided its
/// day can be represented.
pub proof fn no_full_position_is_skipped(c: Columns, r: Vec<QuotedBar>, i: int)
    requires
        call_ensures(chart_bars, (&c,), r),
        0 <= i < c.timestamps@.len(),
        i < c.open@.len() && c.open@[i] is Some,
        i < c.high@.len() && c.high@[i] is Some,
        i < c.low@.len() && c.low@[i] is Some,
        i < c.close@.len() && c.close@[i] is Some,
        i < c.volume@.len() && c.volume@[i] is Some,
        calendar::day_in_range(c.timestamps@[i] as int / 86_400 + calendar::EPOCH_DAY),
    ensures
        exists|k: int|
            0 <= k < r@.len() && (#[trigger] r@[k]).date.days == c.timestamps@[i] as int / 86_400
                + calendar::EPOCH_DAY && c.close@[i] == Some(r@[k].close) && c.open@[i] == Some(
                r@[k].open,
            ),
{
    let n = c.timestamps@.len() as int;
    let idx = lemma_bars_upto(c, n);
    assert(bar_at(c, i) is Some);
    let k = choose|k: int| 0 <= k < idx.len() && #[trigger] idx[k] == i;
    assert(bar_at(c, idx[k]) == Some(r@[k]));
}

/// The latest price is the adjusted close of the last bar, and the open is its open where the bar
/// is today's and its close where it is an earlier day's.
pub proof fn the_latest_price_is_adjusted(
    fetched: Vec<QuotedBar>,
    today: Date,
    r: Option<(Number, Number)>,
)
    requires
        call_ensures(today_prices, (&fetched, today), r),
    ensures
        r is Some <==> fetched@.len() > 0,
        r matches Some(p) ==> {
            let last = fetched@[fetched@.len() - 1];
            &&& p.1 == last.adj_close
            &&& last.date == today ==> p.0 == last.open
            &&& last.date != today ==> p.0 == last.close
        },
{
}

/// From stored bars, too, the open and the adjusted close of the last one are taken.
pub proof fn stored_bars_give_the_last_prices(stored: Vec<PriceBar>, r: (Number, Number))
    requires
        call_ensures(stored_prices, (&stored,), r),
    ensures
        stored@.len() > 0 ==> r.0 == stored@[stored@.len() - 1].open && r.1 == stored@[stored@.len()
            - 1].adj_close,
        stored@.len() == 0 ==> r.0.bits == 0 && r.1.bits == 0,
{
}

/// Two companies of which the replies give the same value under one name agree in the figure of
/// that name, whatever else differs.
pub proof fn figures_go_by_their_names(
    financial: Json,
    statistics: Json,
    other: Json,
    others: Json,
    a: CurrentFigures,
    b: CurrentFigures,
)
    requires
        call_ensures(current_figures, (&financial, &statistics), a),
        call_ensures(current_figures, (&other, &others), b),
    ensures
        financial@.member("totalRevenue"@) == other@.member("totalRevenue"@) ==> a.total_revenue
            == b.total_revenue,
        financial@.member("profitMargins"@) == other@.member("profitMargins"@) ==> a.profit_margins
            == b.profit_margins,
        financial@.member("debtToEquity"@) == other@.member("debtToEquity"@) ==> a.debt_to_equity
            == b.debt_to_equity,
        statistics@.member("priceToBook"@) == others@.member("priceToBook"@) ==> a.price_to_book
            == b.price_to_book,
        financial@.member("operatingCashflow"@) == other@.member("operatingCashflow"@)
            ==> a.operating_cashflow == b.operating_cashflow,
        financial@.member("returnOnAssets"@) == other@.member("returnOnAssets"@)
            ==> a.return_on_assets == b.return_on_assets,
        financial@.member("grossProfits"@) == other@.member("grossProfits"@)
            && financial@.member("totalRevenue"@) == other@.member("totalRevenue"@)
            ==> a.gross_profits == b.gross_profits,
{
}

/// A figure is the number that the reply holds under its name and `raw`.
pub proof fn figures_are_the_raw_numbers(
    financial: Json,
    statistics: Json,
    r: CurrentFigures,
    x: Number,
)
    requires
        call_ensures(current_figures, (&financial, &statistics), r),
    ensures
        financial@.member("totalRevenue"@) matches Some(v) && v.member("raw"@) matches Some(y)
            && y.number() == Some(x) ==> r.total_revenue == Some(x),
        financial@.member("profitMargins"@) matches Some(v) && v.member("raw"@) matches Some(y)
            && y.number() == Some(x) ==> r.profit_margins == Some(x),
        financial@.member("debtToEquity"@) matches Some(v) && v.member("raw"@) matches Some(y)
            && y.number() == Some(x) ==> r.debt_to_equity == Some(x),
        statistics@.member("priceToBook"@) matches Some(v) && v.member("raw"@) matches Some(y)
            && y.number() == Some(x) ==> r.price_to_book == Some(x),
        financial@.member("operatingCashflow"@) matches Some(v) && v.member("raw"@) matches Some(y)
            && y.number() == Some(x) ==> r.operating_cashflow == Some(x),
        financial@.member("returnOnAssets"@) matches Some(v) && v.member("raw"@) matches Some(y)
            && y.number() == Some(x) ==> r.return_on_assets == Some(x),
        financial@.member("grossProfits"@) matches Some(v) && v.member("raw"@) matches Some(y)
            && y.number() == Some(x) && (r.total_revenue matches Some(n) && 0 < n.bits
            < 0x7FF0_0000_0000_0000) ==> r.gross_profits == Some(x),
        r.total_revenue is None ==> r.gross_profits is None,
        r.total_revenue matches Some(n) && (n.bits == 0 || n.bits >= 0x8000_0000_0000_0000)
            ==> r.gross_profits is None,
{
}

/// The name of a company is its long name, else its short name, else its ticker; exchange and
/// currency are those of the price module, and the industry that of the profile.
pub proof fn descriptions_go_by_their_names(
    ticker: &str,
    price: Json,
    profile: Json,
    r: AssetInfo,
    s: Seq<char>,
)
    requires
        call_ensures(asset_info, (ticker, &price, &profile), r),
    ensures
        r.ticker@ == ticker@,
        price@.member("longName"@) matches Some(v) && v.text() == Some(s) ==> r.name@ == s,
        price@.member("longName"@) is None && (price@.member("shortName"@) matches Some(v)
            && v.text() == Some(s)) ==> r.name@ == s,
        price@.member("longName"@) is None && price@.member("shortName"@) is None ==> r.name@
            == ticker@,
        price@.member("exchangeName"@) matches Some(v) && v.text() == Some(s) ==> r.exchange@ == s,
        price@.member("exchangeName"@) is None ==> r.exchange@ == "UNKNOWN"@,
        price@.member("currency"@) matches Some(v) && v.text() == Some(s) ==> r.currency@ == s,
        price@.member("currency"@) is None ==> r.currency@ == "USD"@,
        profile@.member("industry"@) matches Some(v) && v.text() == Some(s) ==> (
        r.gics_industry matches Some(i) && i@ == s),
        profile@.member("industry"@) is None ==> r.gics_industry is None,
{
}

/// A past date never takes the current snapshot, and stored figures come before filings, filings
/// before the snapshot.
pub proof fn the_past_never_sees_the_current_snapshot(
    stored: bool,
    filings: bool,
    historical: bool,
    r: FundamentalsSource,
)
    requires
        call_ensures(choose_source, (stored, filings, historical), r),
    ensures
        r == FundamentalsSource::Stored <==> stored,
        r == FundamentalsSource::Filings <==> !stored && filings,
        r == FundamentalsSource::Current <==> !stored && !filings && !historical,
        r == FundamentalsSource::Refused <==> !stored && !filings && historical,
{
}

/// The request for a window reaches from the first second of its first day to the last of its last,
/// so a day more moves the end by 86400 seconds and a day later the start by as many: the request
/// for one day asks for exactly one day.
pub proof fn one_day_is_asked_for_whole(ticker: &str, day: Date, r: String, a: int)
    requires
        day.in_range(),
        calendar::day_in_range(day.days + 1),
        call_ensures(chart_url, (ticker, day, day), r),
        a == (day.days - calendar::EPOCH_DAY) * 86_400,
    ensures
        r@ == "https://query1.finance.yahoo.com/v8/finance/chart/"@ + ticker@ + "?period1="@
            + text::signed_decimal(a) + "&period2="@ + text::signed_decimal(a + 86_400)
            + "&interval=1d&includeAdjustedClose=true"@,
{
}

/// A crumb is what a reply that succeeded holds, without blanks around it; an empty reply and one
/// that speaks of an error give none.
pub proof fn crumbs_come_from_replies_that_succeeded(ok: bool, body: &str, r: Option<String>)
    requires
        call_ensures(accept_crumb, (ok, body), r),
    ensures
        r is Some <==> ok && body@.len() > 0 && !text::occurs(body@, "error"@),
        r matches Some(c) ==> c@ == text::trimmed(body@),
{
}

/// The number of a field is what it holds under `raw`.
pub proof fn numbers_are_held_under_raw(v: &Json, r: Option<Number>, none: Option<Number>)
    requires
        call_ensures(extract_raw, (Some(v),), r),
        call_ensures(extract_raw, (None::<&Json>,), none),
    ensures
        v@.member("raw"@) matches Some(x) ==> r == x.number(),
        v@.member("raw"@) is None ==> r is None,
        none is None,
{
}

} // verus!
