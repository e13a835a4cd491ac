//! Currencies of a portfolio that mixes Indian and American listings.

use vstd::prelude::*;

use crate::backtest::schedule;
use crate::calendar::Date;
use crate::data::prices;
use crate::data::prices::PriceSeries;
use crate::number::Number;
use crate::text;

verus! {

/// The symbol of the exchange rate, in rupees for one dollar.
pub const FX_TICKER: &'static str = "INR=X";

/// Days to look back for a rate.
pub const RATE_LOOKBACK_DAYS: i64 = 10;

/// A currency.
#[derive(Clone, Copy, Debug, PartialEq, Eq, Structural)]
pub enum Currency {
    Usd,
    Inr,
}

impl Currency {
    /// The currency that a ticker trades in: rupees for listings on the NSE, dollars for others.
    pub fn of_ticker(ticker: &str) -> (r: Currency)
        ensures
            r == (if schedule::nse_listed(ticker@) {
                Currency::Inr
            } else {
                Currency::Usd
            }),
    {
        if text::ends_with(ticker, ".NS") {
            Currency::Inr
        } else {
            Currency::Usd
        }
    }
}

/// What a rate in rupees for one dollar does to an amount.
#[derive(Clone, Copy, Debug, PartialEq, Eq, Structural)]
pub enum Conversion {
    /// The amount stays, whatever the rate.
    Keep,
    /// The amount is divided by the rate.
    Divide,
    /// The amount is multiplied by the rate.
    Multiply,
}

/// How an amount is converted.
pub fn conversion(from: Currency, to: Currency) -> (r: Conversion)
    ensures
        r == (match (from, to) {
            (Currency::Inr, Currency::Usd) => Conversion::Divide,
            (Currency::Usd, Currency::Inr) => Conversion::Multiply,
            _ => Conversion::Keep,
        }),
        r == Conversion::Keep <==> from == to,
{
    match (from, to) {
        (Currency::Inr, Currency::Usd) => Conversion::Divide,
        (Currency::Usd, Currency::Inr) => Conversion::Multiply,
        _ => Conversion::Keep,
    }
}

/// The rate of a date: the close of the last bar on or before it.
pub fn rate_on(rates: &PriceSeries, date: Date) -> (r: Option<Number>)
    ensures
        r == (match prices::bar_through(rates@, date.days as int) {
            Some(b) => Some(b.close),
            None => None,
        }),
{
    match rates.on_or_before(date) {
        Some(b) => Some(b.close),
        None => None,
    }
}

/// Converting there and back undoes itself: what one direction divides by the rate the other
/// multiplies by it. Rupees become dollars by division, the rate being rupees for one dollar.
pub proof fn converting_back_undoes_converting(
    from: Currency,
    to: Currency,
    there: Conversion,
    back: Conversion,
)
    requires
        call_ensures(conversion, (from, to), there),
        call_ensures(conversion, (to, from), back),
    ensures
        there == Conversion::Divide <==> back == Conversion::Multiply,
        there == Conversion::Keep <==> from == to,
        from == Currency::Inr && to == Currency::Usd ==> there == Conversion::Divide,
{
}

/// The rate of a day is the close of the latest bar by then; a later bar never sets it.
pub proof fn the_rate_is_the_latest_close(
    rates: PriceSeries,
    date: Date,
    r: Option<Number>,
    k: int,
)
    requires
        call_ensures(rate_on, (&rates, date), r),
        prices::dates_increase(rates@),
        -1 <= k < rates@.len(),
        k >= 0 ==> rates@[k].date.days <= date.days,
        k + 1 < rates@.len() ==> rates@[k + 1].date.days > date.days,
    ensures
        k >= 0 ==> r == Some(rates@[k].close),
        k < 0 ==> r is None,
{
    prices::lemma_split(rates@, date.days as int, k + 1);
}

/// Listings on the NSE trade in rupees, others in dollars.
pub proof fn nse_listings_trade_in_rupees(ticker: &str, r: Currency)
    requires
        call_ensures(Currency::of_ticker, (ticker,), r),
    ensures
        r == Currency::Inr <==> ticker@.len() >= 3 && ticker@.skip(ticker@.len() - 3) == ".NS"@,
{
    reveal_strlit(".NS");
    if ticker@.len() >= 3 {
        assert(ticker@.skip(ticker@.len() - 3) =~= ticker@.subrange(
            ticker@.len() - 3,
            ticker@.len() as int,
        ));
    }
}

} // verus!
