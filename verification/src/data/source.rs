//! The records that data providers supply.

use vstd::prelude::*;

use crate::calendar::Date;
use crate::number::Number;

verus! {

/// One daily price bar.
#[derive(Clone, Copy, Debug, PartialEq, Eq, Structural)]
pub struct PriceBar {
    pub date: Date,
    pub open: Number,
    pub high: Number,
    pub low: Number,
    pub close: Number,
    /// Close adjusted for splits and dividends.
    pub adj_close: Number,
    /// Open adjusted by the factor that adjusts the close.
    pub adj_open: Number,
    pub volume: u64,
}

/// Market capitalisation tier.
#[derive(Clone, Copy, Debug, PartialEq, Eq, Structural)]
pub enum MarketCap {
    /// Below two billion dollars.
    SmallCap,
    /// From two to ten billion dollars.
    MidCap,
    /// Ten billion dollars and more.
    LargeCap,
}

/// Two billion, as an encoded number.
pub const TWO_BILLION: u64 = 0x41DD_CD65_0000_0000;

/// Ten billion, as an encoded number.
pub const TEN_BILLION: u64 = 0x4202_A05F_2000_0000;

/// The tier of a market capitalisation in dollars.
pub fn classify_cap(cap_usd: Number) -> (r: MarketCap)
    ensures
        r == (if cap_usd.lt(Number { bits: TWO_BILLION }) {
            MarketCap::SmallCap
        } else if cap_usd.lt(Number { bits: TEN_BILLION }) {
            MarketCap::MidCap
        } else {
            MarketCap::LargeCap
        }),
{
    if cap_usd.is_lt(Number { bits: TWO_BILLION }) {
        MarketCap::SmallCap
    } else if cap_usd.is_lt(Number { bits: TEN_BILLION }) {
        MarketCap::MidCap
    } else {
        MarketCap::LargeCap
    }
}

/// The name under which a tier is stored.
pub open spec fn cap_name(cap: MarketCap) -> Seq<char> {
    match cap {
        MarketCap::SmallCap => "SmallCap"@,
        MarketCap::MidCap => "MidCap"@,
        MarketCap::LargeCap => "LargeCap"@,
    }
}

impl MarketCap {
    /// The name under which the tier is stored.
    pub fn name(self) -> (r: &'static str)
        ensures
            r@ == cap_name(self),
    {
        match self {
            MarketCap::SmallCap => "SmallCap",
            MarketCap::MidCap => "MidCap",
            MarketCap::LargeCap => "LargeCap",
        }
    }

    /// The tier stored under a name; an unknown name reads as a large capitalisation.
    pub fn from_name(name: &str) -> (r: MarketCap)
        ensures
            r == (if name@ == "SmallCap"@ {
                MarketCap::SmallCap
            } else if name@ == "MidCap"@ {
                MarketCap::MidCap
            } else {
                MarketCap::LargeCap
            }),
    {
        if crate::text::same_text(name, "SmallCap") {
            MarketCap::SmallCap
        } else if crate::text::same_text(name, "MidCap") {
            MarketCap::MidCap
        } else {
            MarketCap::LargeCap
        }
    }
}

/// Reading back a stored tier gives the tier that was stored.
pub proof fn cap_name_round_trip(cap: MarketCap)
    ensures
        (cap_name(cap) == "SmallCap"@) == (cap is SmallCap),
        (cap_name(cap) == "MidCap"@) == (cap is MidCap),
{
    reveal_strlit("SmallCap");
    reveal_strlit("MidCap");
    reveal_strlit("LargeCap");
    assert("SmallCap"@[0] == 'S');
    assert("MidCap"@[0] == 'M');
    assert("LargeCap"@[0] == 'L');
}

/// What is known of a company.
#[derive(Debug)]
pub struct AssetInfo {
    pub ticker: String,
    pub name: String,
    pub exchange: String,
    pub currency: String,
    pub gics_industry: Option<String>,
    pub market_cap_usd: Option<Number>,
    pub market_cap_tier: Option<MarketCap>,
}

/// Fundamentals of a company as known on a date.
#[derive(Debug)]
pub struct FundamentalSnapshot {
    pub ticker: String,
    pub date: Date,
    pub revenue_ttm: Option<Number>,
    pub revenue_cagr_3yr: Option<Number>,
    pub net_margin_pct: Option<Number>,
    pub debt_to_equity: Option<Number>,
    pub price_to_book: Option<Number>,
    pub price_return_12m_1m: Option<Number>,
    pub market_share_proxy: Option<Number>,
    pub operating_cashflow: Option<Number>,
    pub return_on_assets: Option<Number>,
    pub gross_profit_margin: Option<Number>,
}

/// A greater capitalisation is never of a lower tier; the tiers change at two and at ten billion,
/// each of which belongs to the tier above.
pub proof fn tiers_follow_the_capitalisation(cap: Number, r: MarketCap)
    requires
        call_ensures(classify_cap, (cap,), r),
        0 < cap.bits < 0x7FF0_0000_0000_0000,
    ensures
        r is SmallCap <==> cap.bits < 0x41DD_CD65_0000_0000,
        r is LargeCap <==> cap.bits >= 0x4202_A05F_2000_0000,
{
}

/// A tier is read back from the name it is stored under.
pub proof fn tiers_are_read_back(cap: MarketCap, name: &'static str, r: MarketCap)
    requires
        call_ensures(MarketCap::name, (cap,), name),
        call_ensures(MarketCap::from_name, (name,), r),
    ensures
        r == cap,
{
    cap_name_round_trip(cap);
}

} // verus!
