//! Rows of alternative data.

use vstd::prelude::*;

use crate::calendar::Date;
use crate::number::Number;

verus! {

/// Correlation of two industries' returns.
#[derive(Debug)]
pub struct IndustryCorrelation {
    pub industry_a: String,
    pub industry_b: String,
    pub correlation: Number,
    pub date: Date,
    pub window_days: u32,
}

/// A trade by an insider, from a Form 4 filing.
#[derive(Debug)]
pub struct InsiderTrade {
    pub ticker: String,
    pub filing_date: Date,
    pub trade_date: Date,
    pub insider_name: String,
    /// `CEO`, `CFO`, `President`, `COO`, `Officer`, `Director` or `Other`.
    pub insider_role: String,
    pub shares: Number,
    /// `A` for acquired, `D` for disposed of.
    pub transaction_type: String,
}

/// A news article with its tone.
#[derive(Debug)]
pub struct NewsItem {
    pub ticker: String,
    pub article_date: Date,
    pub tone: Number,
    pub headline: String,
    pub source: String,
}

/// Mentions of a ticker in a subreddit on a day.
#[derive(Debug)]
pub struct RedditSnapshot {
    pub ticker: String,
    pub fetch_date: Date,
    pub subreddit: String,
    pub mention_count: u32,
    pub avg_upvote_ratio: Number,
    pub total_comments: u32,
}

/// One value of a macro series.
#[derive(Debug)]
pub struct MacroDataPoint {
    pub series_id: String,
    pub date: Date,
    pub value: Number,
}

/// The state of the macro regime on a date.
#[derive(Clone, Copy, Debug, PartialEq, Eq, Structural)]
pub struct MacroSnapshot {
    pub as_of: Date,
    pub vix: Option<Number>,
    pub yield_10y: Option<Number>,
    pub yield_10y_30d_ago: Option<Number>,
    /// Whether new positions may be opened.
    pub macro_on: bool,
}

impl MacroSnapshot {
    /// What is assumed where no macro data is at hand: the regime is on.
    pub fn neutral(as_of: Date) -> (r: MacroSnapshot)
        ensures
            r == (MacroSnapshot {
                as_of,
                vix: None,
                yield_10y: None,
                yield_10y_30d_ago: None,
                macro_on: true,
            }),
    {
        MacroSnapshot {
            as_of,
            vix: None,
            yield_10y: None,
            yield_10y_30d_ago: None,
            macro_on: true,
        }
    }
}

/// A reported value of a company, tagged with when it became public.
#[derive(Debug)]
pub struct PitFact {
    /// Logical concept, such as `revenue`.
    pub concept: String,
    /// First day of the period; nothing for a balance-sheet value.
    pub start: Option<Date>,
    /// Last day of the period.
    pub end: Date,
    pub value: Number,
    /// Day on which the filing with this value was made public.
    pub filed: Date,
    pub form: String,
}

} // verus!
