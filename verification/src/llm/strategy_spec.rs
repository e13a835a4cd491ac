//! A strategy's settings and the rules they must meet.

use vstd::prelude::*;
use vstd::string::*;

use crate::number::Number;
use crate::text;

verus! {

/// Most names that a strategy may pick.
pub const MAX_TOP_N: usize = 50;

/// Longest holding period, in days.
pub const MAX_HOLDING_DAYS: u32 = 365;

/// Encoding of 1.000000001, the largest total of weights that is left alone.
pub const WEIGHT_LIMIT: u64 = 0x3FF0_0000_0044_B830;

/// Weights of the signals; those left out keep the engine's own.
#[derive(Clone, Copy, Debug, PartialEq, Eq, Structural)]
pub struct SignalWeightOverride {
    pub momentum: Option<Number>,
    pub fundamental: Option<Number>,
    pub insider: Option<Number>,
    pub sentiment: Option<Number>,
    pub pairs: Option<Number>,
}

impl Default for SignalWeightOverride {
    fn default() -> (r: SignalWeightOverride)
        ensures
            r == (SignalWeightOverride {
                momentum: None,
                fundamental: None,
                insider: None,
                sentiment: None,
                pairs: None,
            }),
    {
        SignalWeightOverride {
            momentum: None,
            fundamental: None,
            insider: None,
            sentiment: None,
            pairs: None,
        }
    }
}

/// A weight that is set takes the value of another; one that is not stays so.
pub open spec fn replaced(weight: Option<Number>, by: Number) -> Option<Number> {
    if weight is Some {
        Some(by)
    } else {
        None
    }
}

/// The weights with those that are set replaced.
pub open spec fn rescaled(w: SignalWeightOverride, by: ScaledWeights) -> SignalWeightOverride {
    SignalWeightOverride {
        momentum: replaced(w.momentum, by.momentum),
        fundamental: replaced(w.fundamental, by.fundamental),
        insider: replaced(w.insider, by.insider),
        sentiment: replaced(w.sentiment, by.sentiment),
        pairs: replaced(w.pairs, by.pairs),
    }
}

/// What the weights are once divided by their total; of no meaning for one that is not set.
#[derive(Clone, Copy, Debug, PartialEq, Eq, Structural)]
pub struct ScaledWeights {
    pub momentum: Number,
    pub fundamental: Number,
    pub insider: Number,
    pub sentiment: Number,
    pub pairs: Number,
}

/// Which names a strategy considers.
#[derive(Debug)]
pub struct StrategyFilters {
    pub min_market_cap_b: Option<Number>,
    /// Sectors to keep; all where there is no list.
    pub sectors: Option<Vec<String>>,
    pub exclude_sectors: Option<Vec<String>>,
    pub macro_filter_enabled: bool,
    /// Lowest composite score to pick.
    pub min_score: Option<Number>,
}

impl Default for StrategyFilters {
    fn default() -> (r: StrategyFilters)
        ensures
            r == (StrategyFilters {
                min_market_cap_b: None,
                sectors: None,
                exclude_sectors: None,
                macro_filter_enabled: true,
                min_score: None,
            }),
    {
        StrategyFilters {
            min_market_cap_b: None,
            sectors: None,
            exclude_sectors: None,
            macro_filter_enabled: true,
            min_score: None,
        }
    }
}

/// A strategy.
#[derive(Debug)]
pub struct StrategySpec {
    pub name: String,
    pub signal_weights: SignalWeightOverride,
    pub filters: StrategyFilters,
    pub universe_override: Option<Vec<String>>,
    /// Names to pick, 1 to 50.
    pub top_n: usize,
    /// Days to hold, 1 to 365.
    pub holding_period_days: u32,
}

/// Why a strategy is refused.
#[derive(Clone, Copy, Debug, PartialEq, Eq, Structural)]
pub enum SpecError {
    TopN(usize),
    HoldingPeriod(u32),
}

impl SpecError {
    /// What an error says.
    pub open spec fn says(self) -> Seq<char> {
        match self {
            SpecError::TopN(n) => "top_n must be between 1 and 50, got "@ + text::decimal(n as nat),
            SpecError::HoldingPeriod(n) => "holding_period_days must be between 1 and 365, got "@
                + text::decimal(n as nat),
        }
    }

    /// The error in words.
    pub fn message(&self) -> (r: String)
        ensures
            r@ == self.says(),
    {
        match self {
            SpecError::TopN(n) => {
                let mut s: String = "top_n must be between 1 and 50, got ".to_owned();
                s.append(text::decimal_text(*n as u64).as_str());
                s
            },
            SpecError::HoldingPeriod(n) => {
                let mut s: String = "holding_period_days must be between 1 and 365, got ".to_owned();
                s.append(text::decimal_text(*n as u64).as_str());
                s
            },
        }
    }
}

impl Default for StrategySpec {
    fn default() -> (r: StrategySpec)
        ensures
            r.name@ == "Default"@,
            r.signal_weights == (SignalWeightOverride {
                momentum: None,
                fundamental: None,
                insider: None,
                sentiment: None,
                pairs: None,
            }),
            r.filters == (StrategyFilters {
                min_market_cap_b: None,
                sectors: None,
                exclude_sectors: None,
                macro_filter_enabled: true,
                min_score: None,
            }),
            r.universe_override is None,
            r.top_n == 10,
            r.holding_period_days == 30,
            r.valid(),
    {
        StrategySpec {
            name: "Default".to_owned(),
            signal_weights: SignalWeightOverride::default(),
            filters: StrategyFilters::default(),
            universe_override: None,
            top_n: 10,
            holding_period_days: 30,
        }
    }
}

/// The weight, or `by` in its place where one is set.
fn replace(weight: Option<Number>, by: Number) -> (r: Option<Number>)
    ensures
        r == replaced(weight, by),
{
    match weight {
        Some(_) => Some(by),
        None => None,
    }
}

impl StrategySpec {
    /// Whether the counts lie within their limits.
    pub open spec fn valid(&self) -> bool {
        1 <= self.top_n <= MAX_TOP_N && 1 <= self.holding_period_days <= MAX_HOLDING_DAYS
    }

    /// Checks the strategy and brings it in order: a count of zero becomes one, and where `total`,
    /// the sum of the weights that are set, exceeds one, the weights that are set become `scaled`,
    /// which is each of them divided by the total.
    pub fn validate(&mut self, total: Number, scaled: ScaledWeights) -> (r: Result<(), SpecError>)
        ensures
            r == (if old(self).top_n > MAX_TOP_N {
                Err(SpecError::TopN(old(self).top_n))
            } else if old(self).holding_period_days > MAX_HOLDING_DAYS {
                Err(SpecError::HoldingPeriod(old(self).holding_period_days))
            } else {
                Ok(())
            }),
            final(self).name == old(self).name,
            final(self).filters == old(self).filters,
            final(self).universe_override == old(self).universe_override,
            final(self).top_n == (if old(self).top_n == 0 {
                1
            } else {
                old(self).top_n
            }),
            final(self).holding_period_days == (if old(self).top_n <= MAX_TOP_N && old(
                self,
            ).holding_period_days == 0 {
                1
            } else {
                old(self).holding_period_days
            }),
            final(self).signal_weights == (if r is Ok && (Number { bits: WEIGHT_LIMIT }).lt(total) {
                rescaled(old(self).signal_weights, scaled)
            } else {
                old(self).signal_weights
            }),
            r is Ok <==> final(self).valid(),
    {
        if self.top_n == 0 {
            self.top_n = 1;
        }
        if self.top_n > MAX_TOP_N {
            return Err(SpecError::TopN(self.top_n));
        }
        if self.holding_period_days == 0 {
            self.holding_period_days = 1;
        }
        if self.holding_period_days > MAX_HOLDING_DAYS {
            return Err(SpecError::HoldingPeriod(self.holding_period_days));
        }
        let limit: Number = Number { bits: WEIGHT_LIMIT };
        if limit.is_lt(total) {
            let w: SignalWeightOverride = self.signal_weights;
            self.signal_weights =
            SignalWeightOverride {
                momentum: replace(w.momentum, scaled.momentum),
                fundamental: replace(w.fundamental, scaled.fundamental),
                insider: replace(w.insider, scaled.insider),
                sentiment: replace(w.sentiment, scaled.sentiment),
                pairs: replace(w.pairs, scaled.pairs),
            };
        }
        Ok(())
    }
}

/// A strategy is refused where it picks more than 50 names or holds for more than 365 days; a count
/// of zero becomes one, and every other count is left alone.
pub proof fn counts_are_kept_within_their_limits(
    s: &mut StrategySpec,
    total: Number,
    scaled: ScaledWeights,
    r: Result<(), SpecError>,
)
    requires
        call_ensures(StrategySpec::validate, (s, total, scaled), r),
    ensures
        r is Ok <==> old(s).top_n <= 50 && old(s).holding_period_days <= 365,
        r is Ok && old(s).top_n > 0 ==> final(s).top_n == old(s).top_n,
        r is Ok && old(s).top_n == 0 ==> final(s).top_n == 1,
        r is Ok && old(s).holding_period_days > 0 ==> final(s).holding_period_days == old(
            s).holding_period_days,
        r is Ok && old(s).holding_period_days == 0 ==> final(s).holding_period_days == 1,
        old(s).top_n > 50 ==> r == Err::<(), SpecError>(SpecError::TopN(old(s).top_n)),
        old(s).top_n <= 50 && old(s).holding_period_days > 365 ==> r == Err::<(), SpecError>(
            SpecError::HoldingPeriod(old(s).holding_period_days),
        ),
{
}

/// Weights that add up to one or less stay as they are. Where they add up to more, each weight that
/// is set becomes its own scaled weight and none is set that was not.
pub proof fn each_weight_is_scaled_for_itself(
    s: &mut StrategySpec,
    total: Number,
    scaled: ScaledWeights,
    r: Result<(), SpecError>,
)
    requires
        call_ensures(StrategySpec::validate, (s, total, scaled), r),
        r is Ok,
    ensures
        ({
            let w = old(s).signal_weights;
            let v = final(s).signal_weights;
            &&& total.bits <= 0x3FF0_0000_0000_0000 ==> v == w
            &&& (w.momentum is Some <==> v.momentum is Some) && (w.fundamental is Some
                <==> v.fundamental is Some) && (w.insider is Some <==> v.insider is Some) && (
            w.sentiment is Some <==> v.sentiment is Some) && (w.pairs is Some <==> v.pairs is Some)
            &&& 0x4000_0000_0000_0000 <= total.bits < 0x7FF0_0000_0000_0000 ==> {
                &&& w.momentum is Some ==> v.momentum == Some(scaled.momentum)
                &&& w.fundamental is Some ==> v.fundamental == Some(scaled.fundamental)
                &&& w.insider is Some ==> v.insider == Some(scaled.insider)
                &&& w.sentiment is Some ==> v.sentiment == Some(scaled.sentiment)
                &&& w.pairs is Some ==> v.pairs == Some(scaled.pairs)
            }
        }),
{
}

/// Validating a strategy a second time, when its weights no longer add up to more than one, changes
/// nothing.
pub proof fn a_valid_strategy_stays_as_it_is(
    a: &mut StrategySpec,
    b: &mut StrategySpec,
    total: Number,
    again: Number,
    scaled: ScaledWeights,
    rescaled_again: ScaledWeights,
    r: Result<(), SpecError>,
)
    requires
        call_ensures(StrategySpec::validate, (a, total, scaled), Ok(())),
        *old(b) == *final(a),
        again.bits <= 0x3FF0_0000_0000_0000,
        call_ensures(StrategySpec::validate, (b, again, rescaled_again), r),
    ensures
        r is Ok,
        *final(b) == *final(a),
{
}

} // verus!
