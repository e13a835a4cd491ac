//! The choice of the day's picks, and the settings it depends on.

use vstd::prelude::*;

use crate::number::Number;
use crate::order;
use crate::signals;
use crate::signals::{ScoreView, SignalScore};
use crate::text;

verus! {

/// Fewest names to recommend while the regime is on.
pub const MIN_PICKS: usize = 5;

/// Most names to recommend.
pub const MAX_PICKS: usize = 30;

/// Days to hold a position where nothing else is set.
pub const DEFAULT_HOLDING_DAYS: u32 = 25;

/// The picks among ranked names: none while the regime is off; otherwise the names that reach the
/// threshold, at most thirty, or the five best where fewer than five do.
pub open spec fn picked(s: Seq<ScoreView>, threshold: Number) -> Seq<ScoreView> {
    let passing = signals::at_least(s, threshold);
    if signals::risk_off(s) {
        seq![]
    } else if passing.len() < MIN_PICKS {
        signals::first_of(s, MIN_PICKS as int)
    } else {
        signals::first_of(passing, MAX_PICKS as int)
    }
}

/// The day's picks. `scores` are ranked best first.
pub fn score_based_picks(scores: &Vec<SignalScore>, threshold: Number) -> (r: Vec<SignalScore>)
    ensures
        signals::views(r@) == picked(signals::views(scores@), threshold),
{
    if signals::is_risk_off(scores) {
        let none: Vec<SignalScore> = Vec::new();
        proof {
            assert(signals::views(none@) =~= seq![]);
        }
        return none;
    }
    let passing: Vec<SignalScore> = signals::scores_at_least(scores, threshold);
    proof {
        assert(passing@.len() == signals::views(passing@).len());
    }
    if passing.len() < MIN_PICKS {
        signals::first_scores(scores, MIN_PICKS)
    } else {
        signals::first_scores(&passing, MAX_PICKS)
    }
}

/// While the macro regime is off there is nothing to hold but cash.
pub proof fn risk_off_means_cash(s: Seq<ScoreView>, threshold: Number, i: int)
    requires
        0 <= i < s.len(),
        !s[i].macro_on,
    ensures
        picked(s, threshold).len() == 0,
{
    assert(!s[i].macro_on);
}

/// While the regime is on there are between five and thirty picks, as far as there are names.
pub proof fn number_of_picks(s: Seq<ScoreView>, threshold: Number)
    requires
        !signals::risk_off(s),
    ensures
        picked(s, threshold).len() <= MAX_PICKS,
        s.len() >= MIN_PICKS ==> picked(s, threshold).len() >= MIN_PICKS,
        s.len() < MIN_PICKS ==> picked(s, threshold) == s,
{
    broadcast use vstd::seq_lib::group_filter_ensures;

    assert(signals::at_least(s, threshold).len() <= s.len());
}

/// Every pick is one of the ranked names.
pub proof fn picks_come_from_the_ranking(s: Seq<ScoreView>, threshold: Number, x: ScoreView)
    requires
        picked(s, threshold).contains(x),
    ensures
        s.contains(x),
{
    let passing = signals::at_least(s, threshold);
    let all = picked(s, threshold);
    let k = choose|k: int| 0 <= k < all.len() && all[k] == x;
    broadcast use vstd::seq_lib::group_filter_ensures;

    if passing.len() < MIN_PICKS {
        assert(s[k] == x);
    } else {
        assert(passing[k] == x);
        assert(passing.contains(x));
        s.lemma_filter_contains_rev(|v: ScoreView| threshold.le(v.composite), x);
    }
}

/// The holding period: the setting where it is a number of days, otherwise the default.
pub fn holding_period_days(setting: Option<&str>) -> (r: u32)
    ensures
        r == (match setting {
            Some(s) => if text::is_number_upto(s@, u32::MAX as int) {
                text::digits_value(text::unsigned_part(s@))
            } else {
                DEFAULT_HOLDING_DAYS as int
            },
            None => DEFAULT_HOLDING_DAYS as int,
        }),
{
    match setting {
        Some(s) => match text::parse_u32(s) {
            Some(n) => n,
            None => DEFAULT_HOLDING_DAYS,
        },
        None => DEFAULT_HOLDING_DAYS,
    }
}

/// While every name says that the regime is on, the picks are the ranked names that reach the
/// threshold, in their order and thirty at most, provided that five do; where fewer do, they are
/// the five best names.
pub proof fn picks_reach_the_threshold_or_are_the_five_best(
    scores: Vec<SignalScore>,
    threshold: Number,
    reaching: Vec<SignalScore>,
    r: Vec<SignalScore>,
) -> (idx: Seq<int>)
    requires
        call_ensures(score_based_picks, (&scores, threshold), r),
        call_ensures(signals::scores_at_least, (&scores, threshold), reaching),
        forall|i: int| 0 <= i < scores@.len() ==> (#[trigger] scores@[i]).macro_on,
    ensures
        idx.len() == r@.len(),
        idx.len() <= 30,
        scores@.len() >= 5 ==> idx.len() >= 5,
        scores@.len() < 5 ==> idx.len() == scores@.len(),
        forall|k: int|
            0 <= k < idx.len() ==> 0 <= (#[trigger] idx[k]) < scores@.len() && r@[k].ticker@
                == scores@[idx[k]].ticker@ && r@[k].composite == scores@[idx[k]].composite,
        forall|j: int, k: int| 0 <= j < k < idx.len() ==> (#[trigger] idx[j]) < (#[trigger] idx[k]),
        reaching@.len() < 5 ==> forall|k: int| 0 <= k < idx.len() ==> #[trigger] idx[k] == k,
        reaching@.len() >= 5 ==> forall|k: int|
            0 <= k < idx.len() ==> threshold.le(scores@[#[trigger] idx[k]].composite),
        reaching@.len() >= 5 ==> forall|i: int|
            0 <= i < scores@.len() && threshold.le((#[trigger] scores@[i]).composite)
                ==> idx.contains(i) || idx.len() == 30 && idx.last() < i,
{
    let v = signals::views(scores@);
    let keep = |x: ScoreView| threshold.le(x.composite);
    let all = order::lemma_filter_positions(v, keep);
    let passing = v.filter(keep);
    assert(passing == signals::at_least(v, threshold));
    assert(!signals::risk_off(v)) by {
        assert forall|i: int| 0 <= i < v.len() implies (#[trigger] v[i]).macro_on by {
            assert(scores@[i].macro_on);
        }
    }
    assert(signals::views(reaching@).len() == reaching@.len());
    let out = signals::views(r@);
    assert(out.len() == r@.len());
    assert forall|k: int| 0 <= k < r@.len() implies (#[trigger] r@[k])@ == out[k] by {}
    if passing.len() < 5 {
        let n = if v.len() <= 5 {
            v.len()
        } else {
            5
        };
        let idx = Seq::new(n, |k: int| k);
        idx
    } else {
        let n = if passing.len() <= 30 {
            passing.len() as int
        } else {
            30
        };
        let idx = all.take(n);
        assert forall|k: int| 0 <= k < idx.len() implies 0 <= (#[trigger] idx[k]) < scores@.len()
            && r@[k].ticker@ == scores@[idx[k]].ticker@ && r@[k].composite
            == scores@[idx[k]].composite && threshold.le(scores@[idx[k]].composite) by {
            assert(idx[k] == all[k]);
            assert(out[k] == passing[k]);
            assert(keep(v[all[k]]));
            assert(r@[k]@ == v[all[k]]);
        }
        assert forall|i: int|
            0 <= i < scores@.len() && threshold.le(
                (#[trigger] scores@[i]).composite,
            ) implies idx.contains(i) || idx.len() == 30 && idx.last() < i by {
            assert(keep(v[i]));
            let k = choose|k: int| 0 <= k < all.len() && #[trigger] all[k] == i;
            if k < n {
                assert(idx[k] == i);
            } else {
                assert(all[n - 1] < all[k]);
            }
        }
        idx
    }
}

/// A single name that says the regime is off leaves nothing to hold.
pub proof fn one_warning_is_enough_for_cash(
    scores: Vec<SignalScore>,
    threshold: Number,
    r: Vec<SignalScore>,
    i: int,
)
    requires
        call_ensures(score_based_picks, (&scores, threshold), r),
        0 <= i < scores@.len(),
        !scores@[i].macro_on,
    ensures
        r@.len() == 0,
{
    let v = signals::views(scores@);
    assert(v[i] == scores@[i]@);
    risk_off_means_cash(v, threshold, i);
    assert(signals::views(r@).len() == r@.len());
}

/// Positions are held for 25 days where nothing else is set or the setting is no number.
pub proof fn the_holding_period_is_the_setting(setting: Option<&str>, r: u32, parsed: Option<u32>)
    requires
        call_ensures(holding_period_days, (setting,), r),
        setting matches Some(s) ==> call_ensures(text::parse_u32, (s,), parsed),
        setting is None ==> parsed is None,
    ensures
        parsed matches Some(n) ==> r == n,
        parsed is None ==> r == 25,
{
}

} // verus!
