//! Warnings for picks whose industries move together.

use vstd::prelude::*;

use crate::correlations::correlation_matrix;
use crate::correlations::correlation_matrix::CorrelationData;
use crate::number::Number;
use crate::signals;
use crate::signals::SignalScore;
use crate::text;

verus! {

/// Picks that are looked at, from the best down.
pub const LOOKED_AT: usize = 10;

/// Seven tenths, as an encoded number: the correlation above which two industries count as one.
pub const HIGH_CORRELATION: u64 = 0x3FE6_6666_6666_6666;

/// A warning about a pick.
#[derive(Debug)]
pub struct CorrelationWarning {
    /// The pick that is warned about.
    pub ticker: String,
    /// The better pick it is correlated with.
    pub correlated_with: String,
    pub correlation: Number,
}

/// What a warning says.
#[verifier::ext_equal]
pub struct WarningView {
    pub ticker: Seq<char>,
    pub correlated_with: Seq<char>,
    pub correlation: Number,
}

impl View for CorrelationWarning {
    type V = WarningView;

    open spec fn view(&self) -> WarningView {
        WarningView {
            ticker: self.ticker@,
            correlated_with: self.correlated_with@,
            correlation: self.correlation,
        }
    }
}

/// How strongly two picks are correlated, where that is worth a warning: fully where they share
/// an industry, and above seven tenths where their industries differ.
pub open spec fn concentrated(
    data: CorrelationData,
    a: signals::ScoreView,
    b: signals::ScoreView,
) -> Option<Number> {
    if a.industry == b.industry {
        Some(Number { bits: correlation_matrix::ONE })
    } else {
        match correlation_matrix::correlation(data.pairs@, a.industry, b.industry) {
            Some(r) => if (Number { bits: HIGH_CORRELATION }).lt(r) {
                Some(r)
            } else {
                None
            },
            None => None,
        }
    }
}

/// The picks that are looked at.
pub open spec fn looked_at(s: Seq<signals::ScoreView>) -> Seq<signals::ScoreView> {
    signals::first_of(s, 10)
}

/// The first warning about `ticker` from the pair `i`, `j` on: pairs are taken by the better pick,
/// then by the other.
pub open spec fn warning_from(
    data: CorrelationData,
    s: Seq<signals::ScoreView>,
    ticker: Seq<char>,
    i: int,
    j: int,
) -> Option<WarningView>
    decreases s.len() - i, s.len() - j,
{
    if i >= s.len() {
        None
    } else if j >= s.len() {
        warning_from(data, s, ticker, i + 1, i + 2)
    } else {
        match concentrated(data, s[i], s[j]) {
            Some(r) => if s[j].ticker == ticker {
                Some(
                    WarningView { ticker, correlated_with: s[i].ticker, correlation: r },
                )
            } else {
                warning_from(data, s, ticker, i, j + 1)
            },
            None => warning_from(data, s, ticker, i, j + 1),
        }
    }
}

/// The warning about a ticker: the first one among the best picks.
pub open spec fn warning_about(
    data: CorrelationData,
    s: Seq<signals::ScoreView>,
    ticker: Seq<char>,
) -> Option<WarningView> {
    warning_from(data, looked_at(s), ticker, 0, 1)
}

/// The tickers that warnings are about.
pub open spec fn warned(s: Seq<CorrelationWarning>) -> Seq<Seq<char>> {
    s.map_values(|w: CorrelationWarning| w.ticker@)
}

/// How strongly two picks are correlated, where that is worth a warning.
fn find_concentration(data: &CorrelationData, a: &SignalScore, b: &SignalScore) -> (r: Option<
    Number,
>)
    ensures
        r == concentrated(*data, a@, b@),
{
    if text::same_text(a.industry.as_str(), b.industry.as_str()) {
        Some(Number { bits: correlation_matrix::ONE })
    } else {
        match data.get_correlation(a.industry.as_str(), b.industry.as_str()) {
            Some(r) => if (Number { bits: HIGH_CORRELATION }).is_lt(r) {
                Some(r)
            } else {
                None
            },
            None => None,
        }
    }
}

/// The check for picks that are concentrated in one corner of the market.
pub struct ConcentrationGuard;

impl ConcentrationGuard {
    /// The warning about one ticker.
    fn find_warning(scores: &Vec<SignalScore>, n: usize, data: &CorrelationData, ticker: &str) -> (r:
        Option<CorrelationWarning>)
        requires
            n == looked_at(signals::views(scores@)).len(),
            n <= scores@.len(),
        ensures
            match r {
                Some(w) => warning_about(*data, signals::views(scores@), ticker@) == Some(w@),
                None => warning_about(*data, signals::views(scores@), ticker@) is None,
            },
    {
        let ghost s = looked_at(signals::views(scores@));
        let mut i: usize = 0;
        while i < n
            invariant
                i <= n == s.len(),
                n <= scores@.len(),
                s == looked_at(signals::views(scores@)),
                warning_about(*data, signals::views(scores@), ticker@) == warning_from(
                    *data,
                    s,
                    ticker@,
                    i as int,
                    i + 1,
                ),
            decreases n - i,
        {
            let mut j: usize = i + 1;
            while j < n
                invariant
                    i < j <= n == s.len(),
                    n <= scores@.len(),
                    s == looked_at(signals::views(scores@)),
                    warning_about(*data, signals::views(scores@), ticker@) == warning_from(
                        *data,
                        s,
                        ticker@,
                        i as int,
                        j as int,
                    ),
                decreases n - j,
            {
                proof {
                    assert(s[i as int] == scores@[i as int]@);
                    assert(s[j as int] == scores@[j as int]@);
                }
                if let Some(r) = find_concentration(data, &scores[i], &scores[j]) {
                    if text::same_text(scores[j].ticker.as_str(), ticker) {
                        return Some(
                            CorrelationWarning {
                                ticker: scores[j].ticker.clone(),
                                correlated_with: scores[i].ticker.clone(),
                                correlation: r,
                            },
                        );
                    }
                }
                j = j + 1;
            }
            i = i + 1;
        }
        None
    }

    /// Looks at the best ten picks and warns about each one whose industry is highly correlated
    /// with that of a better pick. Only the lower-ranked of the two is warned about, and only its
    /// first warning is kept.
    pub fn check(scores: &Vec<SignalScore>, data: &CorrelationData) -> (r: Vec<CorrelationWarning>)
        ensures
            warned(r@).no_duplicates(),
            forall|k: int|
                0 <= k < r@.len() ==> warning_about(
                    *data,
                    signals::views(scores@),
                    (#[trigger] r@[k]).ticker@,
                ) == Some(r@[k]@),
            forall|t: Seq<char>| #[trigger]
                warning_about(*data, signals::views(scores@), t) is Some ==> warned(r@).contains(t),
    {
        let n: usize = if scores.len() < LOOKED_AT {
            scores.len()
        } else {
            LOOKED_AT
        };
        let ghost s = looked_at(signals::views(scores@));
        let mut out: Vec<CorrelationWarning> = Vec::new();
        let mut j: usize = 0;
        while j < n
            invariant
                j <= n == s.len(),
                n <= scores@.len(),
                s == looked_at(signals::views(scores@)),
                warned(out@).no_duplicates(),
                forall|k: int|
                    0 <= k < out@.len() ==> warning_about(
                        *data,
                        signals::views(scores@),
                        (#[trigger] out@[k]).ticker@,
                    ) == Some(out@[k]@),
                forall|k: int|
                    0 <= k < j && warning_about(
                        *data,
                        signals::views(scores@),
                        (#[trigger] s[k]).ticker,
                    ) is Some ==> warned(out@).contains(s[k].ticker),
            decreases n - j,
        {
            let ghost before = out@;
            proof {
                assert(s[j as int] == scores@[j as int]@);
            }
            if !Self::has_warning(&out, scores[j].ticker.as_str()) {
                if let Some(w) = Self::find_warning(scores, n, data, scores[j].ticker.as_str()) {
                    let ghost t = w.ticker@;
                    proof {
                        lemma_warning_names(*data, s, scores@[j as int].ticker@, 0, 1);
                    }
                    out.push(w);
                    proof {
                        assert(warned(out@) =~= warned(before).push(t));
                        assert(warned(out@)[before.len() as int] == t);
                    }
                }
            }
            proof {
                assert forall|k: int|
                    0 <= k < j + 1 && warning_about(
                        *data,
                        signals::views(scores@),
                        (#[trigger] s[k]).ticker,
                    ) is Some implies warned(out@).contains(s[k].ticker) by {
                    if k < j {
                        let x = choose|x: int|
                            0 <= x < warned(before).len() && warned(before)[x] == s[k].ticker;
                        assert(warned(out@)[x] == s[k].ticker);
                    }
                }
            }
            j = j + 1;
        }
        proof {
            assert forall|t: Seq<char>| #[trigger]
                warning_about(*data, signals::views(scores@), t) is Some implies warned(
                out@,
            ).contains(t) by {
                lemma_warning_names(*data, s, t, 0, 1);
                let k = choose|k: int| 0 <= k < s.len() && (#[trigger] s[k]).ticker == t;
                assert(s[k].ticker == t);
            }
        }
        out
    }

    /// Whether a ticker has a warning.
    pub fn has_warning(warnings: &Vec<CorrelationWarning>, ticker: &str) -> (r: bool)
        ensures
            r == warned(warnings@).contains(ticker@),
    {
        Self::warning_of(warnings, ticker).is_some()
    }

    /// The warning of a ticker, the first one where there are several.
    pub fn warning_of<'a>(warnings: &'a Vec<CorrelationWarning>, ticker: &str) -> (r: Option<
        &'a CorrelationWarning,
    >)
        ensures
            match r {
                Some(w) => exists|k: int|
                    0 <= k < warnings@.len() && *w == #[trigger] warnings@[k] && w.ticker@ == ticker@
                        && forall|j: int| 0 <= j < k ==> (#[trigger] warnings@[j]).ticker@ != ticker@,
                None => !warned(warnings@).contains(ticker@),
            },
            r is Some <==> warned(warnings@).contains(ticker@),
    {
        let mut k: usize = 0;
        while k < warnings.len()
            invariant
                k <= warnings@.len(),
                forall|j: int| 0 <= j < k ==> (#[trigger] warnings@[j]).ticker@ != ticker@,
            decreases warnings@.len() - k,
        {
            if text::same_text(warnings[k].ticker.as_str(), ticker) {
                proof {
                    assert(warned(warnings@)[k as int] == ticker@);
                }
                let w: &CorrelationWarning = &warnings[k];
                assert(*w == warnings@[k as int]);
                return Some(w);
            }
            k = k + 1;
        }
        proof {
            assert forall|x: int| 0 <= x < warned(warnings@).len() implies warned(warnings@)[x]
                != ticker@ by {
                assert(warned(warnings@)[x] == warnings@[x].ticker@);
            }
        }
        None
    }
}

proof fn lemma_warning_names(
    data: CorrelationData,
    s: Seq<signals::ScoreView>,
    t: Seq<char>,
    i: int,
    j: int,
)
    requires
        0 <= i < j,
    ensures
        warning_from(data, s, t, i, j) is Some ==> exists|k: int|
            0 <= k < s.len() && (#[trigger] s[k]).ticker == t,
        warning_from(data, s, t, i, j) matches Some(w) ==> w.ticker == t,
    decreases s.len() - i, s.len() - j,
{
    if i < s.len() {
        if j >= s.len() {
            lemma_warning_names(data, s, t, i + 1, i + 2);
        } else if !(concentrated(data, s[i], s[j]) is Some && s[j].ticker == t) {
            lemma_warning_names(data, s, t, i, j + 1);
        } else {
            assert(s[j].ticker == t);
        }
    }
}

/// A warning is about the lower-ranked of two concentrated picks among the best ten, and names
/// the better one.
pub proof fn only_lower_ranked_picks_are_flagged(
    data: CorrelationData,
    s: Seq<signals::ScoreView>,
    ticker: Seq<char>,
)
    requires
        warning_about(data, s, ticker) is Some,
    ensures
        exists|i: int, j: int|
            0 <= i < j < s.len() && j < 10 && (#[trigger] s[j]).ticker == ticker && (
            #[trigger] s[i]).ticker == warning_about(data, s, ticker)->0.correlated_with
                && concentrated(data, s[i], s[j]) == Some(
                warning_about(data, s, ticker)->0.correlation,
            ),
{
    let top = looked_at(s);
    lemma_flagged_pair(data, top, ticker, 0, 1);
    let (i, j) = choose|i: int, j: int|
        0 <= i < j < top.len() && (#[trigger] top[j]).ticker == ticker && (
        #[trigger] top[i]).ticker == warning_from(data, top, ticker, 0, 1)->0.correlated_with
            && concentrated(data, top[i], top[j]) == Some(
            warning_from(data, top, ticker, 0, 1)->0.correlation,
        );
    assert(top[i] == s[i] && top[j] == s[j]);
}

proof fn lemma_flagged_pair(
    data: CorrelationData,
    s: Seq<signals::ScoreView>,
    t: Seq<char>,
    i: int,
    j: int,
)
    requires
        0 <= i < j,
        warning_from(data, s, t, i, j) is Some,
    ensures
        exists|a: int, b: int|
            0 <= a < b < s.len() && (#[trigger] s[b]).ticker == t && (#[trigger] s[a]).ticker
                == warning_from(data, s, t, i, j)->0.correlated_with && concentrated(
                data,
                s[a],
                s[b],
            ) == Some(warning_from(data, s, t, i, j)->0.correlation),
    decreases s.len() - i, s.len() - j,
{
    if j >= s.len() {
        lemma_flagged_pair(data, s, t, i + 1, i + 2);
    } else if !(concentrated(data, s[i], s[j]) is Some && s[j].ticker == t) {
        lemma_flagged_pair(data, s, t, i, j + 1);
    } else {
        assert(s[j].ticker == t);
        assert(s[i].ticker == warning_from(data, s, t, i, j)->0.correlated_with);
    }
}

/// No earlier pair warns about a ticker, and none is passed over.
proof fn lemma_first_pair(
    data: CorrelationData,
    s: Seq<signals::ScoreView>,
    t: Seq<char>,
    i: int,
    j: int,
    a: int,
    b: int,
)
    requires
        0 <= i < j,
        i <= a < b < s.len(),
        a == i ==> j <= b,
        s[b].ticker == t,
        concentrated(data, s[a], s[b]) is Some,
    ensures
        warning_from(data, s, t, i, j) is Some,
    decreases s.len() - i, s.len() - j,
{
    if j >= s.len() {
        lemma_first_pair(data, s, t, i + 1, i + 2, a, b);
    } else if !(concentrated(data, s[i], s[j]) is Some && s[j].ticker == t) {
        lemma_first_pair(data, s, t, i, j + 1, a, b);
    }
}

/// Of two picks among the best ten that share an industry, the lower one is warned about.
pub proof fn one_industry_counts_once(
    scores: Vec<SignalScore>,
    data: CorrelationData,
    r: Vec<CorrelationWarning>,
    i: int,
    j: int,
)
    requires
        call_ensures(ConcentrationGuard::check, (&scores, &data), r),
        0 <= i < j < scores@.len(),
        j < 10,
        scores@[i].industry@ == scores@[j].industry@,
    ensures
        exists|k: int| 0 <= k < r@.len() && (#[trigger] r@[k]).ticker@ == scores@[j].ticker@,
{
    let s = signals::views(scores@);
    let top = looked_at(s);
    assert(top[i] == scores@[i]@ && top[j] == scores@[j]@);
    assert(concentrated(data, top[i], top[j]) is Some);
    lemma_first_pair(data, top, top[j].ticker, 0, 1, i, j);
    let args = (&scores, &data);
    assert(warning_about(*args.1, signals::views(args.0@), scores@[j].ticker@) is Some);
    assert(warned(r@).contains(scores@[j].ticker@));
    let k = choose|k: int| 0 <= k < warned(r@).len() && warned(r@)[k] == scores@[j].ticker@;
    assert(r@[k].ticker@ == scores@[j].ticker@);
}

/// Of two picks among the best ten whose industries are correlated above seven tenths, the lower
/// one is warned about.
pub proof fn industries_that_move_together_count_once(
    scores: Vec<SignalScore>,
    data: CorrelationData,
    r: Vec<CorrelationWarning>,
    i: int,
    j: int,
    a: &str,
    b: &str,
    c: Option<Number>,
)
    requires
        call_ensures(ConcentrationGuard::check, (&scores, &data), r),
        0 <= i < j < scores@.len(),
        j < 10,
        scores@[i].industry@ == a@,
        scores@[j].industry@ == b@,
        call_ensures(CorrelationData::get_correlation, (&data, a, b), c),
        c matches Some(x) && 0x3FE6_6666_6666_6666 < x.bits <= 0x3FF0_0000_0000_0000,
    ensures
        exists|k: int| 0 <= k < r@.len() && (#[trigger] r@[k]).ticker@ == scores@[j].ticker@,
{
    let s = signals::views(scores@);
    let top = looked_at(s);
    assert(top[i] == scores@[i]@ && top[j] == scores@[j]@);
    assert(concentrated(data, top[i], top[j]) is Some);
    lemma_first_pair(data, top, top[j].ticker, 0, 1, i, j);
    let args = (&scores, &data);
    assert(warning_about(*args.1, signals::views(args.0@), scores@[j].ticker@) is Some);
    assert(warned(r@).contains(scores@[j].ticker@));
    let k = choose|k: int| 0 <= k < warned(r@).len() && warned(r@)[k] == scores@[j].ticker@;
    assert(r@[k].ticker@ == scores@[j].ticker@);
}

/// The positions of the pair that a warning comes from.
proof fn lemma_first_cause(
    data: CorrelationData,
    s: Seq<signals::ScoreView>,
    t: Seq<char>,
    i: int,
    j: int,
) -> (p: (int, int))
    requires
        0 <= i < j,
        warning_from(data, s, t, i, j) is Some,
    ensures
        i <= p.0 < p.1 < s.len(),
        s[p.1].ticker == t,
        s[p.0].ticker == warning_from(data, s, t, i, j)->0.correlated_with,
        concentrated(data, s[p.0], s[p.1]) == Some(
            warning_from(data, s, t, i, j)->0.correlation,
        ),
        warning_from(data, s, t, i, j)->0.ticker == t,
        forall|a: int, b: int|
            i <= a < p.0 && a < b < s.len() && (a == i ==> j <= b) && (#[trigger] s[b]).ticker == t
                ==> concentrated(data, #[trigger] s[a], s[b]) is None,
    decreases s.len() - i, s.len() - j,
{
    if j >= s.len() {
        lemma_first_cause(data, s, t, i + 1, i + 2)
    } else if concentrated(data, s[i], s[j]) is Some && s[j].ticker == t {
        (i, j)
    } else {
        lemma_first_cause(data, s, t, i, j + 1)
    }
}

/// A warning about a pick sets it against a better one, with which it shares its industry or whose
/// industry is correlated with its own above seven tenths, and gives that correlation: one for a
/// shared industry. No pick better still shares the industry of a pick so named.
pub proof fn warnings_set_a_pick_against_the_best_like_it(
    scores: Vec<SignalScore>,
    data: CorrelationData,
    r: Vec<CorrelationWarning>,
    k: int,
) -> (p: (int, int))
    requires
        call_ensures(ConcentrationGuard::check, (&scores, &data), r),
        0 <= k < r@.len(),
    ensures
        0 <= p.0 < p.1 < scores@.len(),
        p.1 < 10,
        r@[k].correlated_with@ == scores@[p.0].ticker@,
        r@[k].ticker@ == scores@[p.1].ticker@,
        scores@[p.0].industry@ == scores@[p.1].industry@ ==> r@[k].correlation.bits
            == 0x3FF0_0000_0000_0000,
        scores@[p.0].industry@ != scores@[p.1].industry@ ==> (Number {
            bits: 0x3FE6_6666_6666_6666,
        }).lt(r@[k].correlation) && forall|a: &str, b: &str, c: Option<Number>|
            a@ == scores@[p.0].industry@ && b@ == scores@[p.1].industry@ && #[trigger] call_ensures(
                CorrelationData::get_correlation,
                (&data, a, b),
                c,
            ) ==> c == Some(r@[k].correlation),
        forall|a: int, b: int|
            0 <= a < p.0 && a < b < scores@.len() && b < 10 && (#[trigger] scores@[b]).ticker@
                == r@[k].ticker@ ==> (#[trigger] scores@[a]).industry@ != scores@[b].industry@,
        forall|m: int| 0 <= m < r@.len() && m != k ==> (#[trigger] r@[m]).ticker@ != r@[k].ticker@,
{
    let s = signals::views(scores@);
    let top = looked_at(s);
    let t = r@[k].ticker@;
    let args = (&scores, &data);
    assert(warning_about(*args.1, signals::views(args.0@), r@[k].ticker@) == Some(r@[k]@));
    let p = lemma_first_cause(data, top, t, 0, 1);
    assert forall|a: int, b: int|
        0 <= a < p.0 && a < b < scores@.len() && b < 10 && (#[trigger] scores@[b]).ticker@
            == r@[k].ticker@ implies (#[trigger] scores@[a]).industry@ != scores@[b].industry@ by {
        assert(top[a] == scores@[a]@ && top[b] == scores@[b]@);
        assert(concentrated(data, top[a], top[b]) is None);
    }
    assert(top[p.0] == scores@[p.0]@ && top[p.1] == scores@[p.1]@);
    assert forall|m: int| 0 <= m < r@.len() && m != k implies (#[trigger] r@[m]).ticker@
        != r@[k].ticker@ by {
        assert(warned(r@)[m] == r@[m].ticker@);
        assert(warned(r@)[k] == r@[k].ticker@);
    }
    p
}

/// The warning found for a ticker is about that ticker, and one is found exactly where the ticker
/// has a warning.
pub proof fn a_warning_is_found_by_its_ticker(
    warnings: Vec<CorrelationWarning>,
    ticker: &str,
    has: bool,
    found: Option<&CorrelationWarning>,
)
    requires
        call_ensures(ConcentrationGuard::has_warning, (&warnings, ticker), has),
        call_ensures(ConcentrationGuard::warning_of, (&warnings, ticker), found),
    ensures
        has <==> found is Some,
        has <==> exists|k: int|
            0 <= k < warnings@.len() && (#[trigger] warnings@[k]).ticker@ == ticker@,
        found matches Some(w) ==> w.ticker@ == ticker@,
{
    let names = warned(warnings@);
    if has {
        let k = choose|k: int| 0 <= k < names.len() && names[k] == ticker@;
        assert(warnings@[k].ticker@ == ticker@);
    }
    if exists|k: int| 0 <= k < warnings@.len() && (#[trigger] warnings@[k]).ticker@ == ticker@ {
        let k = choose|k: int|
            0 <= k < warnings@.len() && (#[trigger] warnings@[k]).ticker@ == ticker@;
        assert(names[k] == ticker@);
    }
}

} // verus!
