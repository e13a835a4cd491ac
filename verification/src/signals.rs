//! The scores that a ranking gives to the names of a universe, and the choice
//! of the names to hold.

use vstd::prelude::*;

use crate::number::Number;
use crate::order;

verus! {

/// One ranked name.
#[derive(Debug)]
pub struct SignalScore {
    pub ticker: String,
    pub industry: String,
    /// Rank in the universe, 1 being the best.
    pub rank: usize,
    /// Composite score, higher is better.
    pub composite: Number,
    /// Whether the macro regime lets new positions be opened.
    pub macro_on: bool,
}

/// What a ranked name says.
#[verifier::ext_equal]
pub struct ScoreView {
    pub ticker: Seq<char>,
    pub industry: Seq<char>,
    pub rank: usize,
    pub composite: Number,
    pub macro_on: bool,
}

impl View for SignalScore {
    type V = ScoreView;

    open spec fn view(&self) -> ScoreView {
        ScoreView {
            ticker: self.ticker@,
            industry: self.industry@,
            rank: self.rank,
            composite: self.composite,
            macro_on: self.macro_on,
        }
    }
}

impl Clone for SignalScore {
    fn clone(&self) -> (r: SignalScore)
        ensures
            r@ == self@,
    {
        SignalScore {
            ticker: self.ticker.clone(),
            industry: self.industry.clone(),
            rank: self.rank,
            composite: self.composite,
            macro_on: self.macro_on,
        }
    }
}

/// What a list of ranked names says.
pub open spec fn views(s: Seq<SignalScore>) -> Seq<ScoreView> {
    s.map_values(|x: SignalScore| x@)
}

/// The names whose score is at least `min`, in their order.
pub open spec fn at_least(s: Seq<ScoreView>, min: Number) -> Seq<ScoreView> {
    s.filter(|x: ScoreView| min.le(x.composite))
}

/// The first `n` names, or all where there are fewer.
pub open spec fn first_of(s: Seq<ScoreView>, n: int) -> Seq<ScoreView> {
    if s.len() <= n {
        s
    } else {
        s.take(n)
    }
}

/// Copies of the names whose score is at least `min`, in their order.
pub fn scores_at_least(scores: &Vec<SignalScore>, min: Number) -> (r: Vec<SignalScore>)
    ensures
        views(r@) == at_least(views(scores@), min),
{
    let mut out: Vec<SignalScore> = Vec::new();
    let mut i: usize = 0;
    let ghost all = views(scores@);
    let ghost keep = |x: ScoreView| min.le(x.composite);
    proof {
        assert(all.take(0) =~= seq![]);
        reveal(Seq::filter);
        assert(views(out@) =~= all.take(0).filter(keep));
    }
    while i < scores.len()
        invariant
            i <= scores.len(),
            all == views(scores@),
            keep == (|x: ScoreView| min.le(x.composite)),
            views(out@) == all.take(i as int).filter(keep),
        decreases scores.len() - i,
    {
        let ghost before = out@;
        proof {
            reveal(Seq::filter);
            assert(all.take(i + 1).drop_last() =~= all.take(i as int));
            assert(all.take(i + 1).last() == scores@[i as int]@);
        }
        if min.is_le(scores[i].composite) {
            out.push(scores[i].clone());
            proof {
                assert(views(out@) =~= views(before).push(scores@[i as int]@));
            }
        }
        i = i + 1;
    }
    proof {
        assert(all.take(scores.len() as int) =~= all);
    }
    out
}

/// Copies of the first `n` names, or of all where there are fewer.
pub fn first_scores(scores: &Vec<SignalScore>, n: usize) -> (r: Vec<SignalScore>)
    ensures
        views(r@) == first_of(views(scores@), n as int),
{
    let mut out: Vec<SignalScore> = Vec::new();
    let end: usize = if n < scores.len() {
        n
    } else {
        scores.len()
    };
    let mut i: usize = 0;
    while i < end
        invariant
            i <= end <= scores.len(),
            out@.len() == i,
            forall|k: int| 0 <= k < i ==> (#[trigger] out@[k])@ == scores@[k]@,
        decreases end - i,
    {
        out.push(scores[i].clone());
        i = i + 1;
    }
    proof {
        assert(views(out@) =~= first_of(views(scores@), n as int));
    }
    out
}

/// Whether the macro regime is off: some name is marked so.
pub open spec fn risk_off(s: Seq<ScoreView>) -> bool {
    exists|i: int| 0 <= i < s.len() && !(#[trigger] s[i]).macro_on
}

/// Whether the macro regime is off.
pub fn is_risk_off(scores: &Vec<SignalScore>) -> (r: bool)
    ensures
        r == risk_off(views(scores@)),
{
    let ghost all = views(scores@);
    let mut i: usize = 0;
    while i < scores.len()
        invariant
            i <= scores.len(),
            all == views(scores@),
            forall|k: int| 0 <= k < i ==> (#[trigger] all[k]).macro_on,
        decreases scores.len() - i,
    {
        if !scores[i].macro_on {
            proof {
                assert(!all[i as int].macro_on);
            }
            return true;
        }
        i = i + 1;
    }
    false
}

/// The best `n` names among those that reach the minimum score, where there is one.
pub open spec fn best(s: Seq<ScoreView>, min_score: Option<Number>, n: int) -> Seq<ScoreView> {
    match min_score {
        Some(m) => first_of(at_least(s, m), n),
        None => first_of(s, n),
    }
}

/// The names to open a portfolio with: the best `top_n` among those that reach the minimum score,
/// where there is one.
pub fn top_picks(scores: &Vec<SignalScore>, min_score: Option<Number>, top_n: usize) -> (r: Vec<
    SignalScore,
>)
    ensures
        views(r@) == best(views(scores@), min_score, top_n as int),
{
    match min_score {
        Some(m) => {
            let eligible: Vec<SignalScore> = scores_at_least(scores, m);
            first_scores(&eligible, top_n)
        },
        None => first_scores(scores, top_n),
    }
}

/// The names to hold after a rebalance: none where the macro gate is in force and the regime is
/// off, otherwise the best.
pub fn select_picks(
    scores: &Vec<SignalScore>,
    top_n: usize,
    min_score: Option<Number>,
    macro_gate: bool,
) -> (r: Vec<SignalScore>)
    ensures
        views(r@) == (if macro_gate && risk_off(views(scores@)) {
            seq![]
        } else {
            best(views(scores@), min_score, top_n as int)
        }),
{
    if macro_gate && is_risk_off(scores) {
        let none: Vec<SignalScore> = Vec::new();
        proof {
            assert(views(none@) =~= seq![]);
        }
        return none;
    }
    top_picks(scores, min_score, top_n)
}

/// What is picked reaches the minimum score and is at most as much as asked for; picks keep the
/// order of the ranking, and a name that reaches the minimum is passed over only for names ranked
/// before it.
pub proof fn picks_are_the_best_eligible_names(
    scores: Vec<SignalScore>,
    min: Number,
    top_n: usize,
    r: Vec<SignalScore>,
) -> (idx: Seq<int>)
    requires
        call_ensures(top_picks, (&scores, Some(min), top_n), r),
    ensures
        r@.len() <= top_n,
        idx.len() == r@.len(),
        forall|k: int|
            0 <= k < r@.len() ==> 0 <= (#[trigger] idx[k]) < scores@.len() && min.le(
                scores@[idx[k]].composite,
            ) && r@[k].ticker@ == scores@[idx[k]].ticker@ && r@[k].composite
                == scores@[idx[k]].composite && r@[k].rank == scores@[idx[k]].rank && r@[k].industry@
                == scores@[idx[k]].industry@,
        forall|j: int, k: int| 0 <= j < k < idx.len() ==> (#[trigger] idx[j]) < (#[trigger] idx[k]),
        forall|i: int|
            0 <= i < scores@.len() && min.le((#[trigger] scores@[i]).composite) ==> idx.contains(i)
                || (idx.len() == top_n && forall|k: int| 0 <= k < idx.len() ==> (#[trigger] idx[k])
                < i),
{
    let v = views(scores@);
    let keep = |x: ScoreView| min.le(x.composite);
    let all = order::lemma_filter_positions(v, keep);
    let n = top_n as int;
    let idx = if all.len() <= n {
        all
    } else {
        all.take(n)
    };
    assert(views(r@).len() == r@.len());
    assert forall|k: int| 0 <= k < r@.len() implies 0 <= (#[trigger] idx[k]) < scores@.len()
        && min.le(scores@[idx[k]].composite) && r@[k].ticker@ == scores@[idx[k]].ticker@
        && r@[k].composite == scores@[idx[k]].composite && r@[k].rank == scores@[idx[k]].rank
        && r@[k].industry@ == scores@[idx[k]].industry@ by {
        assert(idx[k] == all[k]);
        assert(views(r@)[k] == r@[k]@);
        assert(v[all[k]] == scores@[all[k]]@);
        assert(keep(v[all[k]]));
    }
    assert forall|i: int| 0 <= i < scores@.len() && min.le(
        (#[trigger] scores@[i]).composite,
    ) implies idx.contains(i) || (idx.len() == top_n && forall|k: int|
        0 <= k < idx.len() ==> (#[trigger] idx[k]) < i) by {
        assert(keep(v[i]));
        let q = choose|q: int| 0 <= q < all.len() && #[trigger] all[q] == i;
        if q < idx.len() {
            assert(idx[q] == i);
        } else {
            assert forall|k: int| 0 <= k < idx.len() implies (#[trigger] idx[k]) < i by {
                assert(idx[k] == all[k]);
                assert(all[k] < all[q]);
            }
        }
    }
    idx
}

/// Without a minimum the first names of the ranking are picked.
pub proof fn without_a_minimum_the_first_names_are_picked(
    scores: Vec<SignalScore>,
    top_n: usize,
    r: Vec<SignalScore>,
    k: int,
)
    requires
        call_ensures(top_picks, (&scores, None::<Number>, top_n), r),
        0 <= k < scores@.len(),
        k < top_n,
    ensures
        k < r@.len(),
        r@[k].ticker@ == scores@[k].ticker@,
        r@.len() <= top_n,
{
    assert(views(r@).len() == r@.len() && views(scores@).len() == scores@.len());
    assert(views(scores@)[k] == scores@[k]@);
    assert(views(r@)[k] == r@[k]@);
}

/// A rebalance picks what would be picked anyway, unless the macro gate is in force and some name is
/// marked off: then it picks nothing.
pub proof fn the_gate_decides_between_the_picks_and_cash(
    scores: Vec<SignalScore>,
    top_n: usize,
    min: Option<Number>,
    gate: bool,
    r: Vec<SignalScore>,
    open: Vec<SignalScore>,
)
    requires
        call_ensures(select_picks, (&scores, top_n, min, gate), r),
        call_ensures(top_picks, (&scores, min, top_n), open),
    ensures
        !gate ==> views(r@) == views(open@),
        (forall|i: int| 0 <= i < scores@.len() ==> (#[trigger] scores@[i]).macro_on) ==> views(r@)
            == views(open@),
        gate && (exists|i: int| 0 <= i < scores@.len() && !(#[trigger] scores@[i]).macro_on)
            ==> r@.len() == 0,
{
    let v = views(scores@);
    if exists|i: int| 0 <= i < scores@.len() && !(#[trigger] scores@[i]).macro_on {
        let i = choose|i: int| 0 <= i < scores@.len() && !(#[trigger] scores@[i]).macro_on;
        assert(!v[i].macro_on);
        assert(risk_off(v));
        assert(views(r@).len() == r@.len());
    } else {
        assert(!risk_off(v)) by {
            if risk_off(v) {
                let i = choose|i: int| 0 <= i < v.len() && !(#[trigger] v[i]).macro_on;
                assert(!scores@[i].macro_on);
            }
        }
    }
}

/// The first scores are those at the head of the list, as many as asked for.
pub proof fn the_first_scores_head_the_list(
    scores: Vec<SignalScore>,
    n: usize,
    r: Vec<SignalScore>,
    off: bool,
    i: int,
)
    requires
        call_ensures(first_scores, (&scores, n), r),
        call_ensures(is_risk_off, (&scores,), off),
    ensures
        scores@.len() <= n ==> r@.len() == scores@.len(),
        scores@.len() > n ==> r@.len() == n,
        0 <= i < r@.len() ==> r@[i].ticker@ == scores@[i].ticker@ && r@[i].composite
            == scores@[i].composite && r@[i].rank == scores@[i].rank,
        0 <= i < scores@.len() && !scores@[i].macro_on ==> off,
        (forall|k: int| 0 <= k < scores@.len() ==> (#[trigger] scores@[k]).macro_on) ==> !off,
{
    let a = views(scores@);
    let b = views(r@);
    assert(a.len() == scores@.len() && b.len() == r@.len());
    if 0 <= i < r@.len() {
        assert(b[i] == r@[i]@ && a[i] == scores@[i]@);
        assert(b[i] == a[i]);
    }
    if 0 <= i < scores@.len() {
        assert(a[i] == scores@[i]@);
    }
    if forall|k: int| 0 <= k < scores@.len() ==> (#[trigger] scores@[k]).macro_on {
        assert forall|k: int| 0 <= k < a.len() implies (#[trigger] a[k]).macro_on by {
            assert(scores@[k].macro_on);
        }
    }
}

} // verus!
