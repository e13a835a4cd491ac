//! Information coefficients: the correlation of a signal with the return that
//! followed it.
//!
//! Correlations are computed in floating point by the caller. What they are
//! computed from is decided here: which observations count, when there are too
//! few of them, and the ranks that a rank correlation works on.

use vstd::prelude::*;

use crate::number::Number;
use crate::order;

verus! {

/// Observations of two series, matched by position.
pub open spec fn matched(xs: Seq<Number>, ys: Seq<Number>) -> Seq<(Number, Number)> {
    Seq::new(
        if xs.len() < ys.len() {
            xs.len()
        } else {
            ys.len()
        },
        |i: int| (xs[i], ys[i]),
    )
}

/// The matched observations of which both sides are finite.
pub open spec fn finite_pairs(xs: Seq<Number>, ys: Seq<Number>) -> Seq<(Number, Number)> {
    matched(xs, ys).filter(|p: (Number, Number)| p.0.finite() && p.1.finite())
}

/// The left sides of pairs.
pub open spec fn lefts(s: Seq<(Number, Number)>) -> Seq<Number> {
    s.map_values(|p: (Number, Number)| p.0)
}

/// The right sides of pairs.
pub open spec fn rights(s: Seq<(Number, Number)>) -> Seq<Number> {
    s.map_values(|p: (Number, Number)| p.1)
}

/// Two series of the same length.
#[derive(Debug)]
pub struct Sample {
    pub xs: Vec<Number>,
    pub ys: Vec<Number>,
}

/// The matched observations of which both sides are finite.
pub fn drop_non_finite(xs: &Vec<Number>, ys: &Vec<Number>) -> (r: Sample)
    ensures
        r.xs@ == lefts(finite_pairs(xs@, ys@)),
        r.ys@ == rights(finite_pairs(xs@, ys@)),
{
    let mut out: Sample = Sample { xs: Vec::new(), ys: Vec::new() };
    let n: usize = if xs.len() < ys.len() {
        xs.len()
    } else {
        ys.len()
    };
    let mut i: usize = 0;
    let ghost all = matched(xs@, ys@);
    let ghost keep = |p: (Number, Number)| p.0.finite() && p.1.finite();
    proof {
        reveal(Seq::filter);
        assert(all.take(0) =~= seq![]);
        assert(out.xs@ =~= lefts(all.take(0).filter(keep)));
        assert(out.ys@ =~= rights(all.take(0).filter(keep)));
    }
    while i < n
        invariant
            i <= n <= xs.len(),
            n <= ys.len(),
            n == all.len(),
            all == matched(xs@, ys@),
            keep == (|p: (Number, Number)| p.0.finite() && p.1.finite()),
            out.xs@ == lefts(all.take(i as int).filter(keep)),
            out.ys@ == rights(all.take(i as int).filter(keep)),
        decreases n - i,
    {
        let ghost before = all.take(i as int).filter(keep);
        proof {
            reveal(Seq::filter);
            assert(all.take(i + 1).drop_last() =~= all.take(i as int));
            assert(all.take(i + 1).last() == (xs@[i as int], ys@[i as int]));
        }
        if xs[i].is_finite() && ys[i].is_finite() {
            out.xs.push(xs[i]);
            out.ys.push(ys[i]);
            proof {
                let after = before.push((xs@[i as int], ys@[i as int]));
                assert(all.take(i + 1).filter(keep) == after);
                assert(lefts(after) =~= lefts(before).push(xs@[i as int]));
                assert(rights(after) =~= rights(before).push(ys@[i as int]));
            }
        }
        i = i + 1;
    }
    proof {
        assert(all.take(n as int) =~= all);
    }
    out
}

/// What a linear correlation is computed from: the finite pairs, where there are two at least.
pub fn pearson(xs: &Vec<Number>, ys: &Vec<Number>) -> (r: Option<Sample>)
    ensures
        match r {
            Some(s) => finite_pairs(xs@, ys@).len() >= 2 && s.xs@ == lefts(finite_pairs(xs@, ys@))
                && s.ys@ == rights(finite_pairs(xs@, ys@)),
            None => finite_pairs(xs@, ys@).len() < 2,
        },
{
    let s: Sample = drop_non_finite(xs, ys);
    if s.xs.len() < 2 {
        None
    } else {
        Some(s)
    }
}

// ── Ranks ────────────────────────────────────────────────────────────────────

/// How many of the first `n` values are smaller than the `i`-th.
pub open spec fn below(v: Seq<Number>, i: int, n: int) -> int
    decreases n,
{
    if n <= 0 {
        0
    } else {
        below(v, i, n - 1) + (if v[n - 1].lt(v[i]) {
            1int
        } else {
            0
        })
    }
}

/// How many of the first `n` values equal the `i`-th.
pub open spec fn level(v: Seq<Number>, i: int, n: int) -> int
    decreases n,
{
    if n <= 0 {
        0
    } else {
        level(v, i, n - 1) + (if v[n - 1].le(v[i]) && v[i].le(v[n - 1]) {
            1int
        } else {
            0
        })
    }
}

/// Twice the average of the ranks that the values equal to the `i`-th span, the smallest value
/// having rank 1: these ranks start after the smaller values, and there are as many as equal
/// values.
pub open spec fn doubled_rank(v: Seq<Number>, i: int) -> int {
    2 * below(v, i, v.len() as int) + level(v, i, v.len() as int) + 1
}

/// No value is not-a-number.
pub open spec fn all_numbers(v: Seq<Number>) -> bool {
    forall|i: int| 0 <= i < v.len() ==> !(#[trigger] v[i]).nan()
}

/// Counts the values below the `i`-th and those equal to it.
fn tally(v: &Vec<Number>, i: usize) -> (r: (usize, usize))
    requires
        i < v.len(),
    ensures
        r.0 == below(v@, i as int, v@.len() as int),
        r.1 == level(v@, i as int, v@.len() as int),
        r.0 + r.1 <= v@.len(),
{
    let mut smaller: usize = 0;
    let mut equal: usize = 0;
    let mut n: usize = 0;
    while n < v.len()
        invariant
            n <= v.len(),
            i < v.len(),
            smaller == below(v@, i as int, n as int),
            equal == level(v@, i as int, n as int),
            smaller + equal <= n,
        decreases v.len() - n,
    {
        if v[n].is_lt(v[i]) {
            smaller = smaller + 1;
        } else if v[n].is_le(v[i]) && v[i].is_le(v[n]) {
            equal = equal + 1;
        }
        n = n + 1;
    }
    (smaller, equal)
}

/// Twice the 1-based average rank of each value; equal values share the mean of the ranks they
/// span.
pub fn ranks(values: &Vec<Number>) -> (r: Vec<u128>)
    requires
        all_numbers(values@),
    ensures
        r@.len() == values@.len(),
        forall|i: int| 0 <= i < r@.len() ==> (#[trigger] r@[i]) == doubled_rank(values@, i),
{
    let mut out: Vec<u128> = Vec::new();
    let mut i: usize = 0;
    while i < values.len()
        invariant
            i <= values.len(),
            out@.len() == i,
            forall|k: int| 0 <= k < i ==> (#[trigger] out@[k]) == doubled_rank(values@, k),
        decreases values.len() - i,
    {
        let (smaller, equal): (usize, usize) = tally(values, i);
        out.push(2 * (smaller as u128) + equal as u128 + 1);
        i = i + 1;
    }
    out
}

/// Every position of one series compares with every other as it does in the second.
pub open spec fn ordered_alike(a: Seq<Number>, b: Seq<Number>) -> bool {
    &&& a.len() == b.len()
    &&& forall|i: int, j: int|
        0 <= i < a.len() && 0 <= j < a.len() ==> (#[trigger] a[i].lt(a[j]) <==> b[i].lt(b[j]))
}

/// Ranks depend on the order of the values alone: any increasing change of scale, however far
/// from linear, leaves them as they are.
pub proof fn ranks_depend_on_order_alone(a: Seq<Number>, b: Seq<Number>, i: int)
    requires
        all_numbers(a),
        all_numbers(b),
        ordered_alike(a, b),
        0 <= i < a.len(),
    ensures
        doubled_rank(a, i) == doubled_rank(b, i),
{
    lemma_same_counts(a, b, i, a.len() as int);
}

proof fn lemma_same_counts(a: Seq<Number>, b: Seq<Number>, i: int, n: int)
    requires
        all_numbers(a),
        all_numbers(b),
        ordered_alike(a, b),
        0 <= i < a.len(),
        0 <= n <= a.len(),
    ensures
        below(a, i, n) == below(b, i, n),
        level(a, i, n) == level(b, i, n),
    decreases n,
{
    if n > 0 {
        lemma_same_counts(a, b, i, n - 1);
        assert(a[n - 1].lt(a[i]) <==> b[n - 1].lt(b[i]));
        assert(a[i].lt(a[n - 1]) <==> b[i].lt(b[n - 1]));
        assert(!a[n - 1].nan() && !b[n - 1].nan() && !a[i].nan() && !b[i].nan());
    }
}

/// Reversing the order of the values mirrors the ranks: the two ranks of a position add up to one
/// more than the number of values, doubled.
pub proof fn reversed_ranks_mirror(a: Seq<Number>, b: Seq<Number>, i: int)
    requires
        all_numbers(a),
        all_numbers(b),
        a.len() == b.len(),
        forall|j: int, k: int|
            0 <= j < a.len() && 0 <= k < a.len() ==> (#[trigger] a[j].lt(a[k]) <==> b[k].lt(b[j])),
        0 <= i < a.len(),
    ensures
        doubled_rank(a, i) + doubled_rank(b, i) == 2 * (a.len() + 1),
{
    lemma_mirrored_counts(a, b, i, a.len() as int);
}

proof fn lemma_mirrored_counts(a: Seq<Number>, b: Seq<Number>, i: int, n: int)
    requires
        all_numbers(a),
        all_numbers(b),
        a.len() == b.len(),
        forall|j: int, k: int|
            0 <= j < a.len() && 0 <= k < a.len() ==> (#[trigger] a[j].lt(a[k]) <==> b[k].lt(b[j])),
        0 <= i < a.len(),
        0 <= n <= a.len(),
    ensures
        below(a, i, n) + below(b, i, n) + level(a, i, n) == n,
        level(a, i, n) == level(b, i, n),
    decreases n,
{
    if n > 0 {
        lemma_mirrored_counts(a, b, i, n - 1);
        assert(a[n - 1].lt(a[i]) <==> b[i].lt(b[n - 1]));
        assert(a[i].lt(a[n - 1]) <==> b[n - 1].lt(b[i]));
        assert(!a[n - 1].nan() && !b[n - 1].nan() && !a[i].nan() && !b[i].nan());
    }
}

/// Twice the average ranks of two series, observation by observation.
#[derive(Debug)]
pub struct RankSample {
    pub xs: Vec<u128>,
    pub ys: Vec<u128>,
}

/// `r` holds the doubled ranks of `v`.
pub open spec fn are_ranks(v: Seq<Number>, r: Seq<u128>) -> bool {
    &&& r.len() == v.len()
    &&& forall|i: int| 0 <= i < r.len() ==> (#[trigger] r[i]) == doubled_rank(v, i)
}

/// The sum of doubled ranks.
pub open spec fn total(r: Seq<u128>) -> int
    decreases r.len(),
{
    if r.len() == 0 {
        0
    } else {
        total(r.drop_last()) + r.last()
    }
}

/// What the `j`-th value adds to the doubled rank of the `i`-th: two where it is smaller, one where
/// they are equal.
spec fn share(v: Seq<Number>, i: int, j: int) -> int {
    if v[j].lt(v[i]) {
        2
    } else if v[j].le(v[i]) && v[i].le(v[j]) {
        1
    } else {
        0
    }
}

/// What the first `n` values add to the doubled rank of the `i`-th.
spec fn shares(v: Seq<Number>, i: int, n: int) -> int {
    2 * below(v, i, n) + level(v, i, n)
}

/// What the first `n` values add to the doubled ranks of the first `m`.
spec fn shares_upto(v: Seq<Number>, m: int, n: int) -> int
    decreases m,
{
    if m <= 0 {
        0
    } else {
        shares_upto(v, m - 1, n) + shares(v, m - 1, n)
    }
}

/// What the `n`-th value adds to the doubled ranks of the first `m`.
spec fn given(v: Seq<Number>, m: int, n: int) -> int
    decreases m,
{
    if m <= 0 {
        0
    } else {
        given(v, m - 1, n) + share(v, m - 1, n)
    }
}

proof fn lemma_one_more_value(v: Seq<Number>, m: int, n: int)
    requires
        0 <= m <= v.len(),
        0 <= n < v.len(),
    ensures
        shares_upto(v, m, n + 1) == shares_upto(v, m, n) + given(v, m, n),
    decreases m,
{
    if m > 0 {
        lemma_one_more_value(v, m - 1, n);
        assert(shares(v, m - 1, n + 1) == shares(v, m - 1, n) + share(v, m - 1, n));
    }
}

proof fn lemma_two_to_share(v: Seq<Number>, m: int, n: int)
    requires
        all_numbers(v),
        0 <= m <= n < v.len(),
    ensures
        given(v, m, n) + shares(v, n, m) == 2 * m,
    decreases m,
{
    if m > 0 {
        lemma_two_to_share(v, m - 1, n);
        assert(!v[m - 1].nan() && !v[n].nan());
        assert(shares(v, n, m) == shares(v, n, m - 1) + share(v, n, m - 1));
        assert(share(v, m - 1, n) + share(v, n, m - 1) == 2);
    }
}

proof fn lemma_all_shares(v: Seq<Number>, n: int)
    requires
        all_numbers(v),
        0 <= n <= v.len(),
    ensures
        shares_upto(v, n, n) == n * n,
    decreases n,
{
    if n > 0 {
        let k = n - 1;
        lemma_all_shares(v, k);
        lemma_one_more_value(v, k, k);
        lemma_two_to_share(v, k, k);
        assert(!v[k].nan());
        assert(shares(v, k, n) == shares(v, k, k) + share(v, k, k));
        assert(share(v, k, k) == 1);
        assert(k * k + 2 * k + 1 == n * n) by (nonlinear_arith)
            requires
                n == k + 1,
        ;
    } else {
        assert(n * n == 0) by (nonlinear_arith)
            requires
                n == 0,
        ;
    }
}

proof fn lemma_total(v: Seq<Number>, r: Seq<u128>)
    requires
        r.len() <= v.len(),
        forall|i: int| 0 <= i < r.len() ==> (#[trigger] r[i]) == doubled_rank(v, i),
    ensures
        total(r) == shares_upto(v, r.len() as int, v.len() as int) + r.len(),
    decreases r.len(),
{
    if r.len() > 0 {
        let init = r.drop_last();
        assert forall|i: int| 0 <= i < init.len() implies (#[trigger] init[i]) == doubled_rank(
            v,
            i,
        ) by {
            assert(init[i] == r[i]);
        }
        lemma_total(v, init);
        assert(r.last() == doubled_rank(v, r.len() - 1));
    }
}

/// However many values are equal, the ranks of `n` values add up to those of the numbers from 1 to
/// `n`: doubled, to `n (n + 1)`.
pub proof fn ranks_add_up(v: Seq<Number>, r: Seq<u128>)
    requires
        all_numbers(v),
        are_ranks(v, r),
    ensures
        total(r) == v.len() * (v.len() + 1),
{
    let n = v.len() as int;
    lemma_total(v, r);
    lemma_all_shares(v, n);
    assert(n * n + n == n * (n + 1)) by (nonlinear_arith);
}

/// What a rank correlation is computed from: the ranks of the finite pairs, where there are two
/// at least.
pub fn spearman(xs: &Vec<Number>, ys: &Vec<Number>) -> (r: Option<RankSample>)
    ensures
        match r {
            Some(s) => finite_pairs(xs@, ys@).len() >= 2 && are_ranks(
                lefts(finite_pairs(xs@, ys@)),
                s.xs@,
            ) && are_ranks(rights(finite_pairs(xs@, ys@)), s.ys@),
            None => finite_pairs(xs@, ys@).len() < 2,
        },
{
    let s: Sample = drop_non_finite(xs, ys);
    if s.xs.len() < 2 {
        None
    } else {
        proof {
            broadcast use vstd::seq_lib::group_filter_ensures;

            let kept = finite_pairs(xs@, ys@);
            assert forall|i: int| 0 <= i < kept.len() implies kept[i].0.finite()
                && kept[i].1.finite() by {
                assert(kept.contains(kept[i]));
            }
            assert forall|i: int| 0 <= i < s.xs@.len() implies !(#[trigger] s.xs@[i]).nan() by {
                assert(s.xs@[i] == kept[i].0);
            }
            assert forall|i: int| 0 <= i < s.ys@.len() implies !(#[trigger] s.ys@[i]).nan() by {
                assert(s.ys@[i] == kept[i].1);
            }
        }
        Some(RankSample { xs: ranks(&s.xs), ys: ranks(&s.ys) })
    }
}

// ── A series of coefficients ─────────────────────────────────────────────────

/// What the summary of a series of coefficients is computed from.
#[derive(Debug)]
pub struct IcSummary {
    /// The finite coefficients, in their order.
    pub kept: Vec<Number>,
    /// How many of them are greater than zero.
    pub hits: usize,
}

/// The finite coefficients.
pub open spec fn finite_ones(s: Seq<Number>) -> Seq<Number> {
    s.filter(|x: Number| x.finite())
}

/// The coefficients greater than zero.
pub open spec fn hits_of(s: Seq<Number>) -> Seq<Number> {
    s.filter(|x: Number| (Number { bits: 0 }).lt(x))
}

/// The finite coefficients and the number of periods in which the signal was right.
pub fn summarize(ics: &Vec<Number>) -> (r: IcSummary)
    ensures
        r.kept@ == finite_ones(ics@),
        r.hits == hits_of(finite_ones(ics@)).len(),
        r.hits <= r.kept@.len(),
{
    let mut kept: Vec<Number> = Vec::new();
    let mut hits: usize = 0;
    let mut i: usize = 0;
    let ghost fin = |x: Number| x.finite();
    let ghost hit = |x: Number| (Number { bits: 0 }).lt(x);
    proof {
        reveal(Seq::filter);
        assert(ics@.take(0) =~= seq![]);
        assert(kept@ =~= ics@.take(0).filter(fin));
        assert(kept@.filter(hit) =~= seq![]);
    }
    while i < ics.len()
        invariant
            i <= ics.len(),
            fin == (|x: Number| x.finite()),
            hit == (|x: Number| (Number { bits: 0 }).lt(x)),
            kept@ == ics@.take(i as int).filter(fin),
            hits == kept@.filter(hit).len(),
            hits <= kept@.len() <= i,
        decreases ics.len() - i,
    {
        let ghost before = kept@;
        proof {
            reveal(Seq::filter);
            assert(ics@.take(i + 1).drop_last() =~= ics@.take(i as int));
            assert(ics@.take(i + 1).last() == ics@[i as int]);
        }
        if ics[i].is_finite() {
            kept.push(ics[i]);
            proof {
                assert(kept@.drop_last() =~= before);
                assert(kept@.last() == ics@[i as int]);
            }
            if Number::zero().is_lt(ics[i]) {
                hits = hits + 1;
            }
        }
        i = i + 1;
    }
    proof {
        assert(ics@.take(ics@.len() as int) =~= ics@);
    }
    IcSummary { kept, hits }
}

// ── What is kept, and how it is ranked ───────────────────────────────────────

/// The positions of the pairs that are kept.
proof fn lemma_kept(xs: Vec<Number>, ys: Vec<Number>, r: Sample) -> (idx: Seq<int>)
    requires
        call_ensures(drop_non_finite, (&xs, &ys), r),
    ensures
        idx.len() == r.xs@.len() == r.ys@.len(),
        forall|k: int|
            0 <= k < idx.len() ==> 0 <= (#[trigger] idx[k]) < xs@.len() && idx[k] < ys@.len()
                && r.xs@[k] == xs@[idx[k]] && r.ys@[k] == ys@[idx[k]] && xs@[idx[k]].finite()
                && ys@[idx[k]].finite(),
        forall|j: int, k: int| 0 <= j < k < idx.len() ==> (#[trigger] idx[j]) < (#[trigger] idx[k]),
        forall|i: int|
            #![trigger xs@[i]]
            0 <= i < xs@.len() && i < ys@.len() && xs@[i].finite() && ys@[i].finite() ==> exists|
                k: int,
            |
                0 <= k < idx.len() && #[trigger] idx[k] == i,
{
    let all = matched(xs@, ys@);
    let keep = |p: (Number, Number)| p.0.finite() && p.1.finite();
    let idx = order::lemma_filter_positions(all, keep);
    let kept = all.filter(keep);
    assert(kept == finite_pairs(xs@, ys@));
    assert forall|k: int| 0 <= k < idx.len() implies 0 <= (#[trigger] idx[k]) < xs@.len() && idx[k]
        < ys@.len() && r.xs@[k] == xs@[idx[k]] && r.ys@[k] == ys@[idx[k]] && xs@[idx[k]].finite()
        && ys@[idx[k]].finite() by {
        assert(kept[k] == all[idx[k]]);
        assert(keep(all[idx[k]]));
        assert(lefts(kept)[k] == kept[k].0);
        assert(rights(kept)[k] == kept[k].1);
    }
    assert forall|i: int|
        #![trigger xs@[i]]
        0 <= i < xs@.len() && i < ys@.len() && xs@[i].finite() && ys@[i].finite() implies exists|
            k: int,
        |
            0 <= k < idx.len() && #[trigger] idx[k] == i by {
        assert(all[i] == (xs@[i], ys@[i]));
        assert(keep(all[i]));
    }
    idx
}

/// What is kept of two series stays paired as it was and in its order; a pair is kept exactly where
/// both its sides are finite, whose encodings, signs apart, lie below that of infinity.
pub proof fn kept_observations_stay_paired(xs: Vec<Number>, ys: Vec<Number>, r: Sample) -> (idx:
    Seq<int>)
    requires
        call_ensures(drop_non_finite, (&xs, &ys), r),
    ensures
        idx.len() == r.xs@.len() == r.ys@.len(),
        forall|k: int|
            0 <= k < idx.len() ==> 0 <= (#[trigger] idx[k]) < xs@.len() && idx[k] < ys@.len()
                && r.xs@[k] == xs@[idx[k]] && r.ys@[k] == ys@[idx[k]] && xs@[idx[k]].bits
                % 0x8000_0000_0000_0000 < 0x7FF0_0000_0000_0000 && ys@[idx[k]].bits
                % 0x8000_0000_0000_0000 < 0x7FF0_0000_0000_0000,
        forall|j: int, k: int| 0 <= j < k < idx.len() ==> (#[trigger] idx[j]) < (#[trigger] idx[k]),
        forall|i: int|
            #![trigger xs@[i]]
            0 <= i < xs@.len() && i < ys@.len() && xs@[i].bits % 0x8000_0000_0000_0000
                < 0x7FF0_0000_0000_0000 && ys@[i].bits % 0x8000_0000_0000_0000
                < 0x7FF0_0000_0000_0000 ==> exists|k: int|
                0 <= k < idx.len() && #[trigger] idx[k] == i,
{
    lemma_kept(xs, ys, r)
}

/// A linear correlation works on exactly the pairs that are kept, and needs two of them.
pub proof fn linear_correlations_use_the_kept_pairs(
    xs: Vec<Number>,
    ys: Vec<Number>,
    kept: Sample,
    r: Option<Sample>,
)
    requires
        call_ensures(drop_non_finite, (&xs, &ys), kept),
        call_ensures(pearson, (&xs, &ys), r),
    ensures
        kept.xs@.len() < 2 ==> r is None,
        kept.xs@.len() >= 2 ==> (r matches Some(s) && s.xs@ == kept.xs@ && s.ys@ == kept.ys@),
{
}

/// A rank correlation works on the ranks of exactly the pairs that are kept, each side ranked by
/// itself, and needs two of them.
pub proof fn rank_correlations_rank_the_kept_pairs(
    xs: Vec<Number>,
    ys: Vec<Number>,
    kept: Sample,
    a: Vec<u128>,
    b: Vec<u128>,
    r: Option<RankSample>,
)
    requires
        call_ensures(drop_non_finite, (&xs, &ys), kept),
        call_ensures(ranks, (&kept.xs,), a),
        call_ensures(ranks, (&kept.ys,), b),
        call_ensures(spearman, (&xs, &ys), r),
    ensures
        kept.xs@.len() < 2 ==> r is None,
        kept.xs@.len() >= 2 ==> (r matches Some(s) && s.xs@ == a@ && s.ys@ == b@),
{
    if let Some(s) = r {
        assert(s.xs@ =~= a@);
        assert(s.ys@ =~= b@);
    }
}

proof fn lemma_counts_follow(v: Seq<Number>, i: int, j: int, n: int)
    requires
        all_numbers(v),
        0 <= i < v.len(),
        0 <= j < v.len(),
        0 <= n <= v.len(),
    ensures
        0 <= below(v, i, n),
        0 <= level(v, i, n),
        below(v, i, n) + level(v, i, n) <= n,
        i < n ==> level(v, i, n) >= 1,
        v[i].lt(v[j]) ==> below(v, i, n) + level(v, i, n) <= below(v, j, n),
        v[i].le(v[j]) && v[j].le(v[i]) ==> below(v, i, n) == below(v, j, n) && level(v, i, n)
            == level(v, j, n),
    decreases n,
{
    if n > 0 {
        lemma_counts_follow(v, i, j, n - 1);
    }
}

/// A greater value has a greater rank, and equal values share one. Every rank lies between one and
/// the number of values; together they add up to the sum of the numbers from one on. Ranks are
/// given doubled.
pub proof fn ranks_follow_the_values(values: Vec<Number>, r: Vec<u128>, i: int, j: int)
    requires
        all_numbers(values@),
        call_ensures(ranks, (&values,), r),
        0 <= i < values@.len(),
        0 <= j < values@.len(),
    ensures
        r@.len() == values@.len(),
        values@[i].lt(values@[j]) ==> r@[i] < r@[j],
        values@[i].le(values@[j]) && values@[j].le(values@[i]) ==> r@[i] == r@[j],
        2 <= r@[i] <= 2 * values@.len(),
        total(r@) == values@.len() * (values@.len() + 1),
{
    let n = values@.len() as int;
    lemma_counts_follow(values@, i, j, n);
    lemma_counts_follow(values@, j, i, n);
    ranks_add_up(values@, r@);
}

/// Where no two values are equal, a rank is one more than the number of smaller values.
pub proof fn distinct_values_are_counted_from_one(values: Vec<Number>, r: Vec<u128>, i: int)
    requires
        all_numbers(values@),
        call_ensures(ranks, (&values,), r),
        0 <= i < values@.len(),
        forall|j: int|
            0 <= j < values@.len() && j != i ==> (#[trigger] values@[j]).place()
                != values@[i].place(),
    ensures
        r@[i] == 2 * (1 + values@.filter(|x: Number| x.lt(values@[i])).len()),
{
    lemma_alone(values@, i, values@.len() as int);
    assert(values@.take(values@.len() as int) =~= values@);
}

proof fn lemma_alone(v: Seq<Number>, i: int, n: int)
    requires
        all_numbers(v),
        0 <= i < v.len(),
        0 <= n <= v.len(),
        forall|j: int|
            0 <= j < v.len() && j != i ==> (#[trigger] v[j]).place() != v[i].place(),
    ensures
        level(v, i, n) == (if i < n {
            1int
        } else {
            0int
        }),
        below(v, i, n) == v.take(n).filter(|x: Number| x.lt(v[i])).len(),
    decreases n,
{
    reveal(Seq::filter);
    if n > 0 {
        lemma_alone(v, i, n - 1);
        assert(v.take(n).drop_last() =~= v.take(n - 1));
        assert(v.take(n).last() == v[n - 1]);
        assert(v[n - 1] == v[n - 1]);
    }
}

/// A summary keeps the finite coefficients and counts those greater than zero as hits.
pub proof fn hits_are_positive_coefficients(ics: Vec<Number>, r: IcSummary)
    requires
        call_ensures(summarize, (&ics,), r),
    ensures
        r.kept@ == ics@.filter(
            |x: Number| x.bits % 0x8000_0000_0000_0000 < 0x7FF0_0000_0000_0000,
        ),
        r.hits == ics@.filter(|x: Number| 0 < x.bits < 0x7FF0_0000_0000_0000).len(),
{
    let finite = |x: Number| x.finite();
    let hit = |x: Number| (Number { bits: 0 }).lt(x);
    let both = |x: Number| 0 < x.bits < 0x7FF0_0000_0000_0000;
    assert(finite =~= |x: Number| x.bits % 0x8000_0000_0000_0000 < 0x7FF0_0000_0000_0000);
    lemma_filter_twice(ics@, finite, hit, both);
}

proof fn lemma_filter_twice(
    s: Seq<Number>,
    f: spec_fn(Number) -> bool,
    g: spec_fn(Number) -> bool,
    h: spec_fn(Number) -> bool,
)
    requires
        forall|x: Number| #[trigger] h(x) <==> f(x) && g(x),
    ensures
        s.filter(f).filter(g) == s.filter(h),
    decreases s.len(),
{
    reveal(Seq::filter);
    if s.len() > 0 {
        let init = s.drop_last();
        lemma_filter_twice(init, f, g, h);
        assert(h(s.last()) <==> f(s.last()) && g(s.last()));
        if f(s.last()) {
            let kept = init.filter(f).push(s.last());
            assert(kept.drop_last() =~= init.filter(f));
            assert(kept.last() == s.last());
        }
    }
}

} // verus!
