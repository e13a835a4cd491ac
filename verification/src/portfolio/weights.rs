//! Portfolio weights: how many shares of the whole each ticker gets.

use vstd::prelude::*;

use crate::roles::Role;
use crate::text;

verus! {

/// The weight of a ticker, as a fraction of the portfolio.
#[derive(Debug)]
pub struct Weight {
    pub ticker: String,
    pub numerator: usize,
    pub denominator: usize,
}

/// How often a text occurs among the first `n` strings.
pub open spec fn occurrences(s: Seq<String>, t: Seq<char>, n: int) -> int
    decreases n,
{
    if n <= 0 {
        0
    } else {
        occurrences(s, t, n - 1) + if s[n - 1]@ == t {
            1int
        } else {
            0int
        }
    }
}

/// The sum of the numerators of the first `n` weights.
pub open spec fn shares(s: Seq<Weight>, n: int) -> int
    decreases n,
{
    if n <= 0 {
        0
    } else {
        shares(s, n - 1) + s[n - 1].numerator
    }
}

/// Changing one weight changes the sum by the difference.
proof fn lemma_shares_update(s: Seq<Weight>, t: Seq<Weight>, k: int, n: int)
    requires
        s.len() == t.len(),
        0 <= n <= s.len(),
        0 <= k < s.len(),
        forall|i: int|
            0 <= i < s.len() && i != k ==> (#[trigger] s[i]).numerator == t[i].numerator,
    ensures
        shares(t, n) == shares(s, n) + if k < n {
            t[k].numerator - s[k].numerator
        } else {
            0int
        },
    decreases n,
{
    if n > 0 {
        lemma_shares_update(s, t, k, n - 1);
        if n - 1 != k {
            assert(s[n - 1].numerator == t[n - 1].numerator);
        }
    }
}

proof fn lemma_shares_prefix(s: Seq<Weight>, t: Seq<Weight>, n: int)
    requires
        0 <= n <= s.len(),
        n <= t.len(),
        forall|i: int| 0 <= i < n ==> (#[trigger] s[i]).numerator == t[i].numerator,
    ensures
        shares(s, n) == shares(t, n),
    decreases n,
{
    if n > 0 {
        lemma_shares_prefix(s, t, n - 1);
        assert(s[n - 1].numerator == t[n - 1].numerator);
    }
}

proof fn lemma_occurrences_positive(s: Seq<String>, t: Seq<char>, n: int)
    ensures
        0 <= occurrences(s, t, n),
        n >= 0 ==> occurrences(s, t, n) <= n,
        occurrences(s, t, n) > 0 ==> exists|i: int| 0 <= i < n && (#[trigger] s[i])@ == t,
    decreases n,
{
    if n > 0 {
        lemma_occurrences_positive(s, t, n - 1);
        if s[n - 1]@ == t {
            assert(s[n - 1]@ == t);
        } else if occurrences(s, t, n) > 0 {
            let i = choose|i: int| 0 <= i < n - 1 && (#[trigger] s[i])@ == t;
            assert(s[i]@ == t);
        }
    }
}

/// Equal weight per entry of the list: a ticker listed more than once gets the sum of its shares.
/// Every listed ticker has one weight, its occurrences out of all entries, and the weights add up
/// to the whole.
pub fn equal_weights(tickers: &Vec<String>) -> (r: Vec<Weight>)
    ensures
        forall|i: int|
            0 <= i < r@.len() ==> (#[trigger] r@[i]).denominator == tickers@.len()
                && r@[i].numerator == occurrences(tickers@, r@[i].ticker@, tickers@.len() as int)
                && r@[i].numerator > 0,
        forall|i: int, j: int|
            0 <= i < j < r@.len() ==> (#[trigger] r@[i]).ticker@ != (#[trigger] r@[j]).ticker@,
        forall|k: int|
            0 <= k < tickers@.len() ==> exists|i: int|
                0 <= i < r@.len() && (#[trigger] r@[i]).ticker@ == (#[trigger] tickers@[k])@,
        shares(r@, r@.len() as int) == tickers@.len(),
{
    let mut out: Vec<Weight> = Vec::new();
    let n: usize = tickers.len();
    let mut i: usize = 0;
    while i < n
        invariant
            i <= n,
            n == tickers@.len(),
            forall|a: int|
                0 <= a < out@.len() ==> (#[trigger] out@[a]).denominator == n && out@[a].numerator
                    == occurrences(tickers@, out@[a].ticker@, i as int) && out@[a].numerator > 0,
            forall|a: int, b: int|
                0 <= a < b < out@.len() ==> (#[trigger] out@[a]).ticker@ != (
                #[trigger] out@[b]).ticker@,
            forall|k: int|
                0 <= k < i ==> exists|a: int|
                    0 <= a < out@.len() && (#[trigger] out@[a]).ticker@ == (
                    #[trigger] tickers@[k])@,
            shares(out@, out@.len() as int) == i,
        decreases n - i,
    {
        let ghost before = out@;
        let ticker: &str = tickers[i].as_str();
        let mut a: usize = 0;
        while a < out.len() && !text::same_text(out[a].ticker.as_str(), ticker)
            invariant
                a <= out.len(),
                out@ == before,
                forall|k: int| 0 <= k < a ==> (#[trigger] out@[k]).ticker@ != ticker@,
            decreases out.len() - a,
        {
            a = a + 1;
        }
        proof {
            lemma_occurrences_positive(tickers@, ticker@, i as int);
        }
        if a < out.len() {
            let count: usize = out[a].numerator;
            let name: String = out[a].ticker.clone();
            out.set(a, Weight { ticker: name, numerator: count + 1, denominator: n });
            proof {
                assert(out@ =~= before.update(a as int, out@[a as int]));
                lemma_shares_update(before, out@, a as int, before.len() as int);
                assert forall|p: int, q: int| 0 <= p < q < out@.len() implies (
                #[trigger] out@[p]).ticker@ != (#[trigger] out@[q]).ticker@ by {
                    assert(before[p].ticker@ != before[q].ticker@);
                }
                assert forall|p: int| 0 <= p < out@.len() implies (#[trigger] out@[p]).denominator
                    == n && out@[p].numerator == occurrences(tickers@, out@[p].ticker@, i + 1)
                    && out@[p].numerator > 0 by {
                    assert(before[p].numerator == occurrences(
                        tickers@,
                        before[p].ticker@,
                        i as int,
                    ));
                    if p < a {
                        assert(before[p].ticker@ != before[a as int].ticker@);
                    } else if p > a {
                        assert(before[a as int].ticker@ != before[p].ticker@);
                    }
                }
                assert forall|k: int| 0 <= k < i + 1 implies exists|p: int|
                    0 <= p < out@.len() && (#[trigger] out@[p]).ticker@ == (
                    #[trigger] tickers@[k])@ by {
                    if k < i {
                        let p = choose|p: int|
                            0 <= p < before.len() && (#[trigger] before[p]).ticker@ == tickers@[k]@;
                        assert(out@[p].ticker@ == tickers@[k]@);
                    } else {
                        assert(out@[a as int].ticker@ == tickers@[k]@);
                    }
                }
            }
        } else {
            out.push(Weight { ticker: ticker.to_owned(), numerator: 1, denominator: n });
            proof {
                lemma_shares_prefix(before, out@, before.len() as int);
                assert(shares(out@, out@.len() as int) == i + 1);
                if occurrences(tickers@, ticker@, i as int) > 0 {
                    let k = choose|k: int| 0 <= k < i && (#[trigger] tickers@[k])@ == ticker@;
                    let p = choose|p: int|
                        0 <= p < before.len() && (#[trigger] before[p]).ticker@ == tickers@[k]@;
                    assert(before[p].ticker@ != ticker@);
                }
                assert forall|p: int, q: int| 0 <= p < q < out@.len() implies (
                #[trigger] out@[p]).ticker@ != (#[trigger] out@[q]).ticker@ by {
                    if q < before.len() {
                        assert(before[p].ticker@ != before[q].ticker@);
                    } else {
                        assert(before[p].ticker@ != ticker@);
                    }
                }
                assert forall|p: int| 0 <= p < out@.len() implies (#[trigger] out@[p]).denominator
                    == n && out@[p].numerator == occurrences(tickers@, out@[p].ticker@, i + 1)
                    && out@[p].numerator > 0 by {
                    if p < before.len() {
                        assert(out@[p] == before[p]);
                        assert(before[p].ticker@ != ticker@);
                    }
                }
                assert forall|k: int| 0 <= k < i + 1 implies exists|p: int|
                    0 <= p < out@.len() && (#[trigger] out@[p]).ticker@ == (
                    #[trigger] tickers@[k])@ by {
                    if k < i {
                        let p = choose|p: int|
                            0 <= p < before.len() && (#[trigger] before[p]).ticker@ == tickers@[k]@;
                        assert(out@[p].ticker@ == tickers@[k]@);
                    } else {
                        assert(out@[before.len() as int].ticker@ == tickers@[k]@);
                    }
                }
            }
        }
        i = i + 1;
    }
    out
}

/// A ticker in a role.
#[derive(Debug)]
pub struct RoleTicker {
    pub ticker: String,
    pub role: Role,
}

/// The tickers of one role.
#[derive(Debug)]
pub struct RoleBucket {
    pub role: Role,
    pub tickers: Vec<String>,
}

/// The tickers among the first `n` assignments that hold `role`, in order.
pub open spec fn in_role(s: Seq<RoleTicker>, role: Role, n: int) -> Seq<Seq<char>>
    decreases n,
{
    if n <= 0 {
        seq![]
    } else if s[n - 1].role == role {
        in_role(s, role, n - 1).push(s[n - 1].ticker@)
    } else {
        in_role(s, role, n - 1)
    }
}

/// The assignments by role: one bucket for every role that occurs, with its tickers in order. A
/// role-weighted portfolio gives every bucket the same weight, and every ticker of a bucket the
/// same part of it.
pub fn role_buckets(assignments: &Vec<RoleTicker>) -> (r: Vec<RoleBucket>)
    ensures
        forall|i: int|
            0 <= i < r@.len() ==> text::texts((#[trigger] r@[i]).tickers@) == in_role(
                assignments@,
                r@[i].role,
                assignments@.len() as int,
            ) && r@[i].tickers@.len() > 0,
        forall|i: int, j: int|
            0 <= i < j < r@.len() ==> (#[trigger] r@[i]).role != (#[trigger] r@[j]).role,
        forall|k: int|
            0 <= k < assignments@.len() ==> exists|i: int|
                0 <= i < r@.len() && (#[trigger] r@[i]).role == (#[trigger] assignments@[k]).role,
{
    let mut out: Vec<RoleBucket> = Vec::new();
    let mut i: usize = 0;
    while i < assignments.len()
        invariant
            i <= assignments.len(),
            forall|a: int|
                0 <= a < out@.len() ==> text::texts((#[trigger] out@[a]).tickers@) == in_role(
                    assignments@,
                    out@[a].role,
                    i as int,
                ) && out@[a].tickers@.len() > 0,
            forall|a: int, b: int|
                0 <= a < b < out@.len() ==> (#[trigger] out@[a]).role != (#[trigger] out@[b]).role,
            forall|k: int|
                0 <= k < i ==> exists|a: int|
                    0 <= a < out@.len() && (#[trigger] out@[a]).role == (
                    #[trigger] assignments@[k]).role,
        decreases assignments.len() - i,
    {
        let ghost before = out@;
        let role: Role = assignments[i].role;
        let ticker: String = assignments[i].ticker.clone();
        let ghost name = ticker@;
        let mut a: usize = 0;
        while a < out.len() && out[a].role != role
            invariant
                a <= out.len(),
                out@ == before,
                forall|k: int| 0 <= k < a ==> (#[trigger] out@[k]).role != role,
            decreases out.len() - a,
        {
            a = a + 1;
        }
        if a < out.len() {
            let mut bucket: RoleBucket = out.remove(a);
            let ghost old_tickers = bucket.tickers@;
            bucket.tickers.push(ticker);
            proof {
                assert(text::texts(bucket.tickers@) =~= text::texts(old_tickers).push(name));
            }
            let ghost now = bucket;
            out.insert(a, bucket);
            proof {
                assert(out@ =~= before.update(a as int, now));
                assert(before[a as int].tickers@ == old_tickers);
                assert forall|p: int| 0 <= p < out@.len() implies text::texts(
                    (#[trigger] out@[p]).tickers@,
                ) == in_role(assignments@, out@[p].role, i + 1) && out@[p].tickers@.len() > 0 by {
                    assert(text::texts(before[p].tickers@) == in_role(
                        assignments@,
                        before[p].role,
                        i as int,
                    ));
                    if p < a {
                        assert(before[p].role != before[a as int].role);
                    } else if p > a {
                        assert(before[a as int].role != before[p].role);
                    }
                }
                assert forall|p: int, q: int| 0 <= p < q < out@.len() implies (
                #[trigger] out@[p]).role != (#[trigger] out@[q]).role by {
                    assert(before[p].role != before[q].role);
                }
                assert forall|k: int| 0 <= k < i + 1 implies exists|p: int|
                    0 <= p < out@.len() && (#[trigger] out@[p]).role == (
                    #[trigger] assignments@[k]).role by {
                    if k < i {
                        let p = choose|p: int|
                            0 <= p < before.len() && (#[trigger] before[p]).role
                                == assignments@[k].role;
                        assert(out@[p].role == assignments@[k].role);
                    } else {
                        assert(out@[a as int].role == assignments@[k].role);
                    }
                }
            }
        } else {
            let mut tickers: Vec<String> = Vec::new();
            tickers.push(ticker);
            let ghost one = tickers@;
            out.push(RoleBucket { role, tickers });
            proof {
                lemma_in_role_empty(assignments@, role, i as int);
                assert(text::texts(one) =~= seq![name]);
                assert(in_role(assignments@, role, i + 1) =~= seq![name]);
                assert forall|p: int| 0 <= p < out@.len() implies text::texts(
                    (#[trigger] out@[p]).tickers@,
                ) == in_role(assignments@, out@[p].role, i + 1) && out@[p].tickers@.len() > 0 by {
                    if p < before.len() {
                        assert(out@[p] == before[p]);
                        assert(before[p].role != role);
                    }
                }
                assert forall|p: int, q: int| 0 <= p < q < out@.len() implies (
                #[trigger] out@[p]).role != (#[trigger] out@[q]).role by {
                    if q < before.len() {
                        assert(before[p].role != before[q].role);
                    } else {
                        assert(before[p].role != role);
                    }
                }
                assert forall|k: int| 0 <= k < i + 1 implies exists|p: int|
                    0 <= p < out@.len() && (#[trigger] out@[p]).role == (
                    #[trigger] assignments@[k]).role by {
                    if k < i {
                        let p = choose|p: int|
                            0 <= p < before.len() && (#[trigger] before[p]).role
                                == assignments@[k].role;
                        assert(out@[p].role == assignments@[k].role);
                    } else {
                        assert(out@[before.len() as int].role == assignments@[k].role);
                    }
                }
            }
        }
        i = i + 1;
    }
    out
}

proof fn lemma_in_role_empty(s: Seq<RoleTicker>, role: Role, n: int)
    requires
        0 <= n <= s.len(),
        forall|k: int| 0 <= k < n ==> (#[trigger] s[k]).role != role,
    ensures
        in_role(s, role, n) =~= seq![],
    decreases n,
{
    if n > 0 {
        lemma_in_role_empty(s, role, n - 1);
        assert(s[n - 1].role != role);
    }
}

/// A list without repetitions gives every ticker one part of as many as there are tickers; an
/// entry more of a ticker is a part more.
pub proof fn each_entry_is_one_part(
    tickers: Vec<String>,
    longer: Vec<String>,
    r: Vec<Weight>,
    rl: Vec<Weight>,
    i: int,
    j: int,
)
    requires
        call_ensures(equal_weights, (&tickers,), r),
        call_ensures(equal_weights, (&longer,), rl),
        longer@.len() == tickers@.len() + 1,
        longer@.drop_last() == tickers@,
        0 <= i < r@.len(),
        0 <= j < rl@.len(),
        r@[i].ticker@ == rl@[j].ticker@,
    ensures
        r@[i].denominator == tickers@.len(),
        rl@[j].denominator == tickers@.len() + 1,
        rl@[j].ticker@ == longer@[longer@.len() - 1]@ ==> rl@[j].numerator == r@[i].numerator + 1,
        rl@[j].ticker@ != longer@[longer@.len() - 1]@ ==> rl@[j].numerator == r@[i].numerator,
{
    let n = tickers@.len() as int;
    lemma_occurrences_prefix(tickers@, longer@, r@[i].ticker@, n);
}

proof fn lemma_occurrences_prefix(a: Seq<String>, b: Seq<String>, t: Seq<char>, n: int)
    requires
        0 <= n <= a.len(),
        b.len() == a.len() + 1,
        b.drop_last() == a,
    ensures
        occurrences(a, t, n) == occurrences(b, t, n),
    decreases n,
{
    if n > 0 {
        lemma_occurrences_prefix(a, b, t, n - 1);
        assert(b.drop_last()[n - 1] == b[n - 1]);
    }
}

/// A bucket holds the tickers of its own role, all of them and no other.
pub proof fn buckets_hold_their_role(
    assignments: Vec<RoleTicker>,
    r: Vec<RoleBucket>,
    i: int,
    k: int,
)
    requires
        call_ensures(role_buckets, (&assignments,), r),
        0 <= i < r@.len(),
        0 <= k < assignments@.len(),
    ensures
        assignments@[k].role == r@[i].role ==> text::texts(r@[i].tickers@).contains(
            assignments@[k].ticker@,
        ),
        forall|j: int|
            0 <= j < r@[i].tickers@.len() ==> exists|q: int|
                0 <= q < assignments@.len() && (#[trigger] assignments@[q]).role == r@[i].role
                    && assignments@[q].ticker@ == (#[trigger] r@[i].tickers@[j])@,
{
    let n = assignments@.len() as int;
    lemma_in_role(assignments@, r@[i].role, n);
    let t = text::texts(r@[i].tickers@);
    assert forall|j: int| 0 <= j < r@[i].tickers@.len() implies exists|q: int|
        0 <= q < assignments@.len() && (#[trigger] assignments@[q]).role == r@[i].role
            && assignments@[q].ticker@ == (#[trigger] r@[i].tickers@[j])@ by {
        assert(t[j] == r@[i].tickers@[j]@);
    }
}

proof fn lemma_in_role(s: Seq<RoleTicker>, role: Role, n: int)
    requires
        0 <= n <= s.len(),
    ensures
        forall|k: int|
            0 <= k < n && (#[trigger] s[k]).role == role ==> in_role(s, role, n).contains(
                s[k].ticker@,
            ),
        forall|j: int|
            0 <= j < in_role(s, role, n).len() ==> exists|q: int|
                0 <= q < n && (#[trigger] s[q]).role == role && s[q].ticker@ == (
                #[trigger] in_role(s, role, n)[j]),
    decreases n,
{
    if n > 0 {
        lemma_in_role(s, role, n - 1);
        let all = in_role(s, role, n);
        let rest = in_role(s, role, n - 1);
        assert forall|k: int| 0 <= k < n && (#[trigger] s[k]).role == role implies all.contains(
            s[k].ticker@,
        ) by {
            if k < n - 1 {
                assert(rest.contains(s[k].ticker@));
                let j = choose|j: int| 0 <= j < rest.len() && rest[j] == s[k].ticker@;
                assert(all[j] == s[k].ticker@);
            } else {
                assert(all[rest.len() as int] == s[k].ticker@);
            }
        }
        assert forall|j: int| 0 <= j < all.len() implies exists|q: int|
            0 <= q < n && (#[trigger] s[q]).role == role && s[q].ticker@ == (
            #[trigger] all[j]) by {
            if j < rest.len() {
                assert(all[j] == rest[j]);
            } else {
                assert(s[n - 1].role == role);
            }
        }
    }
}

} // verus!
