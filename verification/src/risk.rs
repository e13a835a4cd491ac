//! Portfolio risk: the drawdown circuit breaker, and the grouping and ordering
//! that exposure and tail measures start from.

use vstd::prelude::*;

use crate::number::Number;
use crate::order;
use crate::text;

verus! {

/// The encoding of 0.20.
pub const TWENTY_PERCENT: u64 = 0x3FC9_9999_9999_999A;

/// The encoding of 0.10.
pub const TEN_PERCENT: u64 = 0x3FB9_9999_9999_999A;

/// A drawdown circuit breaker: once the loss from the running peak exceeds `threshold` it
/// forces the portfolio to cash, until the loss has shrunk to `resume_at`, a smaller one, so that it
/// does not let go again on noise.
#[derive(Clone, Copy, Debug, PartialEq, Eq, Structural)]
pub struct DrawdownBreaker {
    /// Drawdown that trips the breaker once it is exceeded.
    pub threshold: Number,
    /// Drawdown at or below which it lets go again.
    pub resume_at: Number,
}

impl Default for DrawdownBreaker {
    /// Trips above a drawdown of 20% and resumes at 10%.
    fn default() -> (r: DrawdownBreaker)
        ensures
            r.threshold.bits == TWENTY_PERCENT,
            r.resume_at.bits == TEN_PERCENT,
    {
        DrawdownBreaker {
            threshold: Number { bits: TWENTY_PERCENT },
            resume_at: Number { bits: TEN_PERCENT },
        }
    }
}

/// What a breaker remembers between two observations.
#[derive(Clone, Copy, Debug, PartialEq, Eq, Structural)]
pub struct BreakerState {
    /// Highest value seen.
    pub peak: Number,
    pub tripped: bool,
}

impl Default for BreakerState {
    /// Nothing seen yet, not tripped.
    fn default() -> (r: BreakerState)
        ensures
            r.peak.bits == 0,
            !r.tripped,
    {
        BreakerState { peak: Number::zero(), tripped: false }
    }
}

impl BreakerState {
    /// The peak once `value` has been seen: `value` where there is no positive peak yet or where
    /// it is higher.
    pub open spec fn peak_after(self, value: Number) -> Number {
        if self.peak.le(Number { bits: 0 }) || self.peak.lt(value) {
            value
        } else {
            self.peak
        }
    }

    /// Sees the next value. Returns the peak to measure the drawdown from; without a positive
    /// peak the drawdown is zero.
    pub fn observe(&mut self, value: Number) -> (r: Option<Number>)
        ensures
            final(self).peak == old(self).peak_after(value),
            final(self).tripped == old(self).tripped,
            r == (if (Number { bits: 0 }).lt(final(self).peak) {
                Some(final(self).peak)
            } else {
                None
            }),
    {
        if self.peak.is_le(Number::zero()) || self.peak.is_lt(value) {
            self.peak = value;
        }
        if Number::zero().is_lt(self.peak) {
            Some(self.peak)
        } else {
            None
        }
    }
}

impl DrawdownBreaker {
    /// Whether the breaker is tripped once it has seen `drawdown`.
    pub open spec fn tripped_after(self, tripped: bool, drawdown: Number) -> bool {
        if tripped {
            !drawdown.le(self.resume_at)
        } else {
            self.threshold.lt(drawdown)
        }
    }

    /// Takes the drawdown from the running peak; returns whether the portfolio is to be flat.
    pub fn step(&self, state: &mut BreakerState, drawdown: Number) -> (r: bool)
        ensures
            r == self.tripped_after(old(state).tripped, drawdown),
            final(state).tripped == r,
            final(state).peak == old(state).peak,
    {
        if !state.tripped && self.threshold.is_lt(drawdown) {
            state.tripped = true;
        } else if state.tripped && drawdown.is_le(self.resume_at) {
            state.tripped = false;
        }
        state.tripped
    }
}

/// Above the level for resuming and up to the one for tripping the breaker stays as it is, so that
/// it cannot flip back and forth on noise around one of them.
pub proof fn breaker_keeps_its_state_between_the_levels(
    breaker: DrawdownBreaker,
    tripped: bool,
    drawdown: Number,
)
    requires
        breaker.resume_at.lt(drawdown),
        drawdown.le(breaker.threshold),
    ensures
        breaker.tripped_after(tripped, drawdown) == tripped,
{
}

/// Where the level for resuming lies below the one for tripping, the breaker that has just
/// tripped does not let go on the same drawdown.
pub proof fn breaker_does_not_release_where_it_trips(breaker: DrawdownBreaker, drawdown: Number)
    requires
        breaker.resume_at.lt(breaker.threshold),
        breaker.tripped_after(false, drawdown),
    ensures
        breaker.tripped_after(true, drawdown),
{
}

/// The peak never falls once it is positive.
pub proof fn peak_never_falls(state: BreakerState, value: Number)
    requires
        (Number { bits: 0 }).lt(state.peak),
    ensures
        state.peak.le(state.peak_after(value)),
        !value.nan() ==> value.le(state.peak_after(value)),
{
}

// ── Ordering of returns ──────────────────────────────────────────────────────

/// Non-decreasing numbers.
pub open spec fn ascending(s: Seq<Number>) -> bool {
    forall|i: int, j: int|
        0 <= i < j < s.len() ==> (#[trigger] s[i]).place() <= (#[trigger] s[j]).place()
}

/// The finite numbers of `v`, in ascending order.
pub fn sorted_finite(v: &Vec<Number>) -> (r: Vec<Number>)
    ensures
        ascending(r@),
        r@.to_multiset() == v@.filter(|x: Number| x.finite()).to_multiset(),
{
    let mut out: Vec<Number> = Vec::new();
    let mut n: usize = 0;
    proof {
        assert(v@.take(0) =~= seq![]);
        reveal(Seq::filter);
        assert(out@ =~= v@.take(0).filter(|x: Number| x.finite()));
    }
    while n < v.len()
        invariant
            n <= v.len(),
            ascending(out@),
            out@.to_multiset() == v@.take(n as int).filter(|x: Number| x.finite()).to_multiset(),
        decreases v.len() - n,
    {
        let x: Number = v[n];
        let ghost shorter = v@.take(n as int);
        let ghost longer = v@.take(n + 1);
        proof {
            assert(longer.drop_last() =~= shorter);
            reveal(Seq::filter);
            broadcast use vstd::seq_lib::group_to_multiset_ensures;

        }
        if x.is_finite() {
            let mut q: usize = out.len();
            while q > 0 && out[q - 1].key() > x.key()
                invariant
                    q <= out.len(),
                    forall|i: int|
                        q <= i < out.len() ==> (#[trigger] out@[i]).place() > x.place(),
                decreases q,
            {
                q = q - 1;
            }
            let ghost before = out@;
            out.insert(q, x);
            proof {
                assert(out@ =~= before.insert(q as int, x));
                assert forall|i: int, j: int| 0 <= i < j < out.len() implies (
                #[trigger] out@[i]).place() <= (#[trigger] out@[j]).place() by {
                    let bi = if i < q { i } else { i - 1 };
                    let bj = if j < q { j } else { j - 1 };
                    if i == q {
                        assert(out@[j] == before[j - 1]);
                    } else if j == q {
                        assert(out@[i] == before[i]);
                        if i < q - 1 {
                            assert(before[i].place() <= before[q - 1].place());
                        }
                    } else {
                        assert(out@[i] == before[bi] && out@[j] == before[bj]);
                    }
                }
                before.to_multiset_ensures();
                shorter.filter(|x: Number| x.finite()).to_multiset_ensures();
                assert(before.insert(q as int, x).to_multiset() =~= before.to_multiset().insert(x))
                    by {
                    lemma_insert_multiset(before, q as int, x);
                }
                assert(longer.filter(|x: Number| x.finite()) =~= shorter.filter(
                    |x: Number| x.finite(),
                ).push(x));
            }
        }
        n = n + 1;
    }
    proof {
        assert(v@.take(v.len() as int) =~= v@);
    }
    out
}

/// Inserting an element anywhere adds it to the multiset.
proof fn lemma_insert_multiset(s: Seq<Number>, i: int, x: Number)
    requires
        0 <= i <= s.len(),
    ensures
        s.insert(i, x).to_multiset() == s.to_multiset().insert(x),
{
    broadcast use vstd::seq_lib::group_to_multiset_ensures;

    assert(s.insert(i, x) =~= s.take(i).push(x) + s.skip(i));
    assert(s =~= s.take(i) + s.skip(i));
    vstd::seq_lib::lemma_multiset_commutative(s.take(i).push(x), s.skip(i));
    vstd::seq_lib::lemma_multiset_commutative(s.take(i), s.skip(i));
    assert(s.insert(i, x).to_multiset() =~= s.to_multiset().insert(x));
}

// ── Exposure by group ────────────────────────────────────────────────────────

/// The members of one group, by position.
#[derive(Debug)]
pub struct Group {
    pub name: String,
    pub members: Vec<usize>,
}

/// The group of a ticker: the last one that the mapping gives it, or `Unknown`.
pub open spec fn group_name(mapping: Seq<(String, String)>, t: Seq<char>) -> Seq<char>
    decreases mapping.len(),
{
    if mapping.len() == 0 {
        "Unknown"@
    } else if mapping.last().0@ == t {
        mapping.last().1@
    } else {
        group_name(mapping.drop_last(), t)
    }
}

/// The group of a ticker.
pub fn group_of(mapping: &Vec<(String, String)>, ticker: &str) -> (r: String)
    ensures
        r@ == group_name(mapping@, ticker@),
{
    let mut n: usize = mapping.len();
    proof {
        assert(mapping@.take(n as int) =~= mapping@);
    }
    while n > 0
        invariant
            n <= mapping.len(),
            group_name(mapping@, ticker@) == group_name(mapping@.take(n as int), ticker@),
        decreases n,
    {
        proof {
            assert(mapping@.take(n as int).drop_last() =~= mapping@.take(n - 1));
        }
        if text::same_text(mapping[n - 1].0.as_str(), ticker) {
            return mapping[n - 1].1.clone();
        }
        n = n - 1;
    }
    "Unknown".to_owned()
}

/// Whether the groups partition the first `n` tickers: groups have distinct names, every ticker
/// is listed once in the group of its name and in no other, and no group is empty.
pub open spec fn partitions(
    groups: Seq<Group>,
    tickers: Seq<String>,
    mapping: Seq<(String, String)>,
    n: int,
) -> bool {
    &&& forall|a: int, b: int|
        0 <= a < b < groups.len() ==> (#[trigger] groups[a]).name@ != (#[trigger] groups[b]).name@
    &&& forall|g: int, m: usize|
        0 <= g < groups.len() ==> (#[trigger] groups[g].members@.contains(m) <==> m < n
            && group_name(mapping, tickers[m as int]@) == groups[g].name@)
    &&& forall|i: int|
        0 <= i < n ==> exists|g: int|
            0 <= g < groups.len() && (#[trigger] groups[g]).name@ == group_name(
                mapping,
                (#[trigger] tickers[i])@,
            )
    &&& forall|g: int|
        0 <= g < groups.len() ==> order::once_each((#[trigger] groups[g]).members@)
            && groups[g].members@.len() > 0
}

/// The tickers by group. A ticker with no group is a member of `Unknown`: none is left out.
pub fn group_exposure(tickers: &Vec<String>, mapping: &Vec<(String, String)>) -> (r: Vec<Group>)
    ensures
        partitions(r@, tickers@, mapping@, tickers.len() as int),
{
    let mut groups: Vec<Group> = Vec::new();
    let mut i: usize = 0;
    while i < tickers.len()
        invariant
            i <= tickers.len(),
            partitions(groups@, tickers@, mapping@, i as int),
        decreases tickers.len() - i,
    {
        let name: String = group_of(mapping, tickers[i].as_str());
        let ghost before = groups@;
        let mut g: usize = 0;
        while g < groups.len() && !text::same_text(groups[g].name.as_str(), name.as_str())
            invariant
                g <= groups.len(),
                groups@ == before,
                forall|k: int| 0 <= k < g ==> (#[trigger] groups@[k]).name@ != name@,
            decreases groups.len() - g,
        {
            g = g + 1;
        }
        if g < groups.len() {
            let mut group: Group = groups.remove(g);
            let ghost old_members = group.members@;
            group.members.push(i);
            proof {
                assert(before[g as int].members@ == old_members);
                assert forall|a: int, b: int| 0 <= a < b < group.members@.len() implies (
                #[trigger] group.members@[a]) < (#[trigger] group.members@[b]) by {
                    assert(old_members.contains(old_members[a]));
                }
                assert forall|m: usize|
                    #[trigger] group.members@.contains(m) <==> old_members.contains(m) || m == i by {
                    if old_members.contains(m) {
                        let k = choose|k: int| 0 <= k < old_members.len() && old_members[k] == m;
                        assert(group.members@[k] == m);
                    }
                    if m == i {
                        assert(group.members@[old_members.len() as int] == m);
                    }
                }
            }
            let ghost new_members = group.members@;
            groups.insert(g, group);
            proof {
                assert(groups@ =~= before.update(g as int, groups@[g as int]));
                assert forall|a: int, b: int| 0 <= a < b < groups@.len() implies (
                #[trigger] groups@[a]).name@ != (#[trigger] groups@[b]).name@ by {
                    assert(before[a].name@ != before[b].name@);
                }
                assert forall|q: int, m: usize| 0 <= q < groups@.len() implies (
                #[trigger] groups@[q].members@.contains(m) <==> m < i + 1 && group_name(
                    mapping@,
                    tickers@[m as int]@,
                ) == groups@[q].name@) by {
                    assert(before[q].members@.contains(m) <==> m < i && group_name(
                        mapping@,
                        tickers@[m as int]@,
                    ) == before[q].name@);
                    if q != g {
                        if q < g {
                            assert(before[q].name@ != before[g as int].name@);
                        } else {
                            assert(before[g as int].name@ != before[q].name@);
                        }
                    }
                }
                assert forall|k: int| 0 <= k < i + 1 implies exists|q: int|
                    0 <= q < groups@.len() && (#[trigger] groups@[q]).name@ == group_name(
                        mapping@,
                        (#[trigger] tickers@[k])@,
                    ) by {
                    if k < i {
                        let q = choose|q: int|
                            0 <= q < before.len() && (#[trigger] before[q]).name@ == group_name(
                                mapping@,
                                tickers@[k]@,
                            );
                        assert(groups@[q].name@ == before[q].name@);
                    } else {
                        assert(groups@[g as int].name@ == name@);
                    }
                }
            }
        } else {
            let mut members: Vec<usize> = Vec::new();
            members.push(i);
            let ghost one = members@;
            groups.push(Group { name, members });
            proof {
                assert(one =~= seq![i]);
                assert forall|m: usize| #[trigger] one.contains(m) <==> m == i by {
                    assert(one[0] == i);
                }
                assert forall|a: int, b: int| 0 <= a < b < groups@.len() implies (
                #[trigger] groups@[a]).name@ != (#[trigger] groups@[b]).name@ by {
                    if b < before.len() {
                        assert(before[a].name@ != before[b].name@);
                    } else {
                        assert(before[a].name@ != name@);
                    }
                }
                assert forall|q: int, m: usize| 0 <= q < groups@.len() implies (
                #[trigger] groups@[q].members@.contains(m) <==> m < i + 1 && group_name(
                    mapping@,
                    tickers@[m as int]@,
                ) == groups@[q].name@) by {
                    if q < before.len() {
                        assert(before[q].members@.contains(m) <==> m < i && group_name(
                            mapping@,
                            tickers@[m as int]@,
                        ) == before[q].name@);
                        assert(before[q].name@ != name@);
                    } else {
                        if m < i && group_name(mapping@, tickers@[m as int]@) == name@ {
                            let p = choose|p: int|
                                0 <= p < before.len() && (#[trigger] before[p]).name@ == group_name(
                                    mapping@,
                                    tickers@[m as int]@,
                                );
                            assert(before[p].name@ != name@);
                        }
                    }
                }
                assert forall|k: int| 0 <= k < i + 1 implies exists|q: int|
                    0 <= q < groups@.len() && (#[trigger] groups@[q]).name@ == group_name(
                        mapping@,
                        (#[trigger] tickers@[k])@,
                    ) by {
                    if k < i {
                        let q = choose|q: int|
                            0 <= q < before.len() && (#[trigger] before[q]).name@ == group_name(
                                mapping@,
                                tickers@[k]@,
                            );
                        assert(groups@[q].name@ == before[q].name@);
                    } else {
                        assert(groups@[before.len() as int].name@ == name@);
                    }
                }
            }
        }
        i = i + 1;
    }
    groups
}

// ── Limits on positions ──────────────────────────────────────────────────────

/// A trillionth, as an encoded number: weights below it do not count.
pub const TRILLIONTH: u64 = 0x3D71_9799_812D_EA11;

/// Whether a limit leaves any position open: there are positions, and the limit is above zero.
pub fn limit_applies(positions: usize, max_weight: Number) -> (r: bool)
    ensures
        r == (positions > 0 && !max_weight.le(Number { bits: 0 })),
{
    positions > 0 && !max_weight.is_le(Number::zero())
}

/// Whether a weight is too small to be moved.
pub fn is_negligible(weight: Number) -> (r: bool)
    ensures
        r == weight.lt(Number { bits: TRILLIONTH }),
{
    weight.is_lt(Number { bits: TRILLIONTH })
}

/// A weight, cut down to the limit.
pub open spec fn capped(weight: Number, max_weight: Number) -> Number {
    if max_weight.lt(weight) {
        max_weight
    } else {
        weight
    }
}

/// Cuts the weights above the limit down to it.
pub fn cap_weights(weights: &mut Vec<Number>, max_weight: Number)
    ensures
        final(weights)@.len() == old(weights)@.len(),
        forall|i: int|
            0 <= i < final(weights)@.len() ==> (#[trigger] final(weights)@[i]) == capped(
                old(weights)@[i],
                max_weight,
            ),
{
    let ghost before = weights@;
    let mut i: usize = 0;
    while i < weights.len()
        invariant
            i <= weights@.len() == before.len(),
            forall|k: int|
                0 <= k < i ==> (#[trigger] weights@[k]) == capped(before[k], max_weight),
            forall|k: int| i <= k < weights@.len() ==> (#[trigger] weights@[k]) == before[k],
        decreases weights@.len() - i,
    {
        if max_weight.is_lt(weights[i]) {
            weights.set(i, max_weight);
        }
        i = i + 1;
    }
}

/// No weight is above the limit once they have been cut.
pub proof fn capped_weights_respect_the_limit(weight: Number, max_weight: Number)
    requires
        !weight.nan(),
        !max_weight.nan(),
    ensures
        capped(weight, max_weight).le(max_weight),
{
}

/// Positions of the weights below a level, in order: those that take up what was cut off.
pub open spec fn places_below(s: Seq<Number>, level: Number, n: int) -> Seq<usize>
    decreases n,
{
    if n <= 0 {
        seq![]
    } else if s[n - 1].lt(level) {
        places_below(s, level, n - 1).push((n - 1) as usize)
    } else {
        places_below(s, level, n - 1)
    }
}

/// Positions of the weights below a level.
pub fn weights_below(weights: &Vec<Number>, level: Number) -> (r: Vec<usize>)
    ensures
        r@ == places_below(weights@, level, weights@.len() as int),
{
    let mut out: Vec<usize> = Vec::new();
    let mut i: usize = 0;
    while i < weights.len()
        invariant
            i <= weights@.len(),
            out@ == places_below(weights@, level, i as int),
        decreases weights@.len() - i,
    {
        if weights[i].is_lt(level) {
            out.push(i);
        }
        i = i + 1;
    }
    out
}

/// Whether a volatility can be inverted: it is finite and not negligible.
pub fn is_invertible(volatility: Number) -> (r: bool)
    ensures
        r == (volatility.finite() && (Number { bits: TRILLIONTH }).lt(volatility)),
{
    volatility.is_finite() && (Number { bits: TRILLIONTH }).is_lt(volatility)
}

// ── How the parts work together ──────────────────────────────────────────────

/// The breaker trips on a drawdown above its threshold, not at it, and lets go at its lower level
/// or below, not above: whatever it saw before, what it says of a drawdown is what the book must
/// do. Its memory of the peak is left alone.
pub proof fn the_breaker_trips_above_and_lets_go_at_the_lower_level(
    breaker: DrawdownBreaker,
    state: &mut BreakerState,
    drawdown: Number,
    r: bool,
)
    requires
        call_ensures(DrawdownBreaker::step, (&breaker, state, drawdown), r),
        !drawdown.nan(),
        !breaker.threshold.nan(),
        !breaker.resume_at.nan(),
    ensures
        final(state).tripped == r,
        final(state).peak == old(state).peak,
        !old(state).tripped && breaker.threshold.place() < drawdown.place() ==> r,
        !old(state).tripped && drawdown.place() <= breaker.threshold.place() ==> !r,
        old(state).tripped && drawdown.place() <= breaker.resume_at.place() ==> !r,
        old(state).tripped && breaker.resume_at.place() < drawdown.place() ==> r,
{
}

/// The peak is the highest value seen: values seen one after the other leave the greater of the two
/// as the peak, and the drawdown is measured from it.
pub proof fn the_peak_is_the_highest_value_seen(
    first: &mut BreakerState,
    second: &mut BreakerState,
    a: Number,
    b: Number,
    ra: Option<Number>,
    rb: Option<Number>,
)
    requires
        call_ensures(BreakerState::observe, (first, a), ra),
        call_ensures(BreakerState::observe, (second, b), rb),
        *old(second) == *final(first),
        old(first).peak.bits == 0,
        0 < a.bits <= 0x7FF0_0000_0000_0000,
        0 < b.bits <= 0x7FF0_0000_0000_0000,
    ensures
        ra == Some(a),
        a.bits < b.bits ==> rb == Some(b),
        b.bits <= a.bits ==> rb == Some(a),
        final(second).tripped == old(first).tripped,
{
}

/// A limit that leaves a position open is above zero, and is asked of something.
pub proof fn limits_apply_to_positions(n: usize, limit: Number, r: bool)
    requires
        call_ensures(limit_applies, (n, limit), r),
    ensures
        0 < limit.bits <= 0x7FF0_0000_0000_0000 ==> (r <==> n > 0),
        limit.bits == 0 || limit.bits >= 0x8000_0000_0000_0000 && !limit.nan() ==> !r,
{
}

/// Cutting weights changes those above the limit alone, and leaves none above it.
pub proof fn cutting_leaves_the_rest(weights: &mut Vec<Number>, limit: Number, i: int)
    requires
        call_ensures(cap_weights, (weights, limit), ()),
        0 <= i < old(weights)@.len(),
        !limit.nan(),
        !old(weights)@[i].nan(),
    ensures
        final(weights)@.len() == old(weights)@.len(),
        old(weights)@[i].place() <= limit.place() ==> final(weights)@[i] == old(weights)@[i],
        old(weights)@[i].place() > limit.place() ==> final(weights)@[i] == limit,
{
}

/// What was cut off goes to the weights strictly below the level, each once and in order.
pub proof fn what_was_cut_goes_below_the_level(weights: Vec<Number>, level: Number, r: Vec<usize>)
    requires
        call_ensures(weights_below, (&weights, level), r),
        weights@.len() <= usize::MAX,
    ensures
        forall|k: int|
            0 <= k < r@.len() ==> (#[trigger] r@[k]) < weights@.len() && weights@[r@[k] as int].lt(
                level,
            ),
        forall|i: int|
            0 <= i < weights@.len() && (#[trigger] weights@[i]).lt(level) ==> r@.contains(
                i as usize,
            ),
        forall|j: int, k: int| 0 <= j < k < r@.len() ==> (#[trigger] r@[j]) < (#[trigger] r@[k]),
{
    lemma_places_below(weights@, level, weights@.len() as int);
}

proof fn lemma_places_below(s: Seq<Number>, level: Number, n: int)
    requires
        0 <= n <= s.len() <= usize::MAX,
    ensures
        forall|k: int|
            0 <= k < places_below(s, level, n).len() ==> (#[trigger] places_below(s, level, n)[k])
                < n && s[places_below(s, level, n)[k] as int].lt(level),
        forall|i: int|
            0 <= i < n && (#[trigger] s[i]).lt(level) ==> places_below(s, level, n).contains(
                i as usize,
            ),
        forall|j: int, k: int|
            0 <= j < k < places_below(s, level, n).len() ==> (#[trigger] places_below(
                s,
                level,
                n,
            )[j]) < (#[trigger] places_below(s, level, n)[k]),
    decreases n,
{
    if n > 0 {
        lemma_places_below(s, level, n - 1);
        let all = places_below(s, level, n);
        let rest = places_below(s, level, n - 1);
        assert forall|i: int| 0 <= i < n && (#[trigger] s[i]).lt(level) implies all.contains(
            i as usize,
        ) by {
            if i < n - 1 {
                assert(rest.contains(i as usize));
                let k = choose|k: int| 0 <= k < rest.len() && rest[k] == i as usize;
                assert(all[k] == i as usize);
            } else {
                assert(all[rest.len() as int] == i as usize);
            }
        }
    }
}

/// A ticker belongs to the group that it was last given, and to `Unknown` where it was given none.
pub proof fn the_last_group_given_counts(
    mapping: Vec<(String, String)>,
    ticker: &str,
    r: String,
    k: int,
)
    requires
        call_ensures(group_of, (&mapping, ticker), r),
        -1 <= k < mapping@.len(),
        k >= 0 ==> mapping@[k].0@ == ticker@,
        forall|j: int| k < j < mapping@.len() ==> (#[trigger] mapping@[j]).0@ != ticker@,
    ensures
        k >= 0 ==> r@ == mapping@[k].1@,
        k < 0 ==> r@ == "Unknown"@,
{
    lemma_last_group(mapping@, ticker@, k);
}

proof fn lemma_last_group(mapping: Seq<(String, String)>, t: Seq<char>, k: int)
    requires
        -1 <= k < mapping.len(),
        k >= 0 ==> mapping[k].0@ == t,
        forall|j: int| k < j < mapping.len() ==> (#[trigger] mapping[j]).0@ != t,
    ensures
        group_name(mapping, t) == (if k >= 0 {
            mapping[k].1@
        } else {
            "Unknown"@
        }),
    decreases mapping.len(),
{
    if mapping.len() > 0 && k < mapping.len() - 1 {
        assert(mapping[mapping.len() - 1].0@ != t);
        let init = mapping.drop_last();
        assert forall|j: int| k < j < init.len() implies (#[trigger] init[j]).0@ != t by {
            assert(mapping[j].0@ != t);
        }
        lemma_last_group(init, t, k);
    }
}

/// Exposure by group leaves no ticker out and counts none twice.
pub proof fn every_ticker_is_in_one_group(
    tickers: Vec<String>,
    mapping: Vec<(String, String)>,
    r: Vec<Group>,
    i: usize,
)
    requires
        call_ensures(group_exposure, (&tickers, &mapping), r),
        i < tickers@.len(),
    ensures
        exists|g: int|
            0 <= g < r@.len() && (#[trigger] r@[g]).name@ == group_name(
                mapping@,
                tickers@[i as int]@,
            ) && r@[g].members@.contains(i),
        forall|g: int, h: int|
            0 <= g < h < r@.len() ==> !((#[trigger] r@[g]).members@.contains(i) && (
            #[trigger] r@[h]).members@.contains(i)),
{
    let t = tickers@[i as int];
    let g = choose|g: int|
        0 <= g < r@.len() && (#[trigger] r@[g]).name@ == group_name(mapping@, t@);
    assert(r@[g].members@.contains(i));
}

/// Sorting the finite numbers loses none of them, adds none and puts them in increasing order.
pub proof fn finite_numbers_are_sorted(v: Vec<Number>, r: Vec<Number>, i: int, j: int)
    requires
        call_ensures(sorted_finite, (&v,), r),
    ensures
        r@.to_multiset() == v@.filter(
            |x: Number| x.bits % 0x8000_0000_0000_0000 < 0x7FF0_0000_0000_0000,
        ).to_multiset(),
        0 <= i < j < r@.len() ==> r@[i].place() <= r@[j].place(),
{
    let a = |x: Number| x.finite();
    let b = |x: Number| x.bits % 0x8000_0000_0000_0000 < 0x7FF0_0000_0000_0000;
    assert(a =~= b);
}

/// A weight below a trillionth counts for nothing, and a volatility must be greater than that to be
/// divided by.
pub proof fn tiny_weights_and_volatilities_do_not_count(x: Number, small: bool, usable: bool)
    requires
        call_ensures(is_negligible, (x,), small),
        call_ensures(is_invertible, (x,), usable),
    ensures
        x.bits < 0x3D71_9799_812D_EA11 ==> small && !usable,
        x.bits == 0x3D71_9799_812D_EA11 ==> !small && !usable,
        0x3D71_9799_812D_EA11 < x.bits < 0x7FF0_0000_0000_0000 ==> !small && usable,
        x.bits >= 0x7FF0_0000_0000_0000 ==> !usable,
{
}

} // verus!
