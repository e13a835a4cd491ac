//! What changed between two entries of the log: names newly picked or dropped,
//! a change of regime, and which names moved most in score.

use vstd::prelude::*;

use crate::calendar::Date;
use crate::forward_test::{ForwardEntry, LoggedPick, RankedName};
use crate::number::Number;
use crate::order;
use crate::text;

verus! {

/// A name ranked in both entries. The change is `curr_composite - prev_composite`.
#[derive(Debug)]
pub struct CompositeChange {
    pub ticker: String,
    pub prev_composite: Number,
    pub curr_composite: Number,
}

/// What a change says.
pub open spec fn change_view(c: CompositeChange) -> (Seq<char>, Number, Number) {
    (c.ticker@, c.prev_composite, c.curr_composite)
}

/// What changed between two entries.
#[derive(Debug)]
pub struct EntryDiff {
    pub prev_date: Date,
    pub curr_date: Date,
    /// Names that are picked now and were not, in increasing order.
    pub picks_added: Vec<String>,
    /// Names that were picked and are not, in increasing order.
    pub picks_removed: Vec<String>,
    /// The regime before and now, where it changed.
    pub regime_changed: Option<(bool, bool)>,
    /// Names ranked in both entries, in the order of the later one.
    pub movers: Vec<CompositeChange>,
    pub prev_universe_size: usize,
    pub curr_universe_size: usize,
}

/// Whether a name is picked.
pub open spec fn picked(s: Seq<LoggedPick>, t: Seq<char>) -> bool {
    exists|k: int| 0 <= k < s.len() && (#[trigger] s[k]).ticker@ == t
}

/// The score of a name in a ranking: that of its last place, should it have several.
pub open spec fn score_of(s: Seq<RankedName>, t: Seq<char>) -> Option<Number>
    decreases s.len(),
{
    if s.len() == 0 {
        None
    } else if s.last().ticker@ == t {
        Some(s.last().composite)
    } else {
        score_of(s.drop_last(), t)
    }
}

/// The changes of the names ranked in both, in the order of the later ranking.
pub open spec fn changes(prev: Seq<RankedName>, curr: Seq<RankedName>) -> Seq<
    (Seq<char>, Number, Number),
>
    decreases curr.len(),
{
    if curr.len() == 0 {
        seq![]
    } else {
        let rest = changes(prev, curr.drop_last());
        match score_of(prev, curr.last().ticker@) {
            Some(p) => rest.push((curr.last().ticker@, p, curr.last().composite)),
            None => rest,
        }
    }
}

/// Whether `d` is the difference between an earlier and a later entry.
pub open spec fn is_diff(prev: ForwardEntry, curr: ForwardEntry, d: EntryDiff) -> bool {
    &&& d.prev_date == prev.as_of
    &&& d.curr_date == curr.as_of
    &&& order::strictly_sorted(text::texts(d.picks_added@))
    &&& forall|t: Seq<char>| #[trigger]
        text::texts(d.picks_added@).contains(t) <==> picked(curr.picks@, t) && !picked(
            prev.picks@,
            t,
        )
    &&& order::strictly_sorted(text::texts(d.picks_removed@))
    &&& forall|t: Seq<char>| #[trigger]
        text::texts(d.picks_removed@).contains(t) <==> picked(prev.picks@, t) && !picked(
            curr.picks@,
            t,
        )
    &&& d.regime_changed == (if prev.macro_on != curr.macro_on {
        Some((prev.macro_on, curr.macro_on))
    } else {
        None
    })
    &&& d.movers@.map_values(|c: CompositeChange| change_view(c)) == changes(
        prev.ranking@,
        curr.ranking@,
    )
    &&& d.prev_universe_size == prev.universe_size
    &&& d.curr_universe_size == curr.universe_size
}

/// Whether a name is picked.
fn is_picked(s: &Vec<LoggedPick>, t: &str) -> (r: bool)
    ensures
        r == picked(s@, t@),
{
    let mut i: usize = 0;
    while i < s.len()
        invariant
            i <= s@.len(),
            forall|k: int| 0 <= k < i ==> (#[trigger] s@[k]).ticker@ != t@,
        decreases s@.len() - i,
    {
        if text::same_text(s[i].ticker.as_str(), t) {
            return true;
        }
        i = i + 1;
    }
    false
}

/// The names picked in `a` and not in `b`, in increasing order.
fn picked_only(a: &Vec<LoggedPick>, b: &Vec<LoggedPick>) -> (r: Vec<String>)
    ensures
        order::strictly_sorted(text::texts(r@)),
        forall|t: Seq<char>| #[trigger]
            text::texts(r@).contains(t) <==> picked(a@, t) && !picked(b@, t),
{
    let mut out: Vec<String> = Vec::new();
    let mut i: usize = 0;
    proof {
        assert(text::texts(out@) =~= Seq::<Seq<char>>::empty());
    }
    while i < a.len()
        invariant
            i <= a@.len(),
            order::strictly_sorted(text::texts(out@)),
            forall|t: Seq<char>| #[trigger]
                text::texts(out@).contains(t) <==> !picked(b@, t) && exists|k: int|
                    0 <= k < i && (#[trigger] a@[k]).ticker@ == t,
        decreases a@.len() - i,
    {
        let ghost before = text::texts(out@);
        if !is_picked(b, a[i].ticker.as_str()) {
            order::insert_sorted(&mut out, a[i].ticker.as_str());
        }
        proof {
            assert forall|t: Seq<char>| #[trigger]
                text::texts(out@).contains(t) <==> !picked(b@, t) && exists|k: int|
                    0 <= k < i + 1 && (#[trigger] a@[k]).ticker@ == t by {
                assert(before.contains(t) <==> !picked(b@, t) && exists|k: int|
                    0 <= k < i && (#[trigger] a@[k]).ticker@ == t);
                if t == a@[i as int].ticker@ && !picked(b@, t) {
                    assert(text::texts(out@).contains(t));
                }
            }
        }
        i = i + 1;
    }
    proof {
        assert forall|t: Seq<char>| #[trigger]
            text::texts(out@).contains(t) <==> picked(a@, t) && !picked(b@, t) by {
            if picked(a@, t) && !picked(b@, t) {
                let k = choose|k: int| 0 <= k < a@.len() && (#[trigger] a@[k]).ticker@ == t;
                assert(a@[k].ticker@ == t);
            }
        }
    }
    out
}

/// The score of a name in a ranking.
fn find_score(s: &Vec<RankedName>, t: &str) -> (r: Option<Number>)
    ensures
        r == score_of(s@, t@),
{
    let mut n: usize = s.len();
    proof {
        assert(s@.take(n as int) =~= s@);
    }
    while n > 0
        invariant
            n <= s@.len(),
            score_of(s@, t@) == score_of(s@.take(n as int), t@),
        decreases n,
    {
        proof {
            assert(s@.take(n as int).last() == s@[n - 1]);
            assert(s@.take(n as int).drop_last() =~= s@.take(n - 1));
        }
        if text::same_text(s[n - 1].ticker.as_str(), t) {
            return Some(s[n - 1].composite);
        }
        n = n - 1;
    }
    None
}

/// What changed between two entries; the one with the earlier date counts as the earlier, and the
/// first of two with the same date.
pub fn diff(a: &ForwardEntry, b: &ForwardEntry) -> (r: EntryDiff)
    ensures
        if a.as_of.days <= b.as_of.days {
            is_diff(*a, *b, r)
        } else {
            is_diff(*b, *a, r)
        },
{
    let in_order: bool = a.as_of.days <= b.as_of.days;
    let prev: &ForwardEntry = if in_order {
        a
    } else {
        b
    };
    let curr: &ForwardEntry = if in_order {
        b
    } else {
        a
    };
    let ghost see = |c: CompositeChange| change_view(c);
    let mut movers: Vec<CompositeChange> = Vec::new();
    let mut i: usize = 0;
    proof {
        assert(curr.ranking@.take(0) =~= seq![]);
        assert(movers@.map_values(see) =~= changes(prev.ranking@, curr.ranking@.take(0)));
    }
    while i < curr.ranking.len()
        invariant
            i <= curr.ranking@.len(),
            see == (|c: CompositeChange| change_view(c)),
            movers@.map_values(see) == changes(prev.ranking@, curr.ranking@.take(i as int)),
        decreases curr.ranking@.len() - i,
    {
        let ghost before = movers@;
        proof {
            assert(curr.ranking@.take(i + 1).drop_last() =~= curr.ranking@.take(i as int));
            assert(curr.ranking@.take(i + 1).last() == curr.ranking@[i as int]);
        }
        match find_score(&prev.ranking, curr.ranking[i].ticker.as_str()) {
            Some(p) => {
                let c: CompositeChange = CompositeChange {
                    ticker: curr.ranking[i].ticker.clone(),
                    prev_composite: p,
                    curr_composite: curr.ranking[i].composite,
                };
                movers.push(c);
                proof {
                    assert(movers@.map_values(see) =~= before.map_values(see).push(
                        change_view(movers@.last()),
                    ));
                }
            },
            None => {},
        }
        i = i + 1;
    }
    proof {
        assert(curr.ranking@.take(curr.ranking@.len() as int) =~= curr.ranking@);
    }
    EntryDiff {
        prev_date: prev.as_of,
        curr_date: curr.as_of,
        picks_added: picked_only(&curr.picks, &prev.picks),
        picks_removed: picked_only(&prev.picks, &curr.picks),
        regime_changed: if prev.macro_on != curr.macro_on {
            Some((prev.macro_on, curr.macro_on))
        } else {
            None
        },
        movers,
        prev_universe_size: prev.universe_size,
        curr_universe_size: curr.universe_size,
    }
}

/// What changed between the last two entries of a log, where it has two.
pub fn diff_latest(log: &Vec<ForwardEntry>) -> (r: Option<EntryDiff>)
    ensures
        match r {
            Some(d) => log@.len() >= 2 && ({
                let a = log@[log@.len() - 2];
                let b = log@[log@.len() - 1];
                if a.as_of.days <= b.as_of.days {
                    is_diff(a, b, d)
                } else {
                    is_diff(b, a, d)
                }
            }),
            None => log@.len() < 2,
        },
{
    let n: usize = log.len();
    if n < 2 {
        return None;
    }
    Some(diff(&log[n - 2], &log[n - 1]))
}

/// The sizes of changes.
pub open spec fn sizes(deltas: Seq<Number>) -> Seq<Number> {
    deltas.map_values(
        |d: Number| Number { bits: d.magnitude() as u64 },
    )
}

/// The order in which to list movers, given the change of each: by decreasing size, equal sizes
/// keeping their order.
pub fn biggest_first(deltas: &Vec<Number>) -> (p: Vec<usize>)
    ensures
        order::is_descending(sizes(deltas@), p@),
{
    let mut v: Vec<Number> = Vec::new();
    let mut i: usize = 0;
    while i < deltas.len()
        invariant
            i <= deltas@.len(),
            v@.len() == i,
            forall|k: int| 0 <= k < i ==> (#[trigger] v@[k]).bits == deltas@[k].magnitude(),
        decreases deltas@.len() - i,
    {
        v.push(deltas[i].abs());
        i = i + 1;
    }
    proof {
        assert(v@ =~= sizes(deltas@));
    }
    order::descending_order(&v)
}

/// For entries of different dates it does not matter in which order they are given.
pub proof fn order_does_not_matter(a: ForwardEntry, b: ForwardEntry, d: EntryDiff)
    requires
        a.as_of.days != b.as_of.days,
    ensures
        (if a.as_of.days <= b.as_of.days {
            is_diff(a, b, d)
        } else {
            is_diff(b, a, d)
        }) == (if b.as_of.days <= a.as_of.days {
            is_diff(b, a, d)
        } else {
            is_diff(a, b, d)
        }),
{
}

/// A name is never both added and removed.
pub proof fn added_names_are_not_removed(
    prev: ForwardEntry,
    curr: ForwardEntry,
    d: EntryDiff,
    t: Seq<char>,
)
    requires
        is_diff(prev, curr, d),
        text::texts(d.picks_added@).contains(t),
    ensures
        !text::texts(d.picks_removed@).contains(t),
{
}

/// Among the names of a list of picks.
pub open spec fn names_pick(s: Seq<LoggedPick>, t: Seq<char>) -> bool {
    s.map_values(|p: LoggedPick| p.ticker@).contains(t)
}

proof fn lemma_names_pick(s: Seq<LoggedPick>, t: Seq<char>)
    ensures
        names_pick(s, t) <==> picked(s, t),
{
    let names = s.map_values(|p: LoggedPick| p.ticker@);
    if names_pick(s, t) {
        let k = choose|k: int| 0 <= k < names.len() && names[k] == t;
        assert(s[k].ticker@ == t);
    }
    if picked(s, t) {
        let k = choose|k: int| 0 <= k < s.len() && (#[trigger] s[k]).ticker@ == t;
        assert(names[k] == t);
    }
}

/// A name was added exactly where the later entry picks it and the earlier does not, and removed
/// exactly where it is the other way round; the regime before and after is given where it changed.
pub proof fn changes_run_from_the_earlier_entry_to_the_later(
    a: ForwardEntry,
    b: ForwardEntry,
    r: EntryDiff,
    t: Seq<char>,
)
    requires
        call_ensures(diff, (&a, &b), r),
        a.as_of.days < b.as_of.days,
    ensures
        r.prev_date == a.as_of && r.curr_date == b.as_of,
        text::texts(r.picks_added@).contains(t) <==> names_pick(b.picks@, t) && !names_pick(
            a.picks@,
            t,
        ),
        text::texts(r.picks_removed@).contains(t) <==> names_pick(a.picks@, t) && !names_pick(
            b.picks@,
            t,
        ),
        a.macro_on == b.macro_on ==> r.regime_changed is None,
        a.macro_on != b.macro_on ==> r.regime_changed == Some((a.macro_on, b.macro_on)),
        r.prev_universe_size == a.universe_size && r.curr_universe_size == b.universe_size,
{
    lemma_names_pick(a.picks@, t);
    lemma_names_pick(b.picks@, t);
}

/// Two entries give the same changes in whichever order they are handed over.
pub proof fn the_dates_decide_over_the_direction(
    a: ForwardEntry,
    b: ForwardEntry,
    r: EntryDiff,
    s: EntryDiff,
    t: Seq<char>,
)
    requires
        call_ensures(diff, (&a, &b), r),
        call_ensures(diff, (&b, &a), s),
        a.as_of.days != b.as_of.days,
    ensures
        r.prev_date == s.prev_date && r.curr_date == s.curr_date,
        r.prev_date.days < r.curr_date.days,
        text::texts(r.picks_added@) == text::texts(s.picks_added@),
        text::texts(r.picks_removed@) == text::texts(s.picks_removed@),
        r.regime_changed == s.regime_changed,
{
    let (x, y) = if a.as_of.days < b.as_of.days {
        (a, b)
    } else {
        (b, a)
    };
    assert(is_diff(x, y, r));
    assert(is_diff(x, y, s));
    order::lemma_strictly_sorted_unique(text::texts(r.picks_added@), text::texts(s.picks_added@));
    order::lemma_strictly_sorted_unique(
        text::texts(r.picks_removed@),
        text::texts(s.picks_removed@),
    );
}

proof fn lemma_score_of(s: Seq<RankedName>, t: Seq<char>, i: int)
    requires
        0 <= i < s.len(),
        s[i].ticker@ == t,
        forall|j: int| 0 <= j < s.len() && j != i ==> (#[trigger] s[j]).ticker@ != t,
    ensures
        score_of(s, t) == Some(s[i].composite),
    decreases s.len(),
{
    if i < s.len() - 1 {
        assert(s[s.len() - 1].ticker@ != t);
        lemma_score_of(s.drop_last(), t, i);
    }
}

proof fn lemma_score_is_listed(s: Seq<RankedName>, t: Seq<char>) -> (i: int)
    requires
        score_of(s, t) is Some,
    ensures
        0 <= i < s.len(),
        s[i].ticker@ == t,
        score_of(s, t) == Some(s[i].composite),
    decreases s.len(),
{
    if s.last().ticker@ == t {
        s.len() - 1
    } else {
        lemma_score_is_listed(s.drop_last(), t)
    }
}

proof fn lemma_changes(prev: Seq<RankedName>, curr: Seq<RankedName>) -> (idx: Seq<int>)
    ensures
        idx.len() == changes(prev, curr).len(),
        forall|k: int|
            0 <= k < idx.len() ==> 0 <= (#[trigger] idx[k]) < curr.len() && changes(prev, curr)[k].0
                == curr[idx[k]].ticker@ && changes(prev, curr)[k].2 == curr[idx[k]].composite
                && score_of(prev, curr[idx[k]].ticker@) == Some(changes(prev, curr)[k].1),
        forall|j: int, k: int| 0 <= j < k < idx.len() ==> (#[trigger] idx[j]) < (#[trigger] idx[k]),
        forall|i: int|
            0 <= i < curr.len() && score_of(prev, (#[trigger] curr[i]).ticker@) is Some ==> exists|
                k: int,
            |
                0 <= k < idx.len() && #[trigger] idx[k] == i,
    decreases curr.len(),
{
    if curr.len() == 0 {
        seq![]
    } else {
        let init = curr.drop_last();
        let before = lemma_changes(prev, init);
        assert forall|k: int| 0 <= k < before.len() implies curr[#[trigger] before[k]]
            == init[before[k]] by {}
        if score_of(prev, curr.last().ticker@) is Some {
            let idx = before.push(curr.len() - 1);
            assert forall|i: int|
                0 <= i < curr.len() && score_of(
                    prev,
                    (#[trigger] curr[i]).ticker@,
                ) is Some implies exists|k: int| 0 <= k < idx.len() && #[trigger] idx[k] == i by {
                if i == curr.len() - 1 {
                    assert(idx[before.len() as int] == i);
                } else {
                    assert(init[i] == curr[i]);
                    let k = choose|k: int| 0 <= k < before.len() && #[trigger] before[k] == i;
                    assert(idx[k] == i);
                }
            }
            idx
        } else {
            assert forall|i: int|
                0 <= i < curr.len() && score_of(
                    prev,
                    (#[trigger] curr[i]).ticker@,
                ) is Some implies exists|k: int|
                0 <= k < before.len() && #[trigger] before[k] == i by {
                assert(init[i] == curr[i]);
            }
            before
        }
    }
}

/// Each mover is ranked in both entries and carries its earlier score as the earlier and its later
/// score as the later one.
pub proof fn movers_carry_both_scores(a: ForwardEntry, b: ForwardEntry, r: EntryDiff, k: int) -> (at: (
    int,
    int,
))
    requires
        call_ensures(diff, (&a, &b), r),
        a.as_of.days < b.as_of.days,
        0 <= k < r.movers@.len(),
    ensures
        0 <= at.0 < a.ranking@.len(),
        0 <= at.1 < b.ranking@.len(),
        r.movers@[k].ticker@ == a.ranking@[at.0].ticker@,
        r.movers@[k].ticker@ == b.ranking@[at.1].ticker@,
        r.movers@[k].prev_composite == a.ranking@[at.0].composite,
        r.movers@[k].curr_composite == b.ranking@[at.1].composite,
{
    let seen = r.movers@.map_values(|c: CompositeChange| change_view(c));
    let idx = lemma_changes(a.ranking@, b.ranking@);
    assert(seen == changes(a.ranking@, b.ranking@));
    assert(seen[k] == change_view(r.movers@[k]));
    let j = idx[k];
    let i = lemma_score_is_listed(a.ranking@, b.ranking@[j].ticker@);
    (i, j)
}

/// A name that both entries rank, each once, is among the movers.
pub proof fn no_mover_is_missed(
    a: ForwardEntry,
    b: ForwardEntry,
    r: EntryDiff,
    i: int,
    j: int,
)
    requires
        call_ensures(diff, (&a, &b), r),
        a.as_of.days < b.as_of.days,
        0 <= i < a.ranking@.len(),
        0 <= j < b.ranking@.len(),
        a.ranking@[i].ticker@ == b.ranking@[j].ticker@,
        forall|k: int|
            0 <= k < a.ranking@.len() && k != i ==> (#[trigger] a.ranking@[k]).ticker@
                != a.ranking@[i].ticker@,
    ensures
        exists|k: int|
            0 <= k < r.movers@.len() && (#[trigger] r.movers@[k]).ticker@ == b.ranking@[j].ticker@
                && r.movers@[k].prev_composite == a.ranking@[i].composite
                && r.movers@[k].curr_composite == b.ranking@[j].composite,
{
    let seen = r.movers@.map_values(|c: CompositeChange| change_view(c));
    let idx = lemma_changes(a.ranking@, b.ranking@);
    assert(seen == changes(a.ranking@, b.ranking@));
    assert(seen.len() == r.movers@.len());
    lemma_score_of(a.ranking@, b.ranking@[j].ticker@, i);
    let k = choose|k: int| 0 <= k < idx.len() && #[trigger] idx[k] == j;
    assert(seen[k] == change_view(r.movers@[k]));
}

/// The latest changes are those between the last two entries of a log.
pub proof fn the_latest_changes_are_those_of_the_last_two(
    log: Vec<ForwardEntry>,
    a: ForwardEntry,
    b: ForwardEntry,
    latest: Option<EntryDiff>,
    r: EntryDiff,
)
    requires
        call_ensures(diff_latest, (&log,), latest),
        log@.len() >= 2,
        a == log@[log@.len() - 2],
        b == log@[log@.len() - 1],
        call_ensures(diff, (&a, &b), r),
    ensures
        latest matches Some(d) && d.prev_date == r.prev_date && d.curr_date == r.curr_date
            && text::texts(d.picks_added@) == text::texts(r.picks_added@) && text::texts(
            d.picks_removed@,
        ) == text::texts(r.picks_removed@) && d.regime_changed == r.regime_changed,
{
    let d = latest->0;
    let (x, y) = if a.as_of.days <= b.as_of.days {
        (a, b)
    } else {
        (b, a)
    };
    assert(is_diff(x, y, r));
    assert(is_diff(x, y, d));
    order::lemma_strictly_sorted_unique(text::texts(r.picks_added@), text::texts(d.picks_added@));
    order::lemma_strictly_sorted_unique(
        text::texts(r.picks_removed@),
        text::texts(d.picks_removed@),
    );
}

/// The biggest movers come first, whether they rose or fell: the size of a change is its encoding
/// without the sign.
pub proof fn movers_come_by_the_size_of_their_change(
    deltas: Vec<Number>,
    p: Vec<usize>,
    j: int,
    k: int,
)
    requires
        call_ensures(biggest_first, (&deltas,), p),
        0 <= j < k < p@.len(),
    ensures
        p@.len() == deltas@.len(),
        p@[j] < deltas@.len() && p@[k] < deltas@.len() && p@[j] != p@[k],
        deltas@[p@[j] as int].bits % 0x8000_0000_0000_0000 >= deltas@[p@[k] as int].bits
            % 0x8000_0000_0000_0000,
{
    let v = sizes(deltas@);
    assert(order::descends(v, p@[j] as int, p@[k] as int));
    assert(v[p@[j] as int].bits == deltas@[p@[j] as int].bits % 0x8000_0000_0000_0000);
    assert(v[p@[k] as int].bits == deltas@[p@[k] as int].bits % 0x8000_0000_0000_0000);
}

} // verus!
