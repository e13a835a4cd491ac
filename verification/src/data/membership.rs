//! Point-in-time index membership: who was a member on a day.

use vstd::prelude::*;

use crate::calendar::Date;
use crate::order;
use crate::text;

verus! {

/// The members of an index from a date on, until the next change.
#[derive(Debug)]
pub struct MembershipSnapshot {
    pub date: Date,
    pub tickers: Vec<String>,
}

/// `i` is the change in effect on a day: the latest on or before it, and the last listed of
/// several on one date.
pub open spec fn in_effect(s: Seq<MembershipSnapshot>, day: int, i: int) -> bool {
    &&& 0 <= i < s.len()
    &&& s[i].date.days <= day
    &&& forall|j: int|
        0 <= j < s.len() && (#[trigger] s[j]).date.days <= day ==> s[j].date.days < s[i].date.days
            || (s[j].date.days == s[i].date.days && j <= i)
}

/// The change in effect on a date.
pub fn effective_change(s: &Vec<MembershipSnapshot>, date: Date) -> (r: Option<usize>)
    ensures
        match r {
            Some(i) => in_effect(s@, date.days as int, i as int),
            None => forall|j: int| 0 <= j < s@.len() ==> (#[trigger] s@[j]).date.days > date.days,
        },
{
    let mut best: Option<usize> = None;
    let mut i: usize = 0;
    while i < s.len()
        invariant
            i <= s.len(),
            match best {
                Some(b) => b < i && s@[b as int].date.days <= date.days && forall|j: int|
                    0 <= j < i && (#[trigger] s@[j]).date.days <= date.days ==> s@[j].date.days
                        < s@[b as int].date.days || (s@[j].date.days == s@[b as int].date.days && j
                        <= b),
                None => forall|j: int| 0 <= j < i ==> (#[trigger] s@[j]).date.days > date.days,
            },
        decreases s.len() - i,
    {
        if s[i].date.days <= date.days {
            match best {
                Some(b) => {
                    if s[b].date.days <= s[i].date.days {
                        best = Some(i);
                    }
                },
                None => {
                    best = Some(i);
                },
            }
        }
        i = i + 1;
    }
    best
}

/// The members on a date, or nobody where no change lies on or before it.
pub fn members_on(s: &Vec<MembershipSnapshot>, date: Date) -> (r: Vec<String>)
    ensures
        (exists|i: int| #[trigger]
            in_effect(s@, date.days as int, i) && text::texts(r@) == text::texts(s@[i].tickers@))
            || ((forall|j: int| 0 <= j < s@.len() ==> (#[trigger] s@[j]).date.days > date.days)
            && r@.len() == 0),
{
    match effective_change(s, date) {
        Some(i) => {
            let out: Vec<String> = text::clone_texts(&s[i].tickers);
            proof {
                assert(in_effect(s@, date.days as int, i as int));
            }
            out
        },
        None => Vec::new(),
    }
}

/// `i` is the earliest change, the first listed of several on one date.
pub open spec fn earliest(s: Seq<MembershipSnapshot>, i: int) -> bool {
    0 <= i < s.len() && forall|j: int|
        0 <= j < s.len() ==> s[i].date.days < (#[trigger] s[j]).date.days || (s[j].date.days
            == s[i].date.days && i <= j)
}

/// The members as of a date: those of the change in effect or, where the date lies before all of
/// them, of the earliest.
pub fn membership_as_of(s: &Vec<MembershipSnapshot>, as_of: Date) -> (r: Vec<String>)
    ensures
        s@.len() == 0 ==> r@.len() == 0,
        s@.len() > 0 ==> exists|i: int|
            #![trigger s@[i]]
            (in_effect(s@, as_of.days as int, i) || (earliest(s@, i) && s@[i].date.days
                > as_of.days)) && text::texts(r@) == text::texts(s@[i].tickers@),
{
    match effective_change(s, as_of) {
        Some(i) => {
            proof {
                assert(in_effect(s@, as_of.days as int, i as int));
            }
            text::clone_texts(&s[i].tickers)
        },
        None => {
            if s.len() == 0 {
                return Vec::new();
            }
            let mut best: usize = 0;
            let mut i: usize = 1;
            while i < s.len()
                invariant
                    best < i <= s.len(),
                    forall|j: int|
                        0 <= j < i ==> s@[best as int].date.days < (#[trigger] s@[j]).date.days || (
                        s@[j].date.days == s@[best as int].date.days && best <= j),
                decreases s.len() - i,
            {
                if s[i].date.days < s[best].date.days {
                    best = i;
                }
                i = i + 1;
            }
            proof {
                assert(earliest(s@, best as int));
                assert(s@[best as int].date.days > as_of.days);
            }
            text::clone_texts(&s[best].tickers)
        },
    }
}

/// Whether a change was in effect at some time from `from` through `to`: it lies in the window,
/// or it is on the date of the change in effect at its start.
pub open spec fn overlaps(s: Seq<MembershipSnapshot>, from: int, to: int, i: int) -> bool {
    &&& 0 <= i < s.len()
    &&& s[i].date.days <= to
    &&& forall|j: int|
        0 <= j < s.len() && (#[trigger] s[j]).date.days <= from ==> s[j].date.days
            <= s[i].date.days
}

/// Every ticker that was a member at some time from `from` through `to`, in increasing order.
pub fn membership_union(s: &Vec<MembershipSnapshot>, from: Date, to: Date) -> (r: Vec<String>)
    ensures
        order::strictly_sorted(text::texts(r@)),
        forall|t: Seq<char>|
            text::texts(r@).contains(t) <==> exists|i: int| #[trigger]
                overlaps(s@, from.days as int, to.days as int, i) && text::texts(
                    s@[i].tickers@,
                ).contains(t),
{
    let start: Option<usize> = effective_change(s, from);
    let mut all: Vec<String> = Vec::new();
    let mut i: usize = 0;
    proof {
        assert(text::texts(all@) =~= Seq::<Seq<char>>::empty());
    }
    while i < s.len()
        invariant
            i <= s.len(),
            match start {
                Some(b) => in_effect(s@, from.days as int, b as int),
                None => forall|j: int|
                    0 <= j < s@.len() ==> (#[trigger] s@[j]).date.days > from.days,
            },
            order::strictly_sorted(text::texts(all@)),
            forall|t: Seq<char>|
                text::texts(all@).contains(t) <==> exists|k: int|
                    k < i && #[trigger] overlaps(s@, from.days as int, to.days as int, k)
                        && text::texts(s@[k].tickers@).contains(t),
        decreases s.len() - i,
    {
        let reaches: bool = match start {
            Some(b) => s[b].date.days <= s[i].date.days,
            None => true,
        };
        let counts: bool = s[i].date.days <= to.days && reaches;
        proof {
            assert(counts == overlaps(s@, from.days as int, to.days as int, i as int)) by {
                if start is Some {
                    let b = start->0 as int;
                    assert(s@[b].date.days <= from.days);
                }
            }
        }
        let ghost before = text::texts(all@);
        if counts {
            order::insert_all(&mut all, &s[i].tickers);
        }
        proof {
            assert forall|t: Seq<char>|
                text::texts(all@).contains(t) <==> exists|k: int|
                    k < i + 1 && #[trigger] overlaps(s@, from.days as int, to.days as int, k)
                        && text::texts(s@[k].tickers@).contains(t) by {
                if counts && text::texts(s@[i as int].tickers@).contains(t) {
                    assert(overlaps(s@, from.days as int, to.days as int, i as int));
                }
                if before.contains(t) {
                    let k = choose|k: int|
                        k < i && #[trigger] overlaps(s@, from.days as int, to.days as int, k)
                            && text::texts(s@[k].tickers@).contains(t);
                    assert(overlaps(s@, from.days as int, to.days as int, k));
                }
            }
        }
        i = i + 1;
    }
    proof {
        assert forall|t: Seq<char>|
            text::texts(all@).contains(t) <==> exists|i: int| #[trigger]
                overlaps(s@, from.days as int, to.days as int, i) && text::texts(
                    s@[i].tickers@,
                ).contains(t) by {
            if exists|i: int| #[trigger]
                overlaps(s@, from.days as int, to.days as int, i) && text::texts(
                    s@[i].tickers@,
                ).contains(t) {
                let k = choose|i: int| #[trigger]
                    overlaps(s@, from.days as int, to.days as int, i) && text::texts(
                        s@[i].tickers@,
                    ).contains(t);
                assert(k < s.len());
            }
        }
    }
    all
}

/// Whoever is a member on a day of a window is in the union over the window.
pub proof fn members_are_in_the_union(
    s: Seq<MembershipSnapshot>,
    from: int,
    to: int,
    day: int,
    i: int,
)
    requires
        from <= day <= to,
        in_effect(s, day, i),
    ensures
        overlaps(s, from, to, i),
{
}

/// Changes on different dates.
pub open spec fn dates_distinct(s: Seq<MembershipSnapshot>) -> bool {
    forall|i: int, j: int|
        0 <= i < j < s.len() ==> (#[trigger] s[i]).date.days != (#[trigger] s[j]).date.days
}

/// Stores a change, in place of the one on its date where there is one.
pub fn put_snapshot(store: &mut Vec<MembershipSnapshot>, change: MembershipSnapshot)
    requires
        dates_distinct(old(store)@),
    ensures
        dates_distinct(final(store)@),
        final(store)@.contains(change),
        forall|x: MembershipSnapshot|
            x.date.days != change.date.days ==> (final(store)@.contains(x) <==> old(
                store,
            )@.contains(x)),
{
    let ghost before = store@;
    let mut i: usize = 0;
    while i < store.len()
        invariant
            i <= store@.len(),
            store@ == before,
            dates_distinct(before),
            before == old(store)@,
            forall|k: int| 0 <= k < i ==> (#[trigger] before[k]).date.days != change.date.days,
        decreases store@.len() - i,
    {
        if store[i].date.days == change.date.days {
            store.set(i, change);
            proof {
                let after = store@;
                assert(after[i as int] == change);
                assert forall|x: MembershipSnapshot|
                    x.date.days != change.date.days implies (after.contains(x)
                    <==> before.contains(x)) by {
                    if before.contains(x) {
                        let k = choose|k: int| 0 <= k < before.len() && before[k] == x;
                        assert(after[k] == x);
                    }
                    if after.contains(x) {
                        let k = choose|k: int| 0 <= k < after.len() && after[k] == x;
                        assert(before[k] == x);
                    }
                }
            }
            return ;
        }
        i = i + 1;
    }
    store.push(change);
    proof {
        let after = store@;
        assert(after[before.len() as int] == change);
        assert forall|x: MembershipSnapshot| x.date.days != change.date.days implies (
        after.contains(x) <==> before.contains(x)) by {
            if before.contains(x) {
                let k = choose|k: int| 0 <= k < before.len() && before[k] == x;
                assert(after[k] == x);
            }
            if after.contains(x) {
                let k = choose|k: int| 0 <= k < after.len() && after[k] == x;
                assert(before[k] == x);
            }
        }
    }
}

/// Whether two lists name the same tickers.
pub fn same_members(a: &Vec<String>, b: &Vec<String>) -> (r: bool)
    ensures
        r == (forall|t: Seq<char>| text::texts(a@).contains(t) <==> text::texts(b@).contains(t)),
{
    let x: Vec<String> = order::sorted_distinct(a);
    let y: Vec<String> = order::sorted_distinct(b);
    let mut i: usize = 0;
    if x.len() != y.len() {
        proof {
            if forall|t: Seq<char>| text::texts(a@).contains(t) <==> text::texts(b@).contains(t) {
                order::lemma_strictly_sorted_unique(text::texts(x@), text::texts(y@));
                assert(text::texts(x@).len() == x@.len());
                assert(text::texts(y@).len() == y@.len());
            }
        }
        return false;
    }
    while i < x.len()
        invariant
            i <= x.len(),
            x.len() == y.len(),
            order::strictly_sorted(text::texts(x@)),
            order::strictly_sorted(text::texts(y@)),
            forall|t: Seq<char>| text::texts(x@).contains(t) <==> text::texts(a@).contains(t),
            forall|t: Seq<char>| text::texts(y@).contains(t) <==> text::texts(b@).contains(t),
            forall|k: int| 0 <= k < i ==> (#[trigger] x@[k])@ == y@[k]@,
        decreases x.len() - i,
    {
        if !text::same_text(x[i].as_str(), y[i].as_str()) {
            proof {
                if forall|t: Seq<char>|
                    text::texts(a@).contains(t) <==> text::texts(b@).contains(t) {
                    order::lemma_strictly_sorted_unique(text::texts(x@), text::texts(y@));
                    assert(text::texts(x@)[i as int] == text::texts(y@)[i as int]);
                }
            }
            return false;
        }
        i = i + 1;
    }
    proof {
        assert(text::texts(x@) =~= text::texts(y@));
    }
    true
}

/// Adds what the members were on a day to a timeline, unless they are those of its last change.
pub fn extend_timeline(timeline: &mut Vec<MembershipSnapshot>, date: Date, members: Vec<String>)
    ensures
        ({
            let same = old(timeline)@.len() > 0 && forall|t: Seq<char>|
                text::texts(old(timeline)@.last().tickers@).contains(t) <==> text::texts(
                    members@,
                ).contains(t);
            if same {
                final(timeline)@ == old(timeline)@
            } else {
                final(timeline)@ == old(timeline)@.push(
                    (MembershipSnapshot { date, tickers: members }),
                )
            }
        }),
{
    let same: bool = if timeline.len() == 0 {
        false
    } else {
        same_members(&timeline[timeline.len() - 1].tickers, &members)
    };
    if !same {
        timeline.push(MembershipSnapshot { date, tickers: members });
    }
}

/// The members on a day are those of a change on or before it, with no change between that change
/// and the day.
pub proof fn members_are_those_of_the_latest_change(
    s: Vec<MembershipSnapshot>,
    date: Date,
    r: Vec<String>,
    i: int,
)
    requires
        call_ensures(members_on, (&s, date), r),
        dates_distinct(s@),
        0 <= i < s@.len(),
        s@[i].date.days <= date.days,
        forall|j: int|
            0 <= j < s@.len() && (#[trigger] s@[j]).date.days <= date.days ==> s@[j].date.days
                <= s@[i].date.days,
    ensures
        text::texts(r@) == text::texts(s@[i].tickers@),
{
    if exists|k: int| #[trigger]
        in_effect(s@, date.days as int, k) && text::texts(r@) == text::texts(s@[k].tickers@) {
        let k = choose|k: int| #[trigger]
            in_effect(s@, date.days as int, k) && text::texts(r@) == text::texts(s@[k].tickers@);
        if k < i {
            assert(s@[k].date.days != s@[i].date.days);
        } else if i < k {
            assert(s@[i].date.days != s@[k].date.days);
        }
        assert(k == i);
    } else {
        let args = (&s, date);
        assert(args.0@[i].date.days <= date.days);
    }
}

/// Before the first change there are no members.
pub proof fn nobody_is_a_member_before_the_first_change(
    s: Vec<MembershipSnapshot>,
    date: Date,
    r: Vec<String>,
)
    requires
        call_ensures(members_on, (&s, date), r),
        forall|j: int| 0 <= j < s@.len() ==> date.days < (#[trigger] s@[j]).date.days,
    ensures
        r@.len() == 0,
{
}

/// A change that comes after a day changes nothing about the members on it.
pub proof fn later_changes_do_not_matter(
    s: Vec<MembershipSnapshot>,
    longer: Vec<MembershipSnapshot>,
    date: Date,
    r: Vec<String>,
    q: Vec<String>,
)
    requires
        call_ensures(members_on, (&s, date), r),
        call_ensures(members_on, (&longer, date), q),
        dates_distinct(longer@),
        s@.len() <= longer@.len(),
        s@ == longer@.take(s@.len() as int),
        forall|j: int|
            s@.len() <= j < longer@.len() ==> date.days < (#[trigger] longer@[j]).date.days,
    ensures
        text::texts(r@) == text::texts(q@),
{
    let d = date.days as int;
    assert forall|j: int| 0 <= j < s@.len() implies #[trigger] longer@[j] == s@[j] by {}
    assert forall|j: int| 0 <= j < s@.len() implies #[trigger] s@[j] == longer@[j] by {}
    if exists|k: int| #[trigger]
        in_effect(s@, d, k) && text::texts(r@) == text::texts(s@[k].tickers@) {
        let k = choose|k: int| #[trigger]
            in_effect(s@, d, k) && text::texts(r@) == text::texts(s@[k].tickers@);
        assert(longer@[k] == s@[k]);
        members_are_those_of_the_latest_change(longer, date, q, k);
    } else {
        assert(r@.len() == 0);
        assert forall|j: int| 0 <= j < longer@.len() implies date.days < (
        #[trigger] longer@[j]).date.days by {
            if j < s@.len() {
                let args = (&s, date);
                assert(args.0@[j].date.days > date.days);
            }
        }
        nobody_is_a_member_before_the_first_change(longer, date, q);
        assert(text::texts(r@) =~= text::texts(q@));
    }
}

/// The members as of a day are those on it or, before all changes, those of the first change.
pub proof fn before_all_changes_the_first_one_stands(
    s: Vec<MembershipSnapshot>,
    date: Date,
    r: Vec<String>,
    i: int,
)
    requires
        call_ensures(membership_as_of, (&s, date), r),
        dates_distinct(s@),
        0 <= i < s@.len(),
        (s@[i].date.days <= date.days && forall|j: int|
            0 <= j < s@.len() && (#[trigger] s@[j]).date.days <= date.days ==> s@[j].date.days
                <= s@[i].date.days) || (date.days < s@[i].date.days && forall|j: int|
            0 <= j < s@.len() ==> s@[i].date.days <= (#[trigger] s@[j]).date.days),
    ensures
        text::texts(r@) == text::texts(s@[i].tickers@),
{
    let d = date.days as int;
    let k = choose|k: int|
        #![trigger s@[k]]
        (in_effect(s@, d, k) || (earliest(s@, k) && s@[k].date.days > date.days)) && text::texts(r@)
            == text::texts(s@[k].tickers@);
    if k < i {
        assert(s@[k].date.days != s@[i].date.days);
    } else if i < k {
        assert(s@[i].date.days != s@[k].date.days);
    }
    assert(k == i);
}

/// Whoever is a member on some day of a window is in the union over the window, and whoever is in
/// the union is a member on some day of it.
pub proof fn the_union_holds_the_members_of_every_day(
    s: Vec<MembershipSnapshot>,
    from: Date,
    to: Date,
    day: Date,
    on: Vec<String>,
    union: Vec<String>,
    k: int,
)
    requires
        call_ensures(members_on, (&s, day), on),
        call_ensures(membership_union, (&s, from, to), union),
        from.days <= day.days <= to.days,
        0 <= k < on@.len(),
    ensures
        exists|m: int| 0 <= m < union@.len() && (#[trigger] union@[m])@ == on@[k]@,
{
    let i = choose|i: int| #[trigger]
        in_effect(s@, day.days as int, i) && text::texts(on@) == text::texts(s@[i].tickers@);
    members_are_in_the_union(s@, from.days as int, to.days as int, day.days as int, i);
    assert(text::texts(on@)[k] == on@[k]@);
    let args = (&s, from, to);
    assert(overlaps(args.0@, args.1.days as int, args.2.days as int, i));
    assert(text::texts(args.0@[i].tickers@).contains(on@[k]@));
    assert(text::texts(union@).contains(on@[k]@));
    let m = choose|m: int|
        0 <= m < text::texts(union@).len() && text::texts(union@)[m] == on@[k]@;
    assert(union@[m]@ == on@[k]@);
}

/// Nobody is in a union who was not listed by a change in effect in its window: one dated in the
/// window, or before it with no change between the two.
pub proof fn the_union_holds_nobody_else(
    s: Vec<MembershipSnapshot>,
    from: Date,
    to: Date,
    union: Vec<String>,
    m: int,
) -> (i: int)
    requires
        call_ensures(membership_union, (&s, from, to), union),
        0 <= m < union@.len(),
    ensures
        0 <= i < s@.len(),
        text::texts(s@[i].tickers@).contains(union@[m]@),
        s@[i].date.days <= to.days,
        s@[i].date.days < from.days ==> forall|j: int|
            0 <= j < s@.len() && (#[trigger] s@[j]).date.days <= from.days ==> s@[j].date.days
                <= s@[i].date.days,
{
    assert(text::texts(union@)[m] == union@[m]@);
    assert(text::texts(union@).contains(union@[m]@));
    choose|i: int| #[trigger]
        overlaps(s@, from.days as int, to.days as int, i) && text::texts(
            s@[i].tickers@,
        ).contains(union@[m]@)
}

/// A change that was stored gives the members on its own date.
pub proof fn a_stored_change_is_read_back(
    store: &mut Vec<MembershipSnapshot>,
    change: MembershipSnapshot,
    r: Vec<String>,
)
    requires
        dates_distinct(old(store)@),
        call_ensures(put_snapshot, (store, change), ()),
        call_ensures(members_on, (final(store), change.date), r),
    ensures
        text::texts(r@) == text::texts(change.tickers@),
{
    let i = choose|i: int| 0 <= i < final(store)@.len() && final(store)@[i] == change;
    members_are_those_of_the_latest_change(*final(store), change.date, r, i);
}

/// A timeline grows by the members of a day, unless they are those of its last change, and never
/// otherwise: it ends with the members of the day last added.
pub proof fn a_timeline_ends_with_the_last_members(
    timeline: &mut Vec<MembershipSnapshot>,
    date: Date,
    members: Vec<String>,
    t: Seq<char>,
)
    requires
        call_ensures(extend_timeline, (timeline, date, members), ()),
    ensures
        final(timeline)@.len() > 0,
        text::texts(final(timeline)@.last().tickers@).contains(t) <==> text::texts(
            members@,
        ).contains(t),
        old(timeline)@.is_prefix_of(final(timeline)@),
        final(timeline)@.len() > old(timeline)@.len() ==> final(timeline)@.last().date == date,
{
    let before = old(timeline)@;
    let after = final(timeline)@;
    if after.len() > before.len() {
        assert(after.take(before.len() as int) =~= before);
    }
}

/// Two lists name the same members exactly where each names all of the other's.
pub proof fn members_are_the_same_in_any_order(a: Vec<String>, b: Vec<String>, r: bool, i: int)
    requires
        call_ensures(same_members, (&a, &b), r),
        r,
    ensures
        0 <= i < a@.len() ==> text::texts(b@).contains(a@[i]@),
        0 <= i < b@.len() ==> text::texts(a@).contains(b@[i]@),
{
    let args = (&a, &b);
    if 0 <= i < a@.len() {
        assert(text::texts(a@)[i] == a@[i]@);
        assert(text::texts(args.0@).contains(a@[i]@) && text::texts(args.1@).contains(a@[i]@));
    }
    if 0 <= i < b@.len() {
        assert(text::texts(b@)[i] == b@[i]@);
        assert(text::texts(args.1@).contains(b@[i]@) && text::texts(args.0@).contains(b@[i]@));
    }
}

/// The change in effect on a day is on or before it, and no other such change is later.
pub proof fn the_latest_change_is_in_effect(
    s: Vec<MembershipSnapshot>,
    date: Date,
    r: Option<usize>,
    j: int,
)
    requires
        call_ensures(effective_change, (&s, date), r),
        0 <= j < s@.len(),
        s@[j].date.days <= date.days,
    ensures
        r matches Some(i) && i < s@.len() && s@[i as int].date.days <= date.days && s@[j].date.days
            <= s@[i as int].date.days,
{
    let args = (&s, date);
    assert(args.0@[j].date.days <= date.days);
}

} // verus!
