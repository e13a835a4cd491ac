//! One rebalance: which roles changed hands, and who holds a role now.

use vstd::prelude::*;
use vstd::string::*;

use crate::calendar::Date;
use crate::portfolio::weights::RoleTicker;
use crate::roles;
use crate::roles::{IndustryRoster, Role, Swap};

verus! {

/// A role that changed hands at a rebalance.
#[derive(Debug)]
pub struct SwapEvent {
    pub date: Date,
    pub industry_code: u32,
    pub industry_name: String,
    pub role: Role,
    /// Ticker that lost the role.
    pub outgoing: String,
    /// Ticker that gained it.
    pub incoming: String,
}

/// No industry occurs twice, and every roster gives a role to one company at most.
pub open spec fn rosters_well_formed(s: Seq<IndustryRoster>) -> bool {
    &&& forall|i: int| 0 <= i < s.len() ==> (#[trigger] s[i]).well_formed()
    &&& forall|i: int, j: int|
        0 <= i < j < s.len() ==> (#[trigger] s[i]).industry_code != (#[trigger] s[j]).industry_code
}

/// Whether a role of industry `code` went from `outgoing` to `incoming` between two sets of
/// rosters.
pub open spec fn changed_hands(
    previous: Seq<IndustryRoster>,
    current: Seq<IndustryRoster>,
    code: u32,
    role: Role,
    outgoing: Seq<char>,
    incoming: Seq<char>,
) -> bool {
    exists|p: int, c: int|
        #![trigger previous[p], current[c]]
        0 <= p < previous.len() && 0 <= c < current.len() && previous[p].industry_code == code
            && current[c].industry_code == code && roles::swapped(
            previous[p].assignments@,
            current[c].assignments@,
            role,
            outgoing,
            incoming,
        )
}

/// Whether an event names its industry as the current rosters do.
pub open spec fn named_by(e: SwapEvent, current: Seq<IndustryRoster>) -> bool {
    exists|c: int|
        0 <= c < current.len() && (#[trigger] current[c]).industry_code == e.industry_code
            && current[c].industry_name@ == e.industry_name@
}

/// Whether an event tells of role `role` of industry `code`.
pub open spec fn tells(e: SwapEvent, code: u32, role: Role) -> bool {
    e.industry_code == code && e.role == role
}

/// The swaps between two sets of rosters: a role of an industry that is in both sets and that
/// different companies hold. Each is told once.
pub fn swap_events(
    previous: &Vec<IndustryRoster>,
    current: &Vec<IndustryRoster>,
    date: Date,
) -> (r: Vec<SwapEvent>)
    requires
        rosters_well_formed(previous@),
        rosters_well_formed(current@),
    ensures
        forall|i: int|
            0 <= i < r@.len() ==> (#[trigger] r@[i]).date == date && changed_hands(
                previous@,
                current@,
                r@[i].industry_code,
                r@[i].role,
                r@[i].outgoing@,
                r@[i].incoming@,
            ) && named_by(r@[i], current@),
        forall|code: u32, role: Role, outgoing: Seq<char>, incoming: Seq<char>| #[trigger]
            changed_hands(previous@, current@, code, role, outgoing, incoming) ==> exists|i: int|
                0 <= i < r@.len() && #[trigger] tells(r@[i], code, role),
        forall|i: int, j: int|
            0 <= i < j < r@.len() ==> !tells(
                #[trigger] r@[i],
                (#[trigger] r@[j]).industry_code,
                r@[j].role,
            ),
{
    let mut out: Vec<SwapEvent> = Vec::new();
    let mut c: usize = 0;
    let ghost prev = previous@;
    let ghost curr = current@;
    while c < current.len()
        invariant
            c <= current.len(),
            prev == previous@,
            curr == current@,
            rosters_well_formed(prev),
            rosters_well_formed(curr),
            forall|i: int|
                0 <= i < out@.len() ==> (#[trigger] out@[i]).date == date && changed_hands(
                    prev,
                    curr,
                    out@[i].industry_code,
                    out@[i].role,
                    out@[i].outgoing@,
                    out@[i].incoming@,
                ) && named_by(out@[i], curr),
            forall|i: int|
                0 <= i < out@.len() ==> exists|q: int|
                    0 <= q < c && (#[trigger] curr[q]).industry_code == (
                    #[trigger] out@[i]).industry_code,
            forall|q: int, role: Role, outgoing: Seq<char>, incoming: Seq<char>|
                0 <= q < c && #[trigger] changed_hands(
                    prev,
                    curr,
                    curr[q].industry_code,
                    role,
                    outgoing,
                    incoming,
                ) ==> exists|i: int|
                    0 <= i < out@.len() && #[trigger] tells(out@[i], curr[q].industry_code, role),
            forall|i: int, j: int|
                0 <= i < j < out@.len() ==> !tells(
                    #[trigger] out@[i],
                    (#[trigger] out@[j]).industry_code,
                    out@[j].role,
                ),
        decreases current.len() - c,
    {
        let code: u32 = current[c].industry_code;
        let ghost before = out@;
        proof {
            assert(curr[c as int].well_formed());
            assert forall|i: int| 0 <= i < before.len() implies (
            #[trigger] before[i]).industry_code != code by {
                let q = choose|q: int|
                    0 <= q < c && (#[trigger] curr[q]).industry_code == before[i].industry_code;
                assert(curr[q].industry_code != curr[c as int].industry_code);
            }
        }
        let found: Option<usize> = find_industry(previous, code);
        match found {
            Some(p) => {
                proof {
                    assert(prev[p as int].well_formed());
                }
                let swaps: Vec<Swap> = roles::detect_swaps(&previous[p], &current[c]);
                let mut k: usize = 0;
                while k < swaps.len()
                    invariant
                        k <= swaps.len(),
                        p < prev.len(),
                        c < curr.len(),
                        prev == previous@,
                        curr == current@,
                        prev[p as int].industry_code == code,
                        curr[c as int].industry_code == code,
                        out@.len() == before.len() + k,
                        forall|i: int|
                            0 <= i < swaps@.len() ==> roles::swapped(
                                prev[p as int].assignments@,
                                curr[c as int].assignments@,
                                (#[trigger] swaps@[i]).role,
                                swaps@[i].outgoing@,
                                swaps@[i].incoming@,
                            ),
                        forall|i: int| 0 <= i < before.len() ==> out@[i] == #[trigger] before[i],
                        forall|i: int|
                            before.len() <= i < out@.len() ==> (#[trigger] out@[i]).date == date
                                && out@[i].industry_code == code && out@[i].industry_name@
                                == curr[c as int].industry_name@ && out@[i].role == swaps@[i
                                - before.len()].role && out@[i].outgoing@ == swaps@[i
                                - before.len()].outgoing@ && out@[i].incoming@ == swaps@[i
                                - before.len()].incoming@,
                    decreases swaps.len() - k,
                {
                    out.push(
                        SwapEvent {
                            date,
                            industry_code: code,
                            industry_name: current[c].industry_name.clone(),
                            role: swaps[k].role,
                            outgoing: swaps[k].outgoing.clone(),
                            incoming: swaps[k].incoming.clone(),
                        },
                    );
                    k = k + 1;
                }
                proof {
                    assert forall|i: int| 0 <= i < out@.len() implies (#[trigger] out@[i]).date
                        == date && changed_hands(
                        prev,
                        curr,
                        out@[i].industry_code,
                        out@[i].role,
                        out@[i].outgoing@,
                        out@[i].incoming@,
                    ) && named_by(out@[i], curr) by {
                        if i < before.len() {
                            assert(out@[i] == before[i]);
                        } else {
                            let s = swaps@[i - before.len()];
                            assert(roles::swapped(
                                prev[p as int].assignments@,
                                curr[c as int].assignments@,
                                s.role,
                                s.outgoing@,
                                s.incoming@,
                            ));
                        }
                    }
                    assert forall|i: int, j: int| 0 <= i < j < out@.len() implies !tells(
                        #[trigger] out@[i],
                        (#[trigger] out@[j]).industry_code,
                        out@[j].role,
                    ) by {
                        if j < before.len() {
                            assert(out@[i] == before[i] && out@[j] == before[j]);
                        } else if i < before.len() {
                            assert(out@[i] == before[i]);
                        } else {
                            assert(swaps@[i - before.len()].role != swaps@[j - before.len()].role);
                        }
                    }
                    assert forall|role: Role, outgoing: Seq<char>, incoming: Seq<char>|
                        changed_hands(
                            prev,
                            curr,
                            code,
                            role,
                            outgoing,
                            incoming,
                        ) implies exists|i: int|
                        0 <= i < out@.len() && #[trigger] tells(out@[i], code, role) by {
                        lemma_one_pair(prev, curr, code, role, outgoing, incoming, p as int, c as int);
                        let i = choose|i: int|
                            0 <= i < swaps@.len() && (#[trigger] swaps@[i]).role == role;
                        assert(tells(out@[before.len() + i], code, role));
                    }
                }
            },
            None => {
                proof {
                    assert forall|role: Role, outgoing: Seq<char>, incoming: Seq<char>|
                        !changed_hands(prev, curr, code, role, outgoing, incoming) by {
                        if changed_hands(prev, curr, code, role, outgoing, incoming) {
                            let (a, b) = choose|a: int, b: int|
                                #![trigger prev[a], curr[b]]
                                0 <= a < prev.len() && 0 <= b < curr.len()
                                    && prev[a].industry_code == code && curr[b].industry_code
                                    == code && roles::swapped(
                                    prev[a].assignments@,
                                    curr[b].assignments@,
                                    role,
                                    outgoing,
                                    incoming,
                                );
                            assert(prev[a].industry_code == code);
                        }
                    }
                }
            },
        }
        proof {
            assert forall|i: int| 0 <= i < out@.len() implies exists|q: int|
                0 <= q < c + 1 && (#[trigger] curr[q]).industry_code == (
                #[trigger] out@[i]).industry_code by {
                if i < before.len() {
                    assert(out@[i] == before[i]);
                    let q = choose|q: int|
                        0 <= q < c && (#[trigger] curr[q]).industry_code
                            == before[i].industry_code;
                    assert(curr[q].industry_code == out@[i].industry_code);
                } else {
                    assert(curr[c as int].industry_code == out@[i].industry_code);
                }
            }
            assert forall|q: int, role: Role, outgoing: Seq<char>, incoming: Seq<char>|
                0 <= q < c + 1 && #[trigger] changed_hands(
                    prev,
                    curr,
                    curr[q].industry_code,
                    role,
                    outgoing,
                    incoming,
                ) implies exists|i: int|
                0 <= i < out@.len() && #[trigger] tells(out@[i], curr[q].industry_code, role) by {
                if q < c {
                    let i = choose|i: int|
                        0 <= i < before.len() && #[trigger] tells(
                            before[i],
                            curr[q].industry_code,
                            role,
                        );
                    assert(out@[i] == before[i]);
                    assert(tells(out@[i], curr[q].industry_code, role));
                }
            }
        }
        c = c + 1;
    }
    proof {
        assert forall|code: u32, role: Role, outgoing: Seq<char>, incoming: Seq<char>| #[trigger]
            changed_hands(prev, curr, code, role, outgoing, incoming) implies exists|i: int|
            0 <= i < out@.len() && #[trigger] tells(out@[i], code, role) by {
            let (a, b) = choose|a: int, b: int|
                #![trigger prev[a], curr[b]]
                0 <= a < prev.len() && 0 <= b < curr.len() && prev[a].industry_code == code
                    && curr[b].industry_code == code && roles::swapped(
                    prev[a].assignments@,
                    curr[b].assignments@,
                    role,
                    outgoing,
                    incoming,
                );
            assert(changed_hands(prev, curr, curr[b].industry_code, role, outgoing, incoming));
        }
    }
    out
}

/// With distinct industries, a change of hands is one between the two rosters of the industry.
proof fn lemma_one_pair(
    prev: Seq<IndustryRoster>,
    curr: Seq<IndustryRoster>,
    code: u32,
    role: Role,
    outgoing: Seq<char>,
    incoming: Seq<char>,
    p: int,
    c: int,
)
    requires
        rosters_well_formed(prev),
        rosters_well_formed(curr),
        0 <= p < prev.len(),
        0 <= c < curr.len(),
        prev[p].industry_code == code,
        curr[c].industry_code == code,
        changed_hands(prev, curr, code, role, outgoing, incoming),
    ensures
        roles::swapped(prev[p].assignments@, curr[c].assignments@, role, outgoing, incoming),
{
    let (a, b) = choose|a: int, b: int|
        #![trigger prev[a], curr[b]]
        0 <= a < prev.len() && 0 <= b < curr.len() && prev[a].industry_code == code
            && curr[b].industry_code == code && roles::swapped(
            prev[a].assignments@,
            curr[b].assignments@,
            role,
            outgoing,
            incoming,
        );
    if a < p {
        assert(prev[a].industry_code != prev[p].industry_code);
    } else if a > p {
        assert(prev[p].industry_code != prev[a].industry_code);
    }
    if b < c {
        assert(curr[b].industry_code != curr[c].industry_code);
    } else if b > c {
        assert(curr[c].industry_code != curr[b].industry_code);
    }
}

/// Position of the roster of an industry.
pub fn find_industry(rosters: &Vec<IndustryRoster>, code: u32) -> (r: Option<usize>)
    ensures
        match r {
            Some(i) => i < rosters@.len() && rosters@[i as int].industry_code == code,
            None => forall|i: int|
                0 <= i < rosters@.len() ==> (#[trigger] rosters@[i]).industry_code != code,
        },
{
    let mut i: usize = 0;
    while i < rosters.len()
        invariant
            i <= rosters.len(),
            forall|j: int| 0 <= j < i ==> (#[trigger] rosters@[j]).industry_code != code,
        decreases rosters.len() - i,
    {
        if rosters[i].industry_code == code {
            return Some(i);
        }
        i = i + 1;
    }
    None
}

/// Number of swaps of a role among the first `n` events.
pub open spec fn swaps_of(s: Seq<SwapEvent>, role: Role, n: int) -> int
    decreases n,
{
    if n <= 0 {
        0
    } else {
        swaps_of(s, role, n - 1) + if s[n - 1].role == role {
            1int
        } else {
            0int
        }
    }
}

/// How often a role changed hands.
pub fn swap_count(events: &Vec<SwapEvent>, role: Role) -> (r: usize)
    ensures
        r == swaps_of(events@, role, events@.len() as int),
        r <= events@.len(),
{
    let mut count: usize = 0;
    let mut i: usize = 0;
    while i < events.len()
        invariant
            i <= events.len(),
            count <= i,
            count == swaps_of(events@, role, i as int),
        decreases events.len() - i,
    {
        if events[i].role == role {
            count = count + 1;
        }
        i = i + 1;
    }
    count
}

/// The tickers and roles of the first `n` rosters, one after the other.
pub open spec fn flat(s: Seq<IndustryRoster>, n: int) -> Seq<(Seq<char>, Role)>
    decreases n,
{
    if n <= 0 {
        seq![]
    } else {
        flat(s, n - 1) + s[n - 1].assignments@.map_values(
            |a: roles::RoleAssignment| (a.ticker@, a.role),
        )
    }
}

/// Every ticker that holds a role, once per role.
pub fn role_tickers(rosters: &Vec<IndustryRoster>) -> (r: Vec<RoleTicker>)
    ensures
        r@.map_values(|x: RoleTicker| (x.ticker@, x.role)) == flat(
            rosters@,
            rosters@.len() as int,
        ),
{
    let mut out: Vec<RoleTicker> = Vec::new();
    let mut i: usize = 0;
    proof {
        assert(out@.map_values(|x: RoleTicker| (x.ticker@, x.role)) =~= flat(rosters@, 0));
    }
    while i < rosters.len()
        invariant
            i <= rosters.len(),
            out@.map_values(|x: RoleTicker| (x.ticker@, x.role)) == flat(rosters@, i as int),
        decreases rosters.len() - i,
    {
        let ghost before = out@;
        let mut k: usize = 0;
        while k < rosters[i].assignments.len()
            invariant
                i < rosters.len(),
                k <= rosters@[i as int].assignments@.len(),
                out@.len() == before.len() + k,
                forall|q: int| 0 <= q < before.len() ==> out@[q] == #[trigger] before[q],
                forall|q: int|
                    before.len() <= q < out@.len() ==> (#[trigger] out@[q]).ticker@
                        == rosters@[i as int].assignments@[q - before.len()].ticker@ && out@[q].role
                        == rosters@[i as int].assignments@[q - before.len()].role,
            decreases rosters@[i as int].assignments@.len() - k,
        {
            out.push(
                RoleTicker {
                    ticker: rosters[i].assignments[k].ticker.clone(),
                    role: rosters[i].assignments[k].role,
                },
            );
            k = k + 1;
        }
        proof {
            let all = out@.map_values(|x: RoleTicker| (x.ticker@, x.role));
            let old_all = before.map_values(|x: RoleTicker| (x.ticker@, x.role));
            let new_part = rosters@[i as int].assignments@.map_values(
                |a: roles::RoleAssignment| (a.ticker@, a.role),
            );
            assert(all =~= old_all + new_part) by {
                assert forall|q: int| 0 <= q < all.len() implies all[q] == (old_all + new_part)[q] by {
                    if q < before.len() {
                        assert(out@[q] == before[q]);
                    }
                }
            }
        }
        i = i + 1;
    }
    out
}

/// Why a role changed hands, in words; `metric` is the winner's metric in print.
pub fn swap_reason(incoming: &str, role: Role, metric: &str) -> (r: String)
    ensures
        r@ == incoming@ + " now leads "@ + roles::role_label(role) + " with metric value "@
            + metric@,
{
    let mut out: String = incoming.to_owned();
    out.append(" now leads ");
    out.append(role.label());
    out.append(" with metric value ");
    out.append(metric);
    out
}

/// An event names who lost the role in the previous rosters and who holds it in the current ones,
/// of one industry and one role, under the industry's current name.
pub proof fn events_tell_who_lost_and_who_gained(
    previous: Vec<IndustryRoster>,
    current: Vec<IndustryRoster>,
    date: Date,
    r: Vec<SwapEvent>,
    k: int,
)
    requires
        call_ensures(swap_events, (&previous, &current, date), r),
        0 <= k < r@.len(),
    ensures
        r@[k].date == date,
        r@[k].outgoing@ != r@[k].incoming@,
        exists|p: int, i: int|
            0 <= p < previous@.len() && 0 <= i < previous@[p].assignments@.len() && (
            #[trigger] previous@[p].assignments@[i]).role == r@[k].role
                && previous@[p].assignments@[i].ticker@ == r@[k].outgoing@
                && previous@[p].industry_code == r@[k].industry_code,
        exists|c: int, i: int|
            0 <= c < current@.len() && 0 <= i < current@[c].assignments@.len() && (
            #[trigger] current@[c].assignments@[i]).role == r@[k].role
                && current@[c].assignments@[i].ticker@ == r@[k].incoming@
                && current@[c].industry_code == r@[k].industry_code,
        exists|c: int|
            0 <= c < current@.len() && (#[trigger] current@[c]).industry_code == r@[k].industry_code
                && current@[c].industry_name@ == r@[k].industry_name@,
{
    let e = r@[k];
    let (p, c) = choose|p: int, c: int|
        #![trigger previous@[p], current@[c]]
        0 <= p < previous@.len() && 0 <= c < current@.len() && previous@[p].industry_code
            == e.industry_code && current@[c].industry_code == e.industry_code && roles::swapped(
            previous@[p].assignments@,
            current@[c].assignments@,
            e.role,
            e.outgoing@,
            e.incoming@,
        );
    let (a, b) = (previous@[p].assignments@, current@[c].assignments@);
    let (i, j) = choose|i: int, j: int|
        #![trigger roles::holds_role(a, i, e.role), roles::holds_role(b, j, e.role)]
        roles::holds_role(a, i, e.role) && a[i].ticker@ == e.outgoing@ && roles::holds_role(
            b,
            j,
            e.role,
        ) && b[j].ticker@ == e.incoming@;
    assert(previous@[p].assignments@[i].role == e.role);
    assert(current@[c].assignments@[j].role == e.role);
}

/// The swaps of a role add up over lists one after the other; an event counts for its own role.
pub proof fn swap_counts_add_up(
    a: Vec<SwapEvent>,
    b: Vec<SwapEvent>,
    both: Vec<SwapEvent>,
    role: Role,
    ra: usize,
    rb: usize,
    r: usize,
)
    requires
        call_ensures(swap_count, (&a, role), ra),
        call_ensures(swap_count, (&b, role), rb),
        call_ensures(swap_count, (&both, role), r),
        both@ == a@ + b@,
    ensures
        r == ra + rb,
        a@.len() == 1 ==> ra == (if a@[0].role == role { 1int } else { 0int }),
{
    lemma_swaps_of_both(a@, b@, role, b@.len() as int);
    reveal_with_fuel(swaps_of, 2);
}

proof fn lemma_swaps_of_both(a: Seq<SwapEvent>, b: Seq<SwapEvent>, role: Role, n: int)
    requires
        0 <= n <= b.len(),
    ensures
        swaps_of(a + b, role, a.len() + n) == swaps_of(a, role, a.len() as int) + swaps_of(
            b,
            role,
            n,
        ),
    decreases n,
{
    if n == 0 {
        lemma_swaps_of_prefix(a, b, role, a.len() as int);
    } else {
        lemma_swaps_of_both(a, b, role, n - 1);
        assert((a + b)[a.len() + n - 1] == b[n - 1]);
    }
}

proof fn lemma_swaps_of_prefix(a: Seq<SwapEvent>, b: Seq<SwapEvent>, role: Role, n: int)
    requires
        0 <= n <= a.len(),
    ensures
        swaps_of(a + b, role, n) == swaps_of(a, role, n),
    decreases n,
{
    if n > 0 {
        lemma_swaps_of_prefix(a, b, role, n - 1);
        assert((a + b)[n - 1] == a[n - 1]);
    }
}

/// Every assignment of every roster is listed with its ticker and role.
pub proof fn every_holder_is_listed(
    rosters: Vec<IndustryRoster>,
    r: Vec<RoleTicker>,
    p: int,
    i: int,
)
    requires
        call_ensures(role_tickers, (&rosters,), r),
        0 <= p < rosters@.len(),
        0 <= i < rosters@[p].assignments@.len(),
    ensures
        exists|k: int|
            0 <= k < r@.len() && (#[trigger] r@[k]).ticker@ == rosters@[p].assignments@[i].ticker@
                && r@[k].role == rosters@[p].assignments@[i].role,
{
    let a = rosters@[p].assignments@[i];
    lemma_flat(rosters@, p, i, rosters@.len() as int);
    let all = flat(rosters@, rosters@.len() as int);
    let seen = r@.map_values(|x: RoleTicker| (x.ticker@, x.role));
    let k = choose|k: int| 0 <= k < all.len() && all[k] == (a.ticker@, a.role);
    assert(seen[k] == (r@[k].ticker@, r@[k].role));
}

proof fn lemma_flat(s: Seq<IndustryRoster>, p: int, i: int, n: int)
    requires
        0 <= p < n <= s.len(),
        0 <= i < s[p].assignments@.len(),
    ensures
        flat(s, n).contains((s[p].assignments@[i].ticker@, s[p].assignments@[i].role)),
    decreases n,
{
    let here = s[n - 1].assignments@.map_values(|a: roles::RoleAssignment| (a.ticker@, a.role));
    let rest = flat(s, n - 1);
    let x = (s[p].assignments@[i].ticker@, s[p].assignments@[i].role);
    if p == n - 1 {
        assert(here[i] == x);
        assert(flat(s, n)[rest.len() + i] == x);
    } else {
        lemma_flat(s, p, i, n - 1);
        let k = choose|k: int| 0 <= k < rest.len() && rest[k] == x;
        assert(flat(s, n)[k] == x);
    }
}

} // verus!
