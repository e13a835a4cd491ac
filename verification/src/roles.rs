//! Roles that companies hold within their industry, and who holds them.

use vstd::prelude::*;

use crate::calendar;
use crate::calendar::Date;
use crate::data::source::{FundamentalSnapshot, PriceBar};
use crate::number::Number;
use crate::order;
use crate::text;

verus! {

// ── Roles ────────────────────────────────────────────────────────────────────

/// A role that one company per industry can hold.
#[derive(Clone, Copy, Debug, PartialEq, Eq, Structural, Hash)]
pub enum Role {
    /// Highest three-year revenue growth.
    FastestGrower,
    /// Highest revenue over twelve months.
    LargestByRevenue,
    /// Highest net margin.
    MostProfitable,
    /// Highest debt to equity.
    MostLeveraged,
    /// Highest share of the industry's revenue.
    ConsumerReach,
    /// Lowest price to book.
    DeepValue,
    /// Highest return over twelve months, the latest left out.
    MomentumLeader,
}

/// The name of a role.
pub open spec fn role_label(role: Role) -> Seq<char> {
    match role {
        Role::FastestGrower => "FastestGrower"@,
        Role::LargestByRevenue => "LargestByRevenue"@,
        Role::MostProfitable => "MostProfitable"@,
        Role::MostLeveraged => "MostLeveraged"@,
        Role::ConsumerReach => "ConsumerReach"@,
        Role::DeepValue => "DeepValue"@,
        Role::MomentumLeader => "MomentumLeader"@,
    }
}

/// The fundamental that a role is ranked by; momentum is ranked by prices.
pub open spec fn role_field(role: Role) -> Option<Seq<char>> {
    match role {
        Role::FastestGrower => Some("revenue_cagr_3yr"@),
        Role::LargestByRevenue => Some("revenue_ttm"@),
        Role::MostProfitable => Some("net_margin_pct"@),
        Role::MostLeveraged => Some("debt_to_equity"@),
        Role::ConsumerReach => Some("market_share_proxy"@),
        Role::DeepValue => Some("price_to_book"@),
        Role::MomentumLeader => None,
    }
}

impl Role {
    /// Every role, once.
    pub fn all() -> (r: Vec<Role>)
        ensures
            r@ == seq![
                Role::FastestGrower,
                Role::LargestByRevenue,
                Role::MostProfitable,
                Role::MostLeveraged,
                Role::ConsumerReach,
                Role::DeepValue,
                Role::MomentumLeader,
            ],
    {
        vec![
            Role::FastestGrower,
            Role::LargestByRevenue,
            Role::MostProfitable,
            Role::MostLeveraged,
            Role::ConsumerReach,
            Role::DeepValue,
            Role::MomentumLeader,
        ]
    }

    /// The name of the role.
    pub fn label(&self) -> (r: &'static str)
        ensures
            r@ == role_label(*self),
    {
        match self {
            Role::FastestGrower => "FastestGrower",
            Role::LargestByRevenue => "LargestByRevenue",
            Role::MostProfitable => "MostProfitable",
            Role::MostLeveraged => "MostLeveraged",
            Role::ConsumerReach => "ConsumerReach",
            Role::DeepValue => "DeepValue",
            Role::MomentumLeader => "MomentumLeader",
        }
    }

    /// The fundamental that drives the ranking for the role, or nothing for the role that is
    /// computed from prices.
    pub fn fundamental_field(&self) -> (r: Option<&'static str>)
        ensures
            match r {
                Some(s) => role_field(*self) == Some(s@),
                None => role_field(*self) is None,
            },
    {
        match self {
            Role::FastestGrower => Some("revenue_cagr_3yr"),
            Role::LargestByRevenue => Some("revenue_ttm"),
            Role::MostProfitable => Some("net_margin_pct"),
            Role::MostLeveraged => Some("debt_to_equity"),
            Role::ConsumerReach => Some("market_share_proxy"),
            Role::DeepValue => Some("price_to_book"),
            Role::MomentumLeader => None,
        }
    }

    /// Whether the highest value wins; deep value is won by the lowest.
    pub fn higher_is_better(&self) -> (r: bool)
        ensures
            r == (*self != Role::DeepValue),
    {
        match self {
            Role::DeepValue => false,
            _ => true,
        }
    }
}

/// Every role is listed, and none twice.
pub proof fn all_roles_are_listed(roles: Seq<Role>, role: Role)
    requires
        roles == seq![
            Role::FastestGrower,
            Role::LargestByRevenue,
            Role::MostProfitable,
            Role::MostLeveraged,
            Role::ConsumerReach,
            Role::DeepValue,
            Role::MomentumLeader,
        ],
    ensures
        roles.contains(role),
        roles.no_duplicates(),
{
    assert(roles[0] == Role::FastestGrower);
    assert(roles[1] == Role::LargestByRevenue);
    assert(roles[2] == Role::MostProfitable);
    assert(roles[3] == Role::MostLeveraged);
    assert(roles[4] == Role::ConsumerReach);
    assert(roles[5] == Role::DeepValue);
    assert(roles[6] == Role::MomentumLeader);
}

// ── Candidates ───────────────────────────────────────────────────────────────

/// A company of an industry.
#[derive(Debug)]
pub struct CompanySlot {
    pub ticker: String,
    pub name: String,
    pub industry_name: String,
}

/// What was found out about a company.
#[derive(Debug)]
pub struct CandidateData {
    /// Fundamentals, where they could be had.
    pub fundamentals: Option<FundamentalSnapshot>,
    /// Return over twelve months without the latest, where it could be computed.
    pub momentum: Option<Number>,
    /// Revenue as a share of the industry's, where there is a revenue and the total is not zero.
    pub revenue_share: Number,
}

/// The metric of a company for a role, where it is known.
pub open spec fn metric(data: CandidateData, total_revenue: Number, role: Role) -> Option<Number> {
    match role {
        Role::MomentumLeader => data.momentum,
        _ => match data.fundamentals {
            None => None,
            Some(f) => match role {
                Role::ConsumerReach => if f.revenue_ttm is Some && (Number { bits: 0 }).lt(
                    total_revenue,
                ) {
                    Some(data.revenue_share)
                } else {
                    None
                },
                Role::FastestGrower => f.revenue_cagr_3yr,
                Role::LargestByRevenue => f.revenue_ttm,
                Role::MostProfitable => f.net_margin_pct,
                Role::MostLeveraged => f.debt_to_equity,
                Role::DeepValue => f.price_to_book,
                Role::MomentumLeader => None,
            },
        },
    }
}

/// The metric of a company for a role; without it the company is no candidate.
pub fn score_for_role(data: &CandidateData, total_revenue: Number, role: Role) -> (r: Option<
    Number,
>)
    ensures
        r == metric(*data, total_revenue, role),
{
    match role {
        Role::MomentumLeader => data.momentum,
        _ => match &data.fundamentals {
            None => None,
            Some(f) => match role {
                Role::ConsumerReach => {
                    if f.revenue_ttm.is_some() && Number::zero().is_lt(total_revenue) {
                        Some(data.revenue_share)
                    } else {
                        None
                    }
                },
                Role::FastestGrower => f.revenue_cagr_3yr,
                Role::LargestByRevenue => f.revenue_ttm,
                Role::MostProfitable => f.net_margin_pct,
                Role::MostLeveraged => f.debt_to_equity,
                Role::DeepValue => f.price_to_book,
                Role::MomentumLeader => None,
            },
        },
    }
}

/// A company with its metric for a role.
#[derive(Clone, Copy, Debug, PartialEq, Eq, Structural)]
pub struct Candidate {
    /// Position of the company in its industry.
    pub slot: usize,
    pub score: Number,
}

/// Whether candidate `a` ranks before candidate `b` for a role: by the better score, equal scores
/// in the order of the industry.
pub open spec fn ranks_before(role: Role, a: Candidate, b: Candidate) -> bool {
    if a.score.place() == b.score.place() {
        a.slot < b.slot
    } else if role == Role::DeepValue {
        a.score.place() < b.score.place()
    } else {
        a.score.place() > b.score.place()
    }
}

/// Whether slot `i` is a candidate with score `s`.
pub open spec fn stands(
    data: Seq<CandidateData>,
    total_revenue: Number,
    role: Role,
    c: Candidate,
) -> bool {
    c.slot < data.len() && metric(data[c.slot as int], total_revenue, role) == Some(c.score)
}

/// Every known metric is a number.
pub open spec fn metrics_are_numbers(
    data: Seq<CandidateData>,
    total_revenue: Number,
    role: Role,
) -> bool {
    forall|i: int|
        0 <= i < data.len() ==> (metric(#[trigger] data[i], total_revenue, role) matches Some(s)
            ==> !s.nan())
}

/// Whether score `a` is strictly better than `b` for a role.
fn is_better(role: Role, a: Number, b: Number) -> (r: bool)
    ensures
        r == (if role != Role::DeepValue {
            b.place() < a.place()
        } else {
            b.place() > a.place()
        }),
{
    if role.higher_is_better() {
        b.key() < a.key()
    } else {
        b.key() > a.key()
    }
}

/// The candidates for a role, best first: every company whose metric is known, and no other.
pub fn score_candidates(
    data: &Vec<CandidateData>,
    total_revenue: Number,
    role: Role,
) -> (r: Vec<Candidate>)
    requires
        metrics_are_numbers(data@, total_revenue, role),
    ensures
        forall|c: Candidate| r@.contains(c) <==> stands(data@, total_revenue, role, c),
        forall|i: int, j: int|
            0 <= i < j < r@.len() ==> ranks_before(role, #[trigger] r@[i], #[trigger] r@[j]),
{
    let mut out: Vec<Candidate> = Vec::new();
    let mut n: usize = 0;
    while n < data.len()
        invariant
            n <= data.len(),
            forall|c: Candidate|
                out@.contains(c) <==> c.slot < n && stands(data@, total_revenue, role, c),
            forall|i: int, j: int|
                0 <= i < j < out@.len() ==> ranks_before(
                    role,
                    #[trigger] out@[i],
                    #[trigger] out@[j],
                ),
        decreases data.len() - n,
    {
        let ghost before = out@;
        match score_for_role(&data[n], total_revenue, role) {
            Some(score) => {
                let mut q: usize = out.len();
                while q > 0 && is_better(role, score, out[q - 1].score)
                    invariant
                        q <= out.len(),
                        out@ == before,
                        forall|i: int|
                            q <= i < out@.len() ==> (if role != Role::DeepValue {
                                (#[trigger] out@[i]).score.place() < score.place()
                            } else {
                                out@[i].score.place() > score.place()
                            }),
                    decreases q,
                {
                    q = q - 1;
                }
                let c: Candidate = Candidate { slot: n, score };
                out.insert(q, c);
                proof {
                    assert(out@ =~= before.insert(q as int, c));
                    assert forall|i: int| 0 <= i < before.len() implies (
                    #[trigger] before[i]).slot < n by {
                        assert(before.contains(before[i]));
                    }
                    assert forall|i: int, j: int| 0 <= i < j < out@.len() implies ranks_before(
                        role,
                        #[trigger] out@[i],
                        #[trigger] out@[j],
                    ) by {
                        let bi = if i < q { i } else { i - 1 };
                        let bj = if j < q { j } else { j - 1 };
                        if i == q {
                            assert(out@[j] == before[j - 1]);
                        } else if j == q {
                            assert(out@[i] == before[i]);
                            if i < q - 1 {
                                assert(ranks_before(role, before[i], before[q - 1]));
                            }
                        } else {
                            assert(out@[i] == before[bi] && out@[j] == before[bj]);
                        }
                    }
                    assert forall|x: Candidate|
                        #[trigger] out@.contains(x) <==> x.slot < n + 1 && stands(
                            data@,
                            total_revenue,
                            role,
                            x,
                        ) by {
                        if before.contains(x) {
                            let k = choose|k: int| 0 <= k < before.len() && before[k] == x;
                            if k < q {
                                assert(out@[k] == x);
                            } else {
                                assert(out@[k + 1] == x);
                            }
                        }
                        if x == c {
                            assert(out@[q as int] == x);
                        }
                        if out@.contains(x) && x != c {
                            let k = choose|k: int| 0 <= k < out@.len() && out@[k] == x;
                            if k < q {
                                assert(before[k] == x);
                            } else if k > q {
                                assert(before[k - 1] == x);
                            }
                        }
                    }
                }
            },
            None => {
                proof {
                    assert forall|x: Candidate|
                        #[trigger] out@.contains(x) <==> x.slot < n + 1 && stands(
                            data@,
                            total_revenue,
                            role,
                            x,
                        ) by {}
                }
            },
        }
        n = n + 1;
    }
    out
}

// ── Rosters ──────────────────────────────────────────────────────────────────

/// One company in one role.
#[derive(Debug)]
pub struct RoleAssignment {
    pub industry_code: u32,
    pub industry_name: String,
    pub role: Role,
    pub ticker: String,
    pub company_name: String,
    /// The metric that won the role.
    pub metric_value: Number,
    pub as_of: Date,
}

/// Who holds which role in an industry on a date.
#[derive(Debug)]
pub struct IndustryRoster {
    pub industry_code: u32,
    pub industry_name: String,
    pub as_of: Date,
    /// At most one assignment per role.
    pub assignments: Vec<RoleAssignment>,
}

/// The holder of a role, as a position among the assignments.
pub open spec fn holds_role(s: Seq<RoleAssignment>, i: int, role: Role) -> bool {
    0 <= i < s.len() && s[i].role == role
}

/// Whether some assignment gives out `role`.
pub open spec fn is_held(s: Seq<RoleAssignment>, role: Role) -> bool {
    exists|i: int| holds_role(s, i, role)
}

/// At most one assignment per role.
pub open spec fn roles_distinct(s: Seq<RoleAssignment>) -> bool {
    forall|i: int, j: int|
        0 <= i < j < s.len() ==> (#[trigger] s[i]).role != (#[trigger] s[j]).role
}

/// `c` wins `role`: it is a candidate and no other ranks before it.
pub open spec fn wins(
    data: Seq<CandidateData>,
    total_revenue: Number,
    role: Role,
    c: Candidate,
) -> bool {
    stands(data, total_revenue, role, c) && forall|x: Candidate|
        #[trigger] stands(data, total_revenue, role, x) ==> x == c || ranks_before(role, c, x)
}

/// A role has one winner at most.
pub proof fn a_role_has_one_winner(
    data: Seq<CandidateData>,
    total_revenue: Number,
    role: Role,
    a: Candidate,
    b: Candidate,
)
    requires
        wins(data, total_revenue, role, a),
        wins(data, total_revenue, role, b),
    ensures
        a == b,
{
}

impl IndustryRoster {
    /// At most one assignment per role.
    pub open spec fn well_formed(&self) -> bool {
        roles_distinct(self.assignments@)
    }

    /// The assignment of a role.
    pub fn get(&self, role: Role) -> (r: Option<&RoleAssignment>)
        ensures
            match r {
                Some(a) => self.assignments@.contains(*a) && a.role == role,
                None => !is_held(self.assignments@, role),
            },
            r is Some <==> is_held(self.assignments@, role),
    {
        match self.position(role) {
            Some(i) => Some(&self.assignments[i]),
            None => None,
        }
    }

    /// Position of the first assignment of a role.
    fn position(&self, role: Role) -> (r: Option<usize>)
        ensures
            match r {
                Some(i) => holds_role(self.assignments@, i as int, role),
                None => !is_held(self.assignments@, role),
            },
            r is Some <==> is_held(self.assignments@, role),
    {
        let mut i: usize = 0;
        while i < self.assignments.len()
            invariant
                i <= self.assignments.len(),
                forall|j: int| 0 <= j < i ==> (#[trigger] self.assignments@[j]).role != role,
            decreases self.assignments.len() - i,
        {
            if self.assignments[i].role == role {
                proof {
                    assert(holds_role(self.assignments@, i as int, role));
                }
                return Some(i);
            }
            i = i + 1;
        }
        None
    }

    /// The tickers that hold a role, one per role.
    pub fn active_tickers(&self) -> (r: Vec<String>)
        ensures
            text::texts(r@) == self.assignments@.map_values(|a: RoleAssignment| a.ticker@),
    {
        let mut out: Vec<String> = Vec::new();
        let mut i: usize = 0;
        while i < self.assignments.len()
            invariant
                i <= self.assignments.len(),
                out@.len() == i,
                forall|j: int|
                    0 <= j < i ==> (#[trigger] out@[j])@ == self.assignments@[j].ticker@,
            decreases self.assignments.len() - i,
        {
            out.push(self.assignments[i].ticker.clone());
            i = i + 1;
        }
        proof {
            assert(text::texts(out@) =~= self.assignments@.map_values(
                |a: RoleAssignment| a.ticker@,
            ));
        }
        out
    }

    /// Whether a ticker holds any role.
    pub fn holds_any_role(&self, ticker: &str) -> (r: bool)
        ensures
            r == (exists|i: int|
                0 <= i < self.assignments@.len() && (#[trigger] self.assignments@[i]).ticker@
                    == ticker@),
    {
        let mut i: usize = 0;
        while i < self.assignments.len()
            invariant
                i <= self.assignments.len(),
                forall|j: int|
                    0 <= j < i ==> (#[trigger] self.assignments@[j]).ticker@ != ticker@,
            decreases self.assignments.len() - i,
        {
            if text::same_text(self.assignments[i].ticker.as_str(), ticker) {
                return true;
            }
            i = i + 1;
        }
        false
    }
}

/// Whether an assignment gives `role` to the winner among the companies of an industry.
pub open spec fn assigns(
    a: RoleAssignment,
    industry_code: u32,
    industry_name: Seq<char>,
    slots: Seq<CompanySlot>,
    data: Seq<CandidateData>,
    total_revenue: Number,
    date: Date,
) -> bool {
    &&& a.industry_code == industry_code
    &&& a.industry_name@ == industry_name
    &&& a.as_of == date
    &&& exists|c: Candidate|
        #![trigger wins(data, total_revenue, a.role, c)]
        wins(data, total_revenue, a.role, c) && c.slot < slots.len() && a.ticker@
            == slots[c.slot as int].ticker@ && a.company_name@ == slots[c.slot as int].name@
            && a.metric_value == c.score
}

/// Whether some company is a candidate for a role.
pub open spec fn contested(data: Seq<CandidateData>, total_revenue: Number, role: Role) -> bool {
    exists|c: Candidate| stands(data, total_revenue, role, c)
}

/// Gives every active role to the best candidate of an industry. A role for which no company has
/// the metric stays vacant.
pub fn classify_industry(
    industry_code: u32,
    slots: &Vec<CompanySlot>,
    data: &Vec<CandidateData>,
    total_revenue: Number,
    active_roles: &Vec<Role>,
    date: Date,
) -> (r: IndustryRoster)
    requires
        slots@.len() == data@.len(),
        forall|k: int|
            0 <= k < active_roles@.len() ==> metrics_are_numbers(
                data@,
                total_revenue,
                #[trigger] active_roles@[k],
            ),
    ensures
        r.well_formed(),
        r.industry_code == industry_code,
        r.industry_name@ == (if slots@.len() == 0 {
            seq![]
        } else {
            slots@[0].industry_name@
        }),
        r.as_of == date,
        forall|role: Role|
            is_held(r.assignments@, role) <==> active_roles@.contains(role) && contested(
                data@,
                total_revenue,
                role,
            ),
        forall|i: int|
            0 <= i < r.assignments@.len() ==> assigns(
                #[trigger] r.assignments@[i],
                industry_code,
                r.industry_name@,
                slots@,
                data@,
                total_revenue,
                date,
            ),
{
    let industry_name: String = if slots.len() == 0 {
        String::new()
    } else {
        slots[0].industry_name.clone()
    };
    let mut roster: IndustryRoster = IndustryRoster {
        industry_code,
        industry_name,
        as_of: date,
        assignments: Vec::new(),
    };
    let mut k: usize = 0;
    while k < active_roles.len()
        invariant
            k <= active_roles.len(),
            slots@.len() == data@.len(),
            forall|k: int|
                0 <= k < active_roles@.len() ==> metrics_are_numbers(
                    data@,
                    total_revenue,
                    #[trigger] active_roles@[k],
                ),
            roster.well_formed(),
            roster.industry_code == industry_code,
            roster.industry_name@ == (if slots@.len() == 0 {
                seq![]
            } else {
                slots@[0].industry_name@
            }),
            roster.as_of == date,
            forall|role: Role|
                is_held(roster.assignments@, role) <==> (exists|q: int|
                    0 <= q < k && #[trigger] active_roles@[q] == role) && contested(
                    data@,
                    total_revenue,
                    role,
                ),
            forall|i: int|
                0 <= i < roster.assignments@.len() ==> assigns(
                    #[trigger] roster.assignments@[i],
                    industry_code,
                    roster.industry_name@,
                    slots@,
                    data@,
                    total_revenue,
                    date,
                ),
        decreases active_roles.len() - k,
    {
        let role: Role = active_roles[k];
        let candidates: Vec<Candidate> = score_candidates(data, total_revenue, role);
        let ghost before = roster.assignments@;
        let ghost name = roster.industry_name@;
        proof {
            assert(active_roles@[k as int] == role);
        }
        if candidates.len() > 0 && roster.get(role).is_none() {
            let winner: Candidate = candidates[0];
            proof {
                assert(candidates@.contains(winner));
                assert(wins(data@, total_revenue, role, winner)) by {
                    assert forall|x: Candidate| #[trigger]
                        stands(data@, total_revenue, role, x) implies x == winner || ranks_before(
                        role,
                        winner,
                        x,
                    ) by {
                        assert(candidates@.contains(x));
                        let q = choose|q: int| 0 <= q < candidates@.len() && candidates@[q] == x;
                        if q > 0 {
                            assert(ranks_before(role, candidates@[0], candidates@[q]));
                        }
                    }
                }
            }
            let a: RoleAssignment = RoleAssignment {
                industry_code,
                industry_name: roster.industry_name.clone(),
                role,
                ticker: slots[winner.slot].ticker.clone(),
                company_name: slots[winner.slot].name.clone(),
                metric_value: winner.score,
                as_of: date,
            };
            let ghost a_copy = a;
            roster.assignments.push(a);
            proof {
                let now = roster.assignments@;
                assert(now =~= before.push(a_copy));
                assert(wins(data@, total_revenue, a_copy.role, winner));
                assert(assigns(
                    a_copy,
                    industry_code,
                    name,
                    slots@,
                    data@,
                    total_revenue,
                    date,
                ));
                assert forall|i: int| 0 <= i < now.len() implies assigns(
                    #[trigger] now[i],
                    industry_code,
                    roster.industry_name@,
                    slots@,
                    data@,
                    total_revenue,
                    date,
                ) by {
                    if i < before.len() {
                        assert(now[i] == before[i]);
                    }
                }
                assert forall|i: int, j: int| 0 <= i < j < now.len() implies (
                #[trigger] now[i]).role != (#[trigger] now[j]).role by {
                    if j < before.len() {
                        assert(before[i].role != before[j].role);
                    } else {
                        if before[i].role == role {
                            assert(holds_role(before, i, role));
                        }
                    }
                }
                assert(contested(data@, total_revenue, role));
                assert forall|x: Role|
                    #[trigger] is_held(now, x) <==> (exists|q: int|
                        0 <= q < k + 1 && #[trigger] active_roles@[q] == x) && contested(
                        data@,
                        total_revenue,
                        x,
                    ) by {
                    if is_held(before, x) {
                        let i = choose|i: int| holds_role(before, i, x);
                        assert(holds_role(now, i, x));
                    }
                    if x == role {
                        assert(holds_role(now, before.len() as int, x));
                    }
                    if is_held(now, x) && x != role {
                        let i = choose|i: int| holds_role(now, i, x);
                        assert(holds_role(before, i, x));
                    }
                }
            }
        } else {
            proof {
                assert forall|x: Role|
                    #[trigger] is_held(before, x) <==> (exists|q: int|
                        0 <= q < k + 1 && #[trigger] active_roles@[q] == x) && contested(
                        data@,
                        total_revenue,
                        x,
                    ) by {
                    if x == role {
                        if contested(data@, total_revenue, role) {
                            let c = choose|c: Candidate| stands(data@, total_revenue, role, c);
                            assert(candidates@.contains(c));
                        }
                        if is_held(before, role) {
                            assert(contested(data@, total_revenue, role));
                        }
                    }
                }
            }
        }
        k = k + 1;
    }
    proof {
        assert forall|role: Role|
            #[trigger] is_held(roster.assignments@, role) <==> active_roles@.contains(role)
                && contested(data@, total_revenue, role) by {}
    }
    roster
}

// ── Swaps ────────────────────────────────────────────────────────────────────

/// A role that changed hands.
#[derive(Debug)]
pub struct Swap {
    pub role: Role,
    pub outgoing: String,
    pub incoming: String,
}

/// Whether `role` went from `a`'s ticker to `b`'s, which is another one.
pub open spec fn swapped(
    previous: Seq<RoleAssignment>,
    current: Seq<RoleAssignment>,
    role: Role,
    outgoing: Seq<char>,
    incoming: Seq<char>,
) -> bool {
    outgoing != incoming && exists|i: int, j: int|
        #![trigger holds_role(previous, i, role), holds_role(current, j, role)]
        holds_role(previous, i, role) && previous[i].ticker@ == outgoing && holds_role(
            current,
            j,
            role,
        ) && current[j].ticker@ == incoming
}

/// The roles that changed hands between two rosters of an industry: held in both, by different
/// tickers. Each comes once, in no particular order.
pub fn detect_swaps(previous: &IndustryRoster, current: &IndustryRoster) -> (r: Vec<Swap>)
    requires
        previous.well_formed(),
        current.well_formed(),
    ensures
        forall|i: int|
            0 <= i < r@.len() ==> swapped(
                previous.assignments@,
                current.assignments@,
                (#[trigger] r@[i]).role,
                r@[i].outgoing@,
                r@[i].incoming@,
            ),
        forall|role: Role, outgoing: Seq<char>, incoming: Seq<char>| #[trigger]
            swapped(previous.assignments@, current.assignments@, role, outgoing, incoming)
                ==> exists|i: int| 0 <= i < r@.len() && (#[trigger] r@[i]).role == role,
        forall|i: int, j: int|
            0 <= i < j < r@.len() ==> (#[trigger] r@[i]).role != (#[trigger] r@[j]).role,
{
    let mut out: Vec<Swap> = Vec::new();
    let mut j: usize = 0;
    let ghost p = previous.assignments@;
    let ghost c = current.assignments@;
    while j < current.assignments.len()
        invariant
            j <= current.assignments.len(),
            p == previous.assignments@,
            c == current.assignments@,
            roles_distinct(p),
            roles_distinct(c),
            forall|i: int|
                0 <= i < out@.len() ==> swapped(
                    p,
                    c,
                    (#[trigger] out@[i]).role,
                    out@[i].outgoing@,
                    out@[i].incoming@,
                ),
            forall|i: int|
                0 <= i < out@.len() ==> exists|q: int|
                    0 <= q < j && (#[trigger] c[q]).role == (#[trigger] out@[i]).role,
            forall|role: Role, outgoing: Seq<char>, incoming: Seq<char>|
                swapped(p, c, role, outgoing, incoming) && (exists|q: int|
                    0 <= q < j && (#[trigger] c[q]).role == role) ==> exists|i: int|
                    0 <= i < out@.len() && (#[trigger] out@[i]).role == role,
            forall|a: int, b: int|
                0 <= a < b < out@.len() ==> (#[trigger] out@[a]).role != (#[trigger] out@[b]).role,
        decreases current.assignments.len() - j,
    {
        let role: Role = current.assignments[j].role;
        let ghost before = out@;
        proof {
            assert(holds_role(c, j as int, role));
            assert forall|i: int| 0 <= i < before.len() implies (#[trigger] before[i]).role
                != role by {
                let q = choose|q: int| 0 <= q < j && (#[trigger] c[q]).role == before[i].role;
                assert(c[q].role != c[j as int].role);
            }
        }
        match previous.position(role) {
            Some(i) => {
                let same: bool = text::same_text(
                    previous.assignments[i].ticker.as_str(),
                    current.assignments[j].ticker.as_str(),
                );
                if !same {
                    out.push(
                        Swap {
                            role,
                            outgoing: previous.assignments[i].ticker.clone(),
                            incoming: current.assignments[j].ticker.clone(),
                        },
                    );
                    proof {
                        assert(holds_role(p, i as int, role) && holds_role(c, j as int, role));
                        assert(out@[before.len() as int].role == role);
                    }
                } else {
                    proof {
                        assert forall|outgoing: Seq<char>, incoming: Seq<char>| !swapped(
                            p,
                            c,
                            role,
                            outgoing,
                            incoming,
                        ) by {
                            if swapped(p, c, role, outgoing, incoming) {
                                let (a, b) = choose|a: int, b: int|
                                    #![trigger holds_role(p, a, role), holds_role(c, b, role)]
                                    holds_role(p, a, role) && p[a].ticker@ == outgoing
                                        && holds_role(c, b, role) && c[b].ticker@ == incoming;
                                if a < i {
                                    assert(p[a].role != p[i as int].role);
                                } else if a > i {
                                    assert(p[i as int].role != p[a].role);
                                }
                                if b < j {
                                    assert(c[b].role != c[j as int].role);
                                } else if b > j {
                                    assert(c[j as int].role != c[b].role);
                                }
                            }
                        }
                    }
                }
            },
            None => {
                proof {
                    assert forall|outgoing: Seq<char>, incoming: Seq<char>| !swapped(
                        p,
                        c,
                        role,
                        outgoing,
                        incoming,
                    ) by {
                        if swapped(p, c, role, outgoing, incoming) {
                            assert(is_held(p, role));
                        }
                    }
                }
            },
        }
        proof {
            assert forall|i: int| 0 <= i < out@.len() implies exists|q: int|
                0 <= q < j + 1 && (#[trigger] c[q]).role == (#[trigger] out@[i]).role by {
                if i < before.len() {
                    assert(out@[i] == before[i]);
                    let q = choose|q: int| 0 <= q < j && (#[trigger] c[q]).role == before[i].role;
                    assert(c[q].role == out@[i].role);
                } else {
                    assert(c[j as int].role == out@[i].role);
                }
            }
            assert forall|x: Role, outgoing: Seq<char>, incoming: Seq<char>|
                swapped(p, c, x, outgoing, incoming) && (exists|q: int|
                    0 <= q < j + 1 && (#[trigger] c[q]).role == x) implies exists|i: int|
                0 <= i < out@.len() && (#[trigger] out@[i]).role == x by {
                if x != role {
                    let q = choose|q: int| 0 <= q < j + 1 && (#[trigger] c[q]).role == x;
                    assert(0 <= q < j);
                    let i = choose|i: int| 0 <= i < before.len() && (#[trigger] before[i]).role == x;
                    assert(out@[i].role == x);
                } else {
                    assert(out@.len() > before.len());
                    assert(out@[before.len() as int].role == x);
                }
            }
        }
        j = j + 1;
    }
    proof {
        assert forall|role: Role, outgoing: Seq<char>, incoming: Seq<char>| #[trigger]
            swapped(p, c, role, outgoing, incoming) implies exists|i: int|
            0 <= i < out@.len() && (#[trigger] out@[i]).role == role by {
            let (a, b) = choose|a: int, b: int|
                #![trigger holds_role(p, a, role), holds_role(c, b, role)]
                holds_role(p, a, role) && p[a].ticker@ == outgoing && holds_role(c, b, role)
                    && c[b].ticker@ == incoming;
            assert(c[b].role == role);
        }
    }
    out
}

/// A roster compared with itself has no swaps.
pub proof fn no_swaps_against_itself(
    s: Seq<RoleAssignment>,
    role: Role,
    outgoing: Seq<char>,
    incoming: Seq<char>,
)
    requires
        roles_distinct(s),
    ensures
        !swapped(s, s, role, outgoing, incoming),
{
    if swapped(s, s, role, outgoing, incoming) {
        let (a, b) = choose|a: int, b: int|
            #![trigger holds_role(s, a, role), holds_role(s, b, role)]
            holds_role(s, a, role) && s[a].ticker@ == outgoing && holds_role(s, b, role)
                && s[b].ticker@ == incoming;
        if a < b {
            assert(s[a].role != s[b].role);
        } else if b < a {
            assert(s[b].role != s[a].role);
        }
    }
}

// ── Momentum and growth ──────────────────────────────────────────────────────

/// The period over which momentum is measured: from twelve months to one month before `date`.
pub fn momentum_window(date: Date) -> (r: (Date, Date))
    requires
        date.in_range(),
    ensures
        forall|y: int, m: int, d: int| #[trigger]
            date.is_ymd(y, m, d) && calendar::year_in_range(y - 1) ==> r.0.days
                == calendar::months_after(y, m, d, -12) && r.1.days == calendar::months_after(
                y,
                m,
                d,
                -1,
            ),
        r.0.in_range(),
        r.1.in_range(),
{
    (calendar::subtract_months(date, 12), calendar::subtract_months(date, 1))
}

/// First and last adjusted close of a window, for a simple return; nothing for an empty window or
/// a first price of zero or less.
pub fn compute_price_return(bars: &Vec<PriceBar>) -> (r: Option<(Number, Number)>)
    ensures
        match r {
            Some((first, last)) => bars@.len() > 0 && first == bars@.first().adj_close && last
                == bars@.last().adj_close && !first.le(Number { bits: 0 }),
            None => bars@.len() == 0 || bars@.first().adj_close.le(Number { bits: 0 }),
        },
{
    if bars.len() == 0 {
        return None;
    }
    let first: Number = bars[0].adj_close;
    if first.is_le(Number::zero()) {
        return None;
    }
    Some((first, bars[bars.len() - 1].adj_close))
}

/// Past and present revenue, for the growth between them: both known and neither zero or less.
pub fn compute_revenue_cagr(now: &FundamentalSnapshot, past: &FundamentalSnapshot) -> (r: Option<
    (Number, Number),
>)
    ensures
        match r {
            Some((p, n)) => past.revenue_ttm == Some(p) && now.revenue_ttm == Some(n) && !p.le(
                Number { bits: 0 },
            ) && !n.le(Number { bits: 0 }),
            None => match (past.revenue_ttm, now.revenue_ttm) {
                (Some(p), Some(n)) => p.le(Number { bits: 0 }) || n.le(Number { bits: 0 }),
                _ => true,
            },
        },
{
    match (past.revenue_ttm, now.revenue_ttm) {
        (Some(p), Some(n)) => {
            if p.is_le(Number::zero()) || n.is_le(Number::zero()) {
                None
            } else {
                Some((p, n))
            }
        },
        _ => None,
    }
}

/// The rosters of a universe: one for each industry that has at least one assignment.
pub fn classify_universe(rosters: Vec<IndustryRoster>) -> (r: Vec<IndustryRoster>)
    ensures
        r@ == rosters@.filter(|x: IndustryRoster| x.assignments@.len() > 0),
{
    let ghost all = rosters@;
    let ghost held = |x: IndustryRoster| x.assignments@.len() > 0;
    let ghost mut k: int = 0;
    let mut out: Vec<IndustryRoster> = rosters;
    let mut i: usize = 0;
    proof {
        reveal(Seq::filter);
        assert(all.take(0) =~= seq![]);
        assert(out@ =~= all.take(0).filter(held) + all.skip(0));
    }
    while i < out.len()
        invariant
            held == (|x: IndustryRoster| x.assignments@.len() > 0),
            0 <= k <= all.len(),
            i == all.take(k).filter(held).len(),
            out@ == all.take(k).filter(held) + all.skip(k),
        decreases all.len() - k,
    {
        let ghost kept = all.take(k).filter(held);
        proof {
            reveal(Seq::filter);
            assert(k < all.len());
            assert(out@[i as int] == all[k]);
            assert(all.take(k + 1).drop_last() =~= all.take(k));
            assert(all.take(k + 1).last() == all[k]);
        }
        if out[i].assignments.len() == 0 {
            out.remove(i);
            proof {
                assert(out@ =~= kept + all.skip(k + 1));
            }
        } else {
            i = i + 1;
            proof {
                assert(out@ =~= kept.push(all[k]) + all.skip(k + 1));
            }
        }
        proof {
            k = k + 1;
        }
    }
    proof {
        assert(all.skip(k).len() == 0);
        assert(all.take(k) =~= all);
        assert(out@ =~= all.filter(held));
    }
    out
}

// ── What the roles mean ──────────────────────────────────────────────────────

/// Company `i` holds `role` in a roster.
pub open spec fn gives(
    roster: IndustryRoster,
    slots: Seq<CompanySlot>,
    role: Role,
    a: int,
    i: int,
) -> bool {
    &&& 0 <= a < roster.assignments@.len()
    &&& roster.assignments@[a].role == role
    &&& 0 <= i < slots.len()
    &&& roster.assignments@[a].ticker@ == slots[i].ticker@
    &&& roster.assignments@[a].company_name@ == slots[i].name@
}

proof fn lemma_winner(
    roster: IndustryRoster,
    code: u32,
    slots: Vec<CompanySlot>,
    data: Vec<CandidateData>,
    total_revenue: Number,
    active: Vec<Role>,
    date: Date,
    a: int,
) -> (i: int)
    requires
        call_ensures(
            classify_industry,
            (code, &slots, &data, total_revenue, &active, date),
            roster,
        ),
        slots@.len() == data@.len(),
        slots@.len() <= usize::MAX,
        0 <= a < roster.assignments@.len(),
    ensures
        gives(roster, slots@, roster.assignments@[a].role, a, i),
        metric(data@[i], total_revenue, roster.assignments@[a].role) == Some(
            roster.assignments@[a].metric_value,
        ),
        forall|j: int|
            0 <= j < data@.len() ==> (metric(
                #[trigger] data@[j],
                total_revenue,
                roster.assignments@[a].role,
            ) matches Some(s) ==> if roster.assignments@[a].role == Role::DeepValue {
                roster.assignments@[a].metric_value.place() <= s.place()
            } else {
                s.place() <= roster.assignments@[a].metric_value.place()
            }),
{
    let x = roster.assignments@[a];
    assert(assigns(x, code, roster.industry_name@, slots@, data@, total_revenue, date));
    let c = choose|c: Candidate|
        #![trigger wins(data@, total_revenue, x.role, c)]
        wins(data@, total_revenue, x.role, c) && c.slot < slots@.len() && x.ticker@
            == slots@[c.slot as int].ticker@ && x.company_name@ == slots@[c.slot as int].name@
            && x.metric_value == c.score;
    assert forall|j: int| 0 <= j < data@.len() implies (metric(
        #[trigger] data@[j],
        total_revenue,
        x.role,
    ) matches Some(s) ==> if x.role == Role::DeepValue {
        x.metric_value.place() <= s.place()
    } else {
        s.place() <= x.metric_value.place()
    }) by {
        if let Some(s) = metric(data@[j], total_revenue, x.role) {
            assert(stands(data@, total_revenue, x.role, Candidate { slot: j as usize, score: s }));
        }
    }
    c.slot as int
}

/// The score for this role is the net margin and nothing else: it is unknown where that is or where there
/// are no fundamentals, and companies that agree on it score alike.
pub proof fn the_most_profitable_is_scored_by_net_margin_pct(
    x: CandidateData,
    y: CandidateData,
    total: Number,
    other_total: Number,
    rx: Option<Number>,
    ry: Option<Number>,
)
    requires
        call_ensures(score_for_role, (&x, total, Role::MostProfitable), rx),
        call_ensures(score_for_role, (&y, other_total, Role::MostProfitable), ry),
    ensures
        x.fundamentals is None ==> rx is None,
        x.fundamentals matches Some(f) ==> rx == f.net_margin_pct,
        (x.fundamentals matches Some(f) && y.fundamentals matches Some(g) && f.net_margin_pct
            == g.net_margin_pct) ==> rx == ry,
{
}

/// The company that is given this role has the highest value of the net margin among the companies of the
/// industry for which it is known, whatever their other figures.
pub proof fn the_most_profitable_has_the_highest_net_margin_pct(
    roster: IndustryRoster,
    code: u32,
    slots: Vec<CompanySlot>,
    data: Vec<CandidateData>,
    total_revenue: Number,
    active: Vec<Role>,
    date: Date,
    a: int,
)
    requires
        call_ensures(
            classify_industry,
            (code, &slots, &data, total_revenue, &active, date),
            roster,
        ),
        slots@.len() == data@.len(),
        slots@.len() <= usize::MAX,
        0 <= a < roster.assignments@.len(),
        roster.assignments@[a].role == Role::MostProfitable,
    ensures
        exists|i: int| #[trigger]
            gives(roster, slots@, Role::MostProfitable, a, i) && (data@[i].fundamentals matches Some(f)
                && f.net_margin_pct == Some(roster.assignments@[a].metric_value)),
        forall|j: int|
            0 <= j < data@.len() ==> ((#[trigger] data@[j]).fundamentals matches Some(g)
                ==> g.net_margin_pct matches Some(s) ==> !roster.assignments@[a].metric_value.lt(s)),
{
    let i = lemma_winner(roster, code, slots, data, total_revenue, active, date, a);
    assert(gives(roster, slots@, Role::MostProfitable, a, i));
    assert forall|j: int| 0 <= j < data@.len() implies ((#[trigger] data@[j]).fundamentals matches Some(g)
        ==> g.net_margin_pct matches Some(s) ==> !roster.assignments@[a].metric_value.lt(s)) by {
        if let Some(g) = data@[j].fundamentals {
            assert(metric(data@[j], total_revenue, Role::MostProfitable) == g.net_margin_pct);
        }
    }
}

/// The score for this role is the debt to equity and nothing else: it is unknown where that is or where there
/// are no fundamentals, and companies that agree on it score alike.
pub proof fn the_most_leveraged_is_scored_by_debt_to_equity(
    x: CandidateData,
    y: CandidateData,
    total: Number,
    other_total: Number,
    rx: Option<Number>,
    ry: Option<Number>,
)
    requires
        call_ensures(score_for_role, (&x, total, Role::MostLeveraged), rx),
        call_ensures(score_for_role, (&y, other_total, Role::MostLeveraged), ry),
    ensures
        x.fundamentals is None ==> rx is None,
        x.fundamentals matches Some(f) ==> rx == f.debt_to_equity,
        (x.fundamentals matches Some(f) && y.fundamentals matches Some(g) && f.debt_to_equity
            == g.debt_to_equity) ==> rx == ry,
{
}

/// The company that is given this role has the highest value of the debt to equity among the companies of the
/// industry for which it is known, whatever their other figures.
pub proof fn the_most_leveraged_has_the_highest_debt_to_equity(
    roster: IndustryRoster,
    code: u32,
    slots: Vec<CompanySlot>,
    data: Vec<CandidateData>,
    total_revenue: Number,
    active: Vec<Role>,
    date: Date,
    a: int,
)
    requires
        call_ensures(
            classify_industry,
            (code, &slots, &data, total_revenue, &active, date),
            roster,
        ),
        slots@.len() == data@.len(),
        slots@.len() <= usize::MAX,
        0 <= a < roster.assignments@.len(),
        roster.assignments@[a].role == Role::MostLeveraged,
    ensures
        exists|i: int| #[trigger]
            gives(roster, slots@, Role::MostLeveraged, a, i) && (data@[i].fundamentals matches Some(f)
                && f.debt_to_equity == Some(roster.assignments@[a].metric_value)),
        forall|j: int|
            0 <= j < data@.len() ==> ((#[trigger] data@[j]).fundamentals matches Some(g)
                ==> g.debt_to_equity matches Some(s) ==> !roster.assignments@[a].metric_value.lt(s)),
{
    let i = lemma_winner(roster, code, slots, data, total_revenue, active, date, a);
    assert(gives(roster, slots@, Role::MostLeveraged, a, i));
    assert forall|j: int| 0 <= j < data@.len() implies ((#[trigger] data@[j]).fundamentals matches Some(g)
        ==> g.debt_to_equity matches Some(s) ==> !roster.assignments@[a].metric_value.lt(s)) by {
        if let Some(g) = data@[j].fundamentals {
            assert(metric(data@[j], total_revenue, Role::MostLeveraged) == g.debt_to_equity);
        }
    }
}

/// The score for this role is the growth of revenue over three years and nothing else: it is unknown where that is or where there
/// are no fundamentals, and companies that agree on it score alike.
pub proof fn the_fastest_grower_is_scored_by_revenue_cagr_3yr(
    x: CandidateData,
    y: CandidateData,
    total: Number,
    other_total: Number,
    rx: Option<Number>,
    ry: Option<Number>,
)
    requires
        call_ensures(score_for_role, (&x, total, Role::FastestGrower), rx),
        call_ensures(score_for_role, (&y, other_total, Role::FastestGrower), ry),
    ensures
        x.fundamentals is None ==> rx is None,
        x.fundamentals matches Some(f) ==> rx == f.revenue_cagr_3yr,
        (x.fundamentals matches Some(f) && y.fundamentals matches Some(g) && f.revenue_cagr_3yr
            == g.revenue_cagr_3yr) ==> rx == ry,
{
}

/// The company that is given this role has the highest value of the growth of revenue over three years among the companies of the
/// industry for which it is known, whatever their other figures.
pub proof fn the_fastest_grower_has_the_highest_revenue_cagr_3yr(
    roster: IndustryRoster,
    code: u32,
    slots: Vec<CompanySlot>,
    data: Vec<CandidateData>,
    total_revenue: Number,
    active: Vec<Role>,
    date: Date,
    a: int,
)
    requires
        call_ensures(
            classify_industry,
            (code, &slots, &data, total_revenue, &active, date),
            roster,
        ),
        slots@.len() == data@.len(),
        slots@.len() <= usize::MAX,
        0 <= a < roster.assignments@.len(),
        roster.assignments@[a].role == Role::FastestGrower,
    ensures
        exists|i: int| #[trigger]
            gives(roster, slots@, Role::FastestGrower, a, i) && (data@[i].fundamentals matches Some(f)
                && f.revenue_cagr_3yr == Some(roster.assignments@[a].metric_value)),
        forall|j: int|
            0 <= j < data@.len() ==> ((#[trigger] data@[j]).fundamentals matches Some(g)
                ==> g.revenue_cagr_3yr matches Some(s) ==> !roster.assignments@[a].metric_value.lt(s)),
{
    let i = lemma_winner(roster, code, slots, data, total_revenue, active, date, a);
    assert(gives(roster, slots@, Role::FastestGrower, a, i));
    assert forall|j: int| 0 <= j < data@.len() implies ((#[trigger] data@[j]).fundamentals matches Some(g)
        ==> g.revenue_cagr_3yr matches Some(s) ==> !roster.assignments@[a].metric_value.lt(s)) by {
        if let Some(g) = data@[j].fundamentals {
            assert(metric(data@[j], total_revenue, Role::FastestGrower) == g.revenue_cagr_3yr);
        }
    }
}

/// The score for this role is the revenue of twelve months and nothing else: it is unknown where that is or where there
/// are no fundamentals, and companies that agree on it score alike.
pub proof fn the_largest_is_scored_by_revenue_ttm(
    x: CandidateData,
    y: CandidateData,
    total: Number,
    other_total: Number,
    rx: Option<Number>,
    ry: Option<Number>,
)
    requires
        call_ensures(score_for_role, (&x, total, Role::LargestByRevenue), rx),
        call_ensures(score_for_role, (&y, other_total, Role::LargestByRevenue), ry),
    ensures
        x.fundamentals is None ==> rx is None,
        x.fundamentals matches Some(f) ==> rx == f.revenue_ttm,
        (x.fundamentals matches Some(f) && y.fundamentals matches Some(g) && f.revenue_ttm
            == g.revenue_ttm) ==> rx == ry,
{
}

/// The company that is given this role has the highest value of the revenue of twelve months among the companies of the
/// industry for which it is known, whatever their other figures.
pub proof fn the_largest_has_the_highest_revenue_ttm(
    roster: IndustryRoster,
    code: u32,
    slots: Vec<CompanySlot>,
    data: Vec<CandidateData>,
    total_revenue: Number,
    active: Vec<Role>,
    date: Date,
    a: int,
)
    requires
        call_ensures(
            classify_industry,
            (code, &slots, &data, total_revenue, &active, date),
            roster,
        ),
        slots@.len() == data@.len(),
        slots@.len() <= usize::MAX,
        0 <= a < roster.assignments@.len(),
        roster.assignments@[a].role == Role::LargestByRevenue,
    ensures
        exists|i: int| #[trigger]
            gives(roster, slots@, Role::LargestByRevenue, a, i) && (data@[i].fundamentals matches Some(f)
                && f.revenue_ttm == Some(roster.assignments@[a].metric_value)),
        forall|j: int|
            0 <= j < data@.len() ==> ((#[trigger] data@[j]).fundamentals matches Some(g)
                ==> g.revenue_ttm matches Some(s) ==> !roster.assignments@[a].metric_value.lt(s)),
{
    let i = lemma_winner(roster, code, slots, data, total_revenue, active, date, a);
    assert(gives(roster, slots@, Role::LargestByRevenue, a, i));
    assert forall|j: int| 0 <= j < data@.len() implies ((#[trigger] data@[j]).fundamentals matches Some(g)
        ==> g.revenue_ttm matches Some(s) ==> !roster.assignments@[a].metric_value.lt(s)) by {
        if let Some(g) = data@[j].fundamentals {
            assert(metric(data@[j], total_revenue, Role::LargestByRevenue) == g.revenue_ttm);
        }
    }
}

/// The score for this role is the price to book and nothing else: it is unknown where that is or where there
/// are no fundamentals, and companies that agree on it score alike.
pub proof fn the_deepest_value_is_scored_by_price_to_book(
    x: CandidateData,
    y: CandidateData,
    total: Number,
    other_total: Number,
    rx: Option<Number>,
    ry: Option<Number>,
)
    requires
        call_ensures(score_for_role, (&x, total, Role::DeepValue), rx),
        call_ensures(score_for_role, (&y, other_total, Role::DeepValue), ry),
    ensures
        x.fundamentals is None ==> rx is None,
        x.fundamentals matches Some(f) ==> rx == f.price_to_book,
        (x.fundamentals matches Some(f) && y.fundamentals matches Some(g) && f.price_to_book
            == g.price_to_book) ==> rx == ry,
{
}

/// The company that is given this role has the lowest value of the price to book among the companies of the
/// industry for which it is known, whatever their other figures.
pub proof fn the_deepest_value_has_the_lowest_price_to_book(
    roster: IndustryRoster,
    code: u32,
    slots: Vec<CompanySlot>,
    data: Vec<CandidateData>,
    total_revenue: Number,
    active: Vec<Role>,
    date: Date,
    a: int,
)
    requires
        call_ensures(
            classify_industry,
            (code, &slots, &data, total_revenue, &active, date),
            roster,
        ),
        slots@.len() == data@.len(),
        slots@.len() <= usize::MAX,
        0 <= a < roster.assignments@.len(),
        roster.assignments@[a].role == Role::DeepValue,
    ensures
        exists|i: int| #[trigger]
            gives(roster, slots@, Role::DeepValue, a, i) && (data@[i].fundamentals matches Some(f)
                && f.price_to_book == Some(roster.assignments@[a].metric_value)),
        forall|j: int|
            0 <= j < data@.len() ==> ((#[trigger] data@[j]).fundamentals matches Some(g)
                ==> g.price_to_book matches Some(s) ==> !s.lt(roster.assignments@[a].metric_value)),
{
    let i = lemma_winner(roster, code, slots, data, total_revenue, active, date, a);
    assert(gives(roster, slots@, Role::DeepValue, a, i));
    assert forall|j: int| 0 <= j < data@.len() implies ((#[trigger] data@[j]).fundamentals matches Some(g)
        ==> g.price_to_book matches Some(s) ==> !s.lt(roster.assignments@[a].metric_value)) by {
        if let Some(g) = data@[j].fundamentals {
            assert(metric(data@[j], total_revenue, Role::DeepValue) == g.price_to_book);
        }
    }
}

/// Momentum is scored by the return over twelve months without the latest, with or without
/// fundamentals, and its leader has the highest.
pub proof fn the_momentum_leader_has_the_highest_return(
    roster: IndustryRoster,
    code: u32,
    slots: Vec<CompanySlot>,
    data: Vec<CandidateData>,
    total_revenue: Number,
    active: Vec<Role>,
    date: Date,
    a: int,
    k: int,
    r: Option<Number>,
)
    requires
        call_ensures(
            classify_industry,
            (code, &slots, &data, total_revenue, &active, date),
            roster,
        ),
        slots@.len() == data@.len(),
        slots@.len() <= usize::MAX,
        0 <= a < roster.assignments@.len(),
        roster.assignments@[a].role == Role::MomentumLeader,
        0 <= k < data@.len(),
        call_ensures(score_for_role, (&data@[k], total_revenue, Role::MomentumLeader), r),
    ensures
        r == data@[k].momentum,
        exists|i: int| #[trigger]
            gives(roster, slots@, Role::MomentumLeader, a, i) && data@[i].momentum == Some(
                roster.assignments@[a].metric_value,
            ),
        forall|j: int|
            0 <= j < data@.len() ==> ((#[trigger] data@[j]).momentum matches Some(s)
                ==> !roster.assignments@[a].metric_value.lt(s)),
{
    let i = lemma_winner(roster, code, slots, data, total_revenue, active, date, a);
    assert(gives(roster, slots@, Role::MomentumLeader, a, i));
    assert forall|j: int| 0 <= j < data@.len() implies ((#[trigger] data@[j]).momentum matches Some(s)
        ==> !roster.assignments@[a].metric_value.lt(s)) by {
        assert(metric(data@[j], total_revenue, Role::MomentumLeader) == data@[j].momentum);
    }
}

/// Reach is the share of the industry's revenue: known where the company has a revenue and the
/// industry's total is above zero, whatever the other figures.
pub proof fn reach_is_the_share_of_revenue(x: CandidateData, total: Number, r: Option<Number>)
    requires
        call_ensures(score_for_role, (&x, total, Role::ConsumerReach), r),
    ensures
        r matches Some(s) ==> s == x.revenue_share && (x.fundamentals matches Some(f)
            && f.revenue_ttm is Some) && 0 < total.bits <= 0x7FF0_0000_0000_0000,
        (x.fundamentals matches Some(f) && f.revenue_ttm is Some) && 0 < total.bits
            <= 0x7FF0_0000_0000_0000 ==> r == Some(x.revenue_share),
{
}

/// Candidates come best first, every company whose figure is known and no other: the best margin
/// ranks first, and for deep value the lowest price to book; equal figures stay in order.
pub proof fn candidates_come_best_first(
    data: Vec<CandidateData>,
    total: Number,
    role: Role,
    r: Vec<Candidate>,
    i: int,
    j: int,
    si: Option<Number>,
)
    requires
        call_ensures(score_candidates, (&data, total, role), r),
        0 <= i < j < r@.len(),
        call_ensures(score_for_role, (&data@[r@[i].slot as int], total, role), si),
    ensures
        si == Some(r@[i].score),
        role == Role::DeepValue ==> !r@[j].score.lt(r@[i].score),
        role != Role::DeepValue ==> !r@[i].score.lt(r@[j].score),
        !r@[i].score.lt(r@[j].score) && !r@[j].score.lt(r@[i].score) && !r@[i].score.nan()
            && !r@[j].score.nan() ==> r@[i].slot < r@[j].slot,
{
    assert(r@.contains(r@[i]));
    assert(ranks_before(role, r@[i], r@[j]));
}

/// A role that is asked for, and for which some company has the figure, does not stay vacant.
pub proof fn vacancies_have_a_reason(
    roster: IndustryRoster,
    code: u32,
    slots: Vec<CompanySlot>,
    data: Vec<CandidateData>,
    total_revenue: Number,
    active: Vec<Role>,
    date: Date,
    role: Role,
    k: int,
    r: Option<Number>,
)
    requires
        call_ensures(
            classify_industry,
            (code, &slots, &data, total_revenue, &active, date),
            roster,
        ),
        slots@.len() == data@.len(),
        slots@.len() <= usize::MAX,
        active@.contains(role),
        0 <= k < data@.len(),
        call_ensures(score_for_role, (&data@[k], total_revenue, role), r),
        r is Some,
    ensures
        exists|a: int|
            0 <= a < roster.assignments@.len() && (#[trigger] roster.assignments@[a]).role == role,
        roster.industry_code == code && roster.as_of == date,
{
    assert(stands(data@, total_revenue, role, Candidate { slot: k as usize, score: r->0 }));
    assert(contested(data@, total_revenue, role));
    let args = (code, &slots, &data, total_revenue, &active, date);
    assert(args.4@.contains(role) && contested(args.2@, args.3, role));
    assert(is_held(roster.assignments@, role));
    let a = choose|a: int| holds_role(roster.assignments@, a, role);
    assert(roster.assignments@[a].role == role);
}

/// A swap names who gave the role up and who took it over: the first held it in the previous
/// roster and the second holds it in the current one.
pub proof fn swaps_go_from_the_previous_holder_to_the_current(
    previous: IndustryRoster,
    current: IndustryRoster,
    r: Vec<Swap>,
    k: int,
)
    requires
        call_ensures(detect_swaps, (&previous, &current), r),
        0 <= k < r@.len(),
    ensures
        r@[k].outgoing@ != r@[k].incoming@,
        exists|i: int|
            0 <= i < previous.assignments@.len() && (#[trigger] previous.assignments@[i]).role
                == r@[k].role && previous.assignments@[i].ticker@ == r@[k].outgoing@,
        exists|j: int|
            0 <= j < current.assignments@.len() && (#[trigger] current.assignments@[j]).role
                == r@[k].role && current.assignments@[j].ticker@ == r@[k].incoming@,
{
    let (p, c) = (previous.assignments@, current.assignments@);
    let (i, j) = choose|i: int, j: int|
        #![trigger holds_role(p, i, r@[k].role), holds_role(c, j, r@[k].role)]
        holds_role(p, i, r@[k].role) && p[i].ticker@ == r@[k].outgoing@ && holds_role(
            c,
            j,
            r@[k].role,
        ) && c[j].ticker@ == r@[k].incoming@;
    assert(p[i].role == r@[k].role && c[j].role == r@[k].role);
}

/// A role that different companies hold in the two rosters is among the swaps.
pub proof fn no_swap_is_missed(
    previous: IndustryRoster,
    current: IndustryRoster,
    r: Vec<Swap>,
    i: int,
    j: int,
)
    requires
        call_ensures(detect_swaps, (&previous, &current), r),
        0 <= i < previous.assignments@.len(),
        0 <= j < current.assignments@.len(),
        previous.assignments@[i].role == current.assignments@[j].role,
        previous.assignments@[i].ticker@ != current.assignments@[j].ticker@,
    ensures
        exists|k: int|
            0 <= k < r@.len() && (#[trigger] r@[k]).role == current.assignments@[j].role,
{
    let (p, c) = (previous.assignments@, current.assignments@);
    let role = c[j].role;
    assert(holds_role(p, i, role) && holds_role(c, j, role));
    assert(swapped(p, c, role, p[i].ticker@, c[j].ticker@));
    let args = (&previous, &current);
    assert(swapped(
        args.0.assignments@,
        args.1.assignments@,
        role,
        p[i].ticker@,
        c[j].ticker@,
    ));
}

/// A price return is on the adjusted scale, from the first bar of the window to the last; windows
/// that differ in unadjusted prices alone give the same.
pub proof fn price_returns_are_adjusted(
    a: Vec<PriceBar>,
    b: Vec<PriceBar>,
    ra: Option<(Number, Number)>,
    rb: Option<(Number, Number)>,
)
    requires
        call_ensures(compute_price_return, (&a,), ra),
        call_ensures(compute_price_return, (&b,), rb),
    ensures
        crate::data::prices::adjusted_alike(a@, b@) ==> ra == rb,
        ra matches Some((first, last)) ==> first == a@[0].adj_close && last == a@[a@.len()
            - 1].adj_close,
        a@.len() > 0 && 0 < a@[0].adj_close.bits <= 0x7FF0_0000_0000_0000 ==> ra is Some,
{
    if a@.len() > 0 && crate::data::prices::adjusted_alike(a@, b@) {
        assert(a@[0].adj_close == b@[0].adj_close);
        assert(a@[a@.len() - 1].adj_close == b@[b@.len() - 1].adj_close);
    }
}

/// Growth runs from the past revenue to the present one.
pub proof fn growth_runs_from_past_to_present(
    now: FundamentalSnapshot,
    past: FundamentalSnapshot,
    r: Option<(Number, Number)>,
)
    requires
        call_ensures(compute_revenue_cagr, (&now, &past), r),
    ensures
        r matches Some((from, to)) ==> past.revenue_ttm == Some(from) && now.revenue_ttm == Some(to),
        (past.revenue_ttm matches Some(p) && 0 < p.bits <= 0x7FF0_0000_0000_0000) && (
        now.revenue_ttm matches Some(n) && 0 < n.bits <= 0x7FF0_0000_0000_0000) ==> r is Some,
        (past.revenue_ttm matches Some(p) && p.bits == 0) ==> r is None,
{
}

/// A role that is held is one that was asked for, and some company has the figure that decides over
/// it.
pub proof fn only_active_roles_are_held(
    roster: IndustryRoster,
    code: u32,
    slots: Vec<CompanySlot>,
    data: Vec<CandidateData>,
    total_revenue: Number,
    active: Vec<Role>,
    date: Date,
    a: int,
) -> (k: int)
    requires
        call_ensures(
            classify_industry,
            (code, &slots, &data, total_revenue, &active, date),
            roster,
        ),
        slots@.len() == data@.len(),
        0 <= a < roster.assignments@.len(),
    ensures
        active@.contains(roster.assignments@[a].role),
        0 <= k < data@.len(),
        forall|r: Option<Number>| #[trigger]
            call_ensures(
                score_for_role,
                (&data@[k], total_revenue, roster.assignments@[a].role),
                r,
            ) ==> r is Some,
{
    let role = roster.assignments@[a].role;
    let args = (code, &slots, &data, total_revenue, &active, date);
    assert(holds_role(roster.assignments@, a, role));
    assert(is_held(roster.assignments@, role));
    assert(args.4@.contains(role) && contested(args.2@, args.3, role));
    let c = choose|c: Candidate| stands(args.2@, args.3, role, c);
    c.slot as int
}

/// Every role has the name it is written by and the field of the figures that decides over it; a
/// lower figure is better only for deep value, and momentum is in no field.
pub proof fn roles_go_by_their_names(
    all: Vec<Role>,
    role: Role,
    label: &'static str,
    field: Option<&'static str>,
    higher: bool,
)
    requires
        call_ensures(Role::all, (), all),
        call_ensures(Role::label, (&role,), label),
        call_ensures(Role::fundamental_field, (&role,), field),
        call_ensures(Role::higher_is_better, (&role,), higher),
    ensures
        all@.len() == 7 && all@.contains(role) && all@.no_duplicates(),
        higher <==> !(role is DeepValue),
        role is MostProfitable ==> label@ == "MostProfitable"@ && (field matches Some(f) && f@
            == "net_margin_pct"@),
        role is LargestByRevenue ==> label@ == "LargestByRevenue"@ && (field matches Some(f) && f@
            == "revenue_ttm"@),
        role is MostLeveraged ==> label@ == "MostLeveraged"@ && (field matches Some(f) && f@
            == "debt_to_equity"@),
        role is DeepValue ==> label@ == "DeepValue"@ && (field matches Some(f) && f@
            == "price_to_book"@),
        role is FastestGrower ==> label@ == "FastestGrower"@ && (field matches Some(f) && f@
            == "revenue_cagr_3yr"@),
        role is MomentumLeader ==> label@ == "MomentumLeader"@,
        role is ConsumerReach ==> label@ == "ConsumerReach"@,
{
    let s = all@;
    assert(s[0] == Role::FastestGrower && s[1] == Role::LargestByRevenue && s[2]
        == Role::MostProfitable && s[3] == Role::MostLeveraged);
    assert(s[4] == Role::ConsumerReach && s[5] == Role::DeepValue && s[6] == Role::MomentumLeader);
}

/// A universe keeps exactly the industries in which some role is held, in their order.
pub proof fn industries_without_roles_are_left_out(
    rosters: Vec<IndustryRoster>,
    r: Vec<IndustryRoster>,
    i: int,
)
    requires
        call_ensures(classify_universe, (rosters,), r),
    ensures
        0 <= i < rosters@.len() && rosters@[i].assignments@.len() > 0 ==> r@.contains(rosters@[i]),
        0 <= i < r@.len() ==> r@[i].assignments@.len() > 0 && rosters@.contains(r@[i]),
        r@.len() <= rosters@.len(),
{
    let keep = |x: IndustryRoster| x.assignments@.len() > 0;
    let idx = order::lemma_filter_positions(rosters@, keep);
    assert(r@ == rosters@.filter(keep));
    if 0 <= i < rosters@.len() && rosters@[i].assignments@.len() > 0 {
        assert(keep(rosters@[i]));
        let k = choose|k: int| 0 <= k < idx.len() && #[trigger] idx[k] == i;
        assert(r@[k] == rosters@[i]);
    }
    if 0 <= i < r@.len() {
        assert(keep(rosters@[idx[i]]));
        assert(r@[i] == rosters@[idx[i]]);
    }
    rosters@.lemma_filter_len(keep);
}

/// Momentum is measured from twelve months before a date to one month before it.
pub proof fn momentum_runs_from_a_year_ago_to_a_month_ago(
    date: Date,
    from: (i32, u32, u32),
    r: (Date, Date),
    year: Date,
    month: Date,
)
    requires
        date.in_range(),
        call_ensures(Date::ymd, (date,), from),
        from.0 > calendar::FIRST_YEAR + 1,
        call_ensures(momentum_window, (date,), r),
        call_ensures(calendar::subtract_months, (date, 12u32), year),
        call_ensures(calendar::subtract_months, (date, 1u32), month),
    ensures
        r.0 == year,
        r.1 == month,
{
    let (y, m, d) = (from.0 as int, from.1 as int, from.2 as int);
    let a = (date,);
    let b = (date, 12u32);
    let c = (date, 1u32);
    assert(a.0.is_ymd(y, m, d) && b.0.is_ymd(y, m, d) && c.0.is_ymd(y, m, d));
    assert(calendar::month_after(y, m, -12).0 == y - 1);
    assert(calendar::month_after(y, m, -1).0 >= y - 1);
}

/// A roster holds a ticker exactly where one of its roles is assigned to it.
pub proof fn a_ticker_holds_a_role_where_it_is_assigned_one(
    roster: IndustryRoster,
    ticker: &str,
    r: bool,
)
    requires
        call_ensures(IndustryRoster::holds_any_role, (&roster, ticker), r),
    ensures
        r <==> roster.assignments@.map_values(|x: RoleAssignment| x.ticker@).contains(ticker@),
{
    let names = roster.assignments@.map_values(|x: RoleAssignment| x.ticker@);
    if names.contains(ticker@) {
        let k = choose|k: int| 0 <= k < names.len() && names[k] == ticker@;
        assert(roster.assignments@[k].ticker@ == ticker@);
    }
    if r {
        let k = choose|k: int|
            0 <= k < roster.assignments@.len() && (#[trigger] roster.assignments@[k]).ticker@
                == ticker@;
        assert(names[k] == ticker@);
    }
}

} // verus!
