//! Mean reversion of an industry towards the industries it moves with.
//!
//! The spread of an industry is its return less the average return of its
//! peers. Averages and deviations are computed in floating point by the caller;
//! the peers, the days and the values that enter them are chosen here.

use vstd::prelude::*;

use crate::calendar::Date;
use crate::correlations::correlation_matrix;
use crate::correlations::correlation_matrix::{
    find_value,
    CorrelationData,
    DayReturn,
    IndustryReturns,
    Peer,
};
use crate::number::Number;

verus! {

/// Six tenths, as an encoded number: the correlation that a peer needs.
pub const PEER_CORRELATION: u64 = 0x3FE3_3333_3333_3333;

/// Most peers of an industry.
pub const MAX_PEERS: usize = 3;

/// Fewest days for a spread.
pub const MIN_DAYS: usize = 20;

/// Days that count as recent.
pub const RECENT_DAYS: usize = 10;

/// The name of the signal.
pub fn name() -> (r: &'static str)
    ensures
        r@ == "Pairs"@,
{
    "Pairs"
}

/// The daily returns of an industry, the first one of that name.
pub open spec fn returns_named(s: Seq<IndustryReturns>, industry: Seq<char>) -> Option<
    Seq<DayReturn>,
>
    decreases s.len(),
{
    if s.len() == 0 {
        None
    } else if s[0].industry@ == industry {
        Some(s[0].days@)
    } else {
        returns_named(s.drop_first(), industry)
    }
}

proof fn lemma_returns_named(s: Seq<IndustryReturns>, industry: Seq<char>, k: int)
    requires
        0 <= k <= s.len(),
        forall|j: int| 0 <= j < k ==> (#[trigger] s[j]).industry@ != industry,
    ensures
        k < s.len() && s[k].industry@ == industry ==> returns_named(s, industry) == Some(
            s[k].days@,
        ),
        k == s.len() ==> returns_named(s, industry) is None,
    decreases s.len(),
{
    if s.len() > 0 && k > 0 {
        let rest = s.drop_first();
        assert(s[0].industry@ != industry);
        assert forall|j: int| 0 <= j < k - 1 implies (#[trigger] rest[j]).industry@ != industry by {
            assert(rest[j] == s[j + 1]);
        }
        lemma_returns_named(rest, industry, k - 1);
    }
}

/// The finite returns of the first `n` peers on a day.
pub open spec fn peer_values(
    s: Seq<IndustryReturns>,
    peers: Seq<(Seq<char>, Number)>,
    day: Date,
    n: int,
) -> Seq<Number>
    decreases n,
{
    if n <= 0 {
        seq![]
    } else {
        let before = peer_values(s, peers, day, n - 1);
        match returns_named(s, peers[n - 1].0) {
            Some(days) => match correlation_matrix::value_on(days, day) {
                Some(v) => if v.finite() {
                    before.push(v)
                } else {
                    before
                },
                None => before,
            },
            None => before,
        }
    }
}

/// The return of an industry on a day, and those of its peers.
#[derive(Debug)]
pub struct SpreadInput {
    pub own: Number,
    pub peers: Vec<Number>,
}

/// What spread inputs say.
pub open spec fn inputs(s: Seq<SpreadInput>) -> Seq<(Number, Seq<Number>)> {
    s.map_values(|x: SpreadInput| (x.own, x.peers@))
}

/// The spreads of the first `n` days of an industry: those days on which a peer has a finite
/// return.
pub open spec fn spreads(
    s: Seq<IndustryReturns>,
    own: Seq<DayReturn>,
    peers: Seq<(Seq<char>, Number)>,
    n: int,
) -> Seq<(Number, Seq<Number>)>
    decreases n,
{
    if n <= 0 {
        seq![]
    } else {
        let before = spreads(s, own, peers, n - 1);
        let values = peer_values(s, peers, own[n - 1].date, peers.len() as int);
        if values.len() == 0 {
            before
        } else {
            before.push((own[n - 1].value, values))
        }
    }
}

/// The spreads of an industry against given peers, where there are peers and days enough.
pub open spec fn spreads_against(
    data: CorrelationData,
    industry: Seq<char>,
    peers: Seq<(Seq<char>, Number)>,
) -> Option<Seq<(Number, Seq<Number>)>> {
    if peers.len() == 0 {
        None
    } else {
        match returns_named(data.returns_of@, industry) {
            Some(own) => {
                let all = spreads(data.returns_of@, own, peers, own.len() as int);
                if own.len() < 20 || all.len() < 20 {
                    None
                } else {
                    Some(all)
                }
            },
            None => None,
        }
    }
}

/// The finite returns of the peers on a day.
fn find_peer_values(data: &CorrelationData, peers: &Vec<Peer>, day: Date) -> (r: Vec<Number>)
    ensures
        r@ == peer_values(
            data.returns_of@,
            correlation_matrix::peers(peers@),
            day,
            peers@.len() as int,
        ),
{
    let mut out: Vec<Number> = Vec::new();
    let ghost all = correlation_matrix::peers(peers@);
    let mut n: usize = 0;
    while n < peers.len()
        invariant
            n <= peers@.len(),
            all == correlation_matrix::peers(peers@),
            out@ == peer_values(data.returns_of@, all, day, n as int),
        decreases peers@.len() - n,
    {
        proof {
            assert(all[n as int].0 == peers@[n as int].industry@);
        }
        if let Some(days) = find_returns(data, peers[n].industry.as_str()) {
            if let Some(v) = find_value(days, day) {
                if v.is_finite() {
                    out.push(v);
                }
            }
        }
        n = n + 1;
    }
    out
}

/// The daily returns of an industry.
fn find_returns<'a>(data: &'a CorrelationData, industry: &str) -> (r: Option<&'a Vec<DayReturn>>)
    ensures
        match r {
            Some(days) => returns_named(data.returns_of@, industry@) == Some(days@),
            None => returns_named(data.returns_of@, industry@) is None,
        },
{
    let found: Option<&IndustryReturns> = data.returns_of_industry(industry);
    match found {
        Some(x) => {
            proof {
                let k = choose|k: int|
                    0 <= k < data.returns_of@.len() && *x == #[trigger] data.returns_of@[k]
                        && forall|j: int|
                        0 <= j < k ==> (#[trigger] data.returns_of@[j]).industry@ != industry@;
                lemma_returns_named(data.returns_of@, industry@, k);
            }
            Some(&x.days)
        },
        None => {
            proof {
                lemma_returns_named(data.returns_of@, industry@, data.returns_of@.len() as int);
            }
            None
        },
    }
}

/// What the spread of an industry is computed from, day by day, where it has peers and days
/// enough: its peers are the three industries most correlated with it.
pub fn spread_inputs(data: &CorrelationData, industry: &str) -> (r: Option<Vec<SpreadInput>>)
    ensures
        exists|peers: Seq<(Seq<char>, Number)>| #[trigger]
            correlation_matrix::are_strongest(
                correlation_matrix::partners(
                    data.pairs@,
                    industry@,
                    Number { bits: PEER_CORRELATION },
                    data.pairs@.len() as int,
                ),
                3,
                peers,
            ) && (match r {
                Some(s) => spreads_against(*data, industry@, peers) == Some(inputs(s@)),
                None => spreads_against(*data, industry@, peers) is None,
            }),
{
    let peers: Vec<Peer> = data.top_correlated(
        industry,
        Number { bits: PEER_CORRELATION },
        MAX_PEERS,
    );
    let ghost all = correlation_matrix::peers(peers@);
    proof {
        assert(correlation_matrix::are_strongest(
            correlation_matrix::partners(
                data.pairs@,
                industry@,
                Number { bits: PEER_CORRELATION },
                data.pairs@.len() as int,
            ),
            3,
            all,
        ));
    }
    if peers.len() == 0 {
        return None;
    }
    let own: &Vec<DayReturn> = match find_returns(data, industry) {
        Some(days) => days,
        None => {
            return None;
        },
    };
    if own.len() < MIN_DAYS {
        return None;
    }
    let mut out: Vec<SpreadInput> = Vec::new();
    let mut n: usize = 0;
    proof {
        assert(inputs(out@) =~= seq![]);
    }
    while n < own.len()
        invariant
            n <= own@.len(),
            all == correlation_matrix::peers(peers@),
            inputs(out@) == spreads(data.returns_of@, own@, all, n as int),
        decreases own@.len() - n,
    {
        let ghost before = out@;
        let values: Vec<Number> = find_peer_values(data, &peers, own[n].date);
        if values.len() > 0 {
            let ghost v = values@;
            out.push(SpreadInput { own: own[n].value, peers: values });
            proof {
                assert(inputs(out@) =~= inputs(before).push((own@[n as int].value, v)));
            }
        }
        n = n + 1;
    }
    if out.len() < MIN_DAYS {
        None
    } else {
        Some(out)
    }
}

/// The first of the recent spreads among `n`, where their deviation is not negligible; the signal
/// is neutral otherwise.
pub fn recent_spreads(deviation: Number, n: usize) -> (r: Option<usize>)
    ensures
        r == (if deviation.lt(Number { bits: correlation_matrix::BILLIONTH }) {
            None
        } else if n < 10 {
            Some(0usize)
        } else {
            Some((n - 10) as usize)
        }),
{
    if deviation.is_lt(Number { bits: correlation_matrix::BILLIONTH }) {
        None
    } else if n < RECENT_DAYS {
        Some(0)
    } else {
        Some(n - RECENT_DAYS)
    }
}

/// The recent spreads are the last ten, or all where there are fewer; a spread that hardly moves
/// gives no signal.
pub proof fn the_last_ten_spreads_are_recent(deviation: Number, n: usize, r: Option<usize>)
    requires
        call_ensures(recent_spreads, (deviation, n), r),
    ensures
        r matches Some(from) ==> from <= n && (n >= 10 ==> n - from == 10) && (n < 10 ==> from == 0),
        0x3E11_2E0B_E826_D695 <= deviation.bits <= 0x7FF0_0000_0000_0000 ==> r is Some,
        deviation.bits < 0x3E11_2E0B_E826_D695 ==> r is None,
{
}

proof fn lemma_named(s: Seq<IndustryReturns>, industry: Seq<char>)
    ensures
        returns_named(s, industry) matches Some(d) ==> exists|k: int|
            0 <= k < s.len() && (#[trigger] s[k]).industry@ == industry && s[k].days@ == d,
    decreases s.len(),
{
    if s.len() > 0 {
        let rest = s.drop_first();
        if s[0].industry@ == industry {
        } else {
            lemma_named(rest, industry);
            if let Some(d) = returns_named(s, industry) {
                let k = choose|k: int|
                    0 <= k < rest.len() && (#[trigger] rest[k]).industry@ == industry
                        && rest[k].days@ == d;
                assert(s[k + 1] == rest[k]);
            }
        }
    }
}

proof fn lemma_spreads(
    s: Seq<IndustryReturns>,
    own: Seq<DayReturn>,
    peers: Seq<(Seq<char>, Number)>,
    n: int,
)
    requires
        0 <= n <= own.len(),
    ensures
        forall|k: int|
            0 <= k < spreads(s, own, peers, n).len() ==> exists|i: int|
                0 <= i < own.len() && (#[trigger] own[i]).value == (
                #[trigger] spreads(s, own, peers, n)[k]).0 && spreads(s, own, peers, n)[k].1
                    == peer_values(s, peers, own[i].date, peers.len() as int) && spreads(
                    s,
                    own,
                    peers,
                    n,
                )[k].1.len() > 0,
    decreases n,
{
    if n > 0 {
        lemma_spreads(s, own, peers, n - 1);
        let all = spreads(s, own, peers, n);
        let before = spreads(s, own, peers, n - 1);
        assert forall|k: int| 0 <= k < all.len() implies exists|i: int|
            0 <= i < own.len() && (#[trigger] own[i]).value == (#[trigger] all[k]).0 && all[k].1
                == peer_values(s, peers, own[i].date, peers.len() as int) && all[k].1.len()
                > 0 by {
            if k < before.len() {
                assert(all[k] == before[k]);
                let i = choose|i: int|
                    0 <= i < own.len() && (#[trigger] own[i]).value == before[k].0 && before[k].1
                        == peer_values(s, peers, own[i].date, peers.len() as int)
                        && before[k].1.len() > 0;
                assert(own[i].value == all[k].0);
            } else {
                assert(own[n - 1].value == all[k].0);
            }
        }
    }
}

/// A spread sets the return of the industry itself against returns of its peers of the same day: at
/// least one and at most three of them, and there are twenty such days at least.
pub proof fn spreads_set_an_industry_against_its_peers(
    data: CorrelationData,
    industry: &str,
    v: Vec<SpreadInput>,
    k: int,
)
    requires
        call_ensures(spread_inputs, (&data, industry), Some(v)),
        0 <= k < v@.len(),
    ensures
        v@.len() >= 20,
        1 <= v@[k].peers@.len() <= 3,
        exists|q: int, i: int|
            0 <= q < data.returns_of@.len() && 0 <= i < data.returns_of@[q].days@.len()
                && data.returns_of@[q].industry@ == industry@ && (
            #[trigger] data.returns_of@[q].days@[i]).value == v@[k].own,
{
    let peers = choose|peers: Seq<(Seq<char>, Number)>| #[trigger]
        correlation_matrix::are_strongest(
            correlation_matrix::partners(
                data.pairs@,
                industry@,
                Number { bits: PEER_CORRELATION },
                data.pairs@.len() as int,
            ),
            3,
            peers,
        ) && spreads_against(data, industry@, peers) == Some(inputs(v@));
    let own = returns_named(data.returns_of@, industry@)->0;
    lemma_named(data.returns_of@, industry@);
    lemma_spreads(data.returns_of@, own, peers, own.len() as int);
    let all = spreads(data.returns_of@, own, peers, own.len() as int);
    assert(inputs(v@).len() == v@.len());
    assert(inputs(v@)[k] == (v@[k].own, v@[k].peers@));
    assert(inputs(v@)[k] == all[k]);
    let i = choose|i: int|
        0 <= i < own.len() && (#[trigger] own[i]).value == all[k].0 && all[k].1 == peer_values(
            data.returns_of@,
            peers,
            own[i].date,
            peers.len() as int,
        ) && all[k].1.len() > 0;
    let q = choose|q: int|
        0 <= q < data.returns_of@.len() && (#[trigger] data.returns_of@[q]).industry@ == industry@
            && data.returns_of@[q].days@ == own;
    assert(data.returns_of@[q].days@[i].value == v@[k].own);
    lemma_few_peer_values(data.returns_of@, peers, own[i].date, peers.len() as int);
}

proof fn lemma_few_peer_values(
    s: Seq<IndustryReturns>,
    peers: Seq<(Seq<char>, Number)>,
    day: Date,
    n: int,
)
    requires
        0 <= n,
    ensures
        peer_values(s, peers, day, n).len() <= n,
    decreases n,
{
    if n > 0 {
        lemma_few_peer_values(s, peers, day, n - 1);
    }
}

} // verus!
