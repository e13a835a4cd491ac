//! Evaluation of logged entries against what prices did afterwards.
//!
//! A pick made from data through a day is entered at the open of the first bar
//! after it. Which bars count, and when an entry counts as matured, is decided
//! here; the returns themselves are quotients of the prices given back.

use vstd::prelude::*;

use crate::calendar::Date;
use crate::data::prices;
use crate::data::prices::{PriceSeries, PriceStore};
use crate::data::source::PriceBar;
use crate::forward_test::{ForwardEntry, LoggedPick, RankedName};
use crate::number::Number;
use crate::order;
use crate::text;

verus! {

/// Fewest names that a rank correlation is computed over.
pub const MIN_RANKED: usize = 20;

/// A position that was entered and left: its return is `exit_close / entry_open - 1`.
#[derive(Clone, Copy, Debug, PartialEq, Eq, Structural)]
pub struct Hold {
    pub entry_date: Date,
    pub exit_date: Date,
    pub entry_open: Number,
    pub exit_close: Number,
}

/// Buying at the open of the first bar after a day and selling at the close of the `horizon`-th
/// bar, the entry bar being the first; nothing while there are fewer bars or where the open is no
/// price.
pub open spec fn held_for(s: Seq<PriceBar>, after: int, horizon: int) -> Option<Hold> {
    let i = prices::through(s, after);
    if horizon < 1 || i + horizon > s.len() || !s[i].adj_open.positive() {
        None
    } else {
        Some(
            Hold {
                entry_date: s[i].date,
                exit_date: s[i + horizon - 1].date,
                entry_open: s[i].adj_open,
                exit_close: s[i + horizon - 1].adj_close,
            },
        )
    }
}

/// The position entered at the first open after `after` and left `horizon` bars on.
pub fn hold_return(series: &PriceSeries, after: Date, horizon: usize) -> (r: Option<Hold>)
    ensures
        r == held_for(series@, after.days as int, horizon as int),
{
    let bars: &Vec<PriceBar> = series.bars();
    let i: usize = series.next_index(after);
    if horizon < 1 || horizon > bars.len() - i {
        return None;
    }
    let entry: PriceBar = bars[i];
    let exit: PriceBar = bars[i + (horizon - 1)];
    if entry.adj_open.is_positive() {
        Some(
            Hold {
                entry_date: entry.date,
                exit_date: exit.date,
                entry_open: entry.adj_open,
                exit_close: exit.adj_close,
            },
        )
    } else {
        None
    }
}

/// An entry is never filled at a bar that the signals could see: it is entered after the day and
/// left no earlier than it is entered.
pub proof fn fills_come_after_the_data(s: Seq<PriceBar>, after: int, horizon: int)
    requires
        prices::dates_increase(s),
    ensures
        held_for(s, after, horizon) matches Some(h) ==> after < h.entry_date.days
            <= h.exit_date.days,
{
    prices::lemma_through(s, after);
    let i = prices::through(s, after);
    if held_for(s, after, horizon) is Some {
        assert(s[i].date.days > after);
        if horizon > 1 {
            assert(s[i].date.days < s[i + horizon - 1].date.days);
        }
    }
}

/// A ranked name's score with the position that it would have been.
#[derive(Clone, Copy, Debug, PartialEq, Eq, Structural)]
pub struct ScoredHold {
    pub composite: Number,
    pub hold: Hold,
}

/// What a logged entry came to.
#[derive(Debug)]
pub struct Outcome {
    pub as_of: Date,
    pub entry_date: Date,
    pub exit_date: Date,
    /// Whether cash was recommended: the basket's return is zero.
    pub in_cash: bool,
    /// The picks, weighted equally.
    pub basket: Vec<Hold>,
    pub benchmark: Option<Hold>,
    /// The whole ranking's scores and positions, where at least twenty have matured.
    pub ranking: Option<Vec<ScoredHold>>,
}

/// The position of a ticker, where it has prices that reach far enough.
pub open spec fn store_hold(
    m: Map<Seq<char>, Seq<PriceBar>>,
    ticker: Seq<char>,
    after: int,
    horizon: int,
) -> Option<Hold> {
    if m.contains_key(ticker) {
        held_for(m[ticker], after, horizon)
    } else {
        None
    }
}

/// The matured names of a ranking.
pub open spec fn matured_ranking(
    s: Seq<RankedName>,
    m: Map<Seq<char>, Seq<PriceBar>>,
    after: int,
    horizon: int,
) -> Seq<ScoredHold>
    decreases s.len(),
{
    if s.len() == 0 {
        seq![]
    } else {
        let rest = matured_ranking(s.drop_last(), m, after, horizon);
        match store_hold(m, s.last().ticker@, after, horizon) {
            Some(hold) => rest.push(ScoredHold { composite: s.last().composite, hold }),
            None => rest,
        }
    }
}

/// The positions of the picks, in their order.
pub open spec fn pick_holds(
    s: Seq<LoggedPick>,
    m: Map<Seq<char>, Seq<PriceBar>>,
    after: int,
    horizon: int,
) -> Seq<Hold> {
    Seq::new(s.len(), |i: int| store_hold(m, s[i].ticker@, after, horizon)->0)
}

/// Whether some pick has no prices, or none that reach far enough.
pub open spec fn immature(
    s: Seq<LoggedPick>,
    m: Map<Seq<char>, Seq<PriceBar>>,
    after: int,
    horizon: int,
) -> bool {
    exists|i: int|
        0 <= i < s.len() && store_hold(m, (#[trigger] s[i]).ticker@, after, horizon) is None
}

/// The benchmark's position.
pub open spec fn benchmark_hold(b: Option<&PriceSeries>, after: int, horizon: int) -> Option<Hold> {
    match b {
        Some(s) => held_for(s@, after, horizon),
        None => None,
    }
}

/// The matured names of a ranking.
fn rank_holds(entry: &ForwardEntry, store: &PriceStore, horizon: usize) -> (r: Vec<ScoredHold>)
    ensures
        r@ == matured_ranking(
            entry.ranking@,
            store@,
            entry.data_through.days as int,
            horizon as int,
        ),
{
    let mut out: Vec<ScoredHold> = Vec::new();
    let ghost after = entry.data_through.days as int;
    let mut i: usize = 0;
    proof {
        assert(entry.ranking@.take(0) =~= seq![]);
    }
    while i < entry.ranking.len()
        invariant
            i <= entry.ranking@.len(),
            after == entry.data_through.days,
            out@ == matured_ranking(
                entry.ranking@.take(i as int),
                store@,
                after,
                horizon as int,
            ),
        decreases entry.ranking@.len() - i,
    {
        proof {
            assert(entry.ranking@.take(i + 1).drop_last() =~= entry.ranking@.take(i as int));
            assert(entry.ranking@.take(i + 1).last() == entry.ranking@[i as int]);
        }
        let hold: Option<Hold> = match store.get(entry.ranking[i].ticker.as_str()) {
            Some(series) => hold_return(series, entry.data_through, horizon),
            None => None,
        };
        match hold {
            Some(hold) => {
                out.push(ScoredHold { composite: entry.ranking[i].composite, hold });
            },
            None => {},
        }
        i = i + 1;
    }
    proof {
        assert(entry.ranking@.take(entry.ranking@.len() as int) =~= entry.ranking@);
    }
    out
}

/// The positions of the picks, unless one of them has not matured.
fn basket_holds(entry: &ForwardEntry, store: &PriceStore, horizon: usize) -> (r: Option<Vec<Hold>>)
    ensures
        r is None <==> immature(
            entry.picks@,
            store@,
            entry.data_through.days as int,
            horizon as int,
        ),
        r matches Some(v) ==> v@ == pick_holds(
            entry.picks@,
            store@,
            entry.data_through.days as int,
            horizon as int,
        ),
{
    let mut out: Vec<Hold> = Vec::new();
    let ghost after = entry.data_through.days as int;
    let mut i: usize = 0;
    while i < entry.picks.len()
        invariant
            i <= entry.picks@.len(),
            after == entry.data_through.days,
            out@.len() == i,
            forall|k: int|
                0 <= k < i ==> store_hold(
                    store@,
                    (#[trigger] entry.picks@[k]).ticker@,
                    after,
                    horizon as int,
                ) == Some(out@[k]),
        decreases entry.picks@.len() - i,
    {
        let hold: Option<Hold> = match store.get(entry.picks[i].ticker.as_str()) {
            Some(series) => hold_return(series, entry.data_through, horizon),
            None => None,
        };
        proof {
            assert(hold == store_hold(
                store@,
                entry.picks@[i as int].ticker@,
                after,
                horizon as int,
            ));
        }
        match hold {
            Some(hold) => {
                out.push(hold);
            },
            None => {
                return None;
            },
        }
        i = i + 1;
    }
    proof {
        let all = pick_holds(entry.picks@, store@, after, horizon as int);
        assert forall|k: int| 0 <= k < all.len() implies all[k] == out@[k] by {
            assert(store_hold(store@, entry.picks@[k].ticker@, after, horizon as int) == Some(
                out@[k],
            ));
        }
        assert(out@ =~= all);
    }
    Some(out)
}

/// Whether an entry can be evaluated.
pub open spec fn settled(
    e: ForwardEntry,
    m: Map<Seq<char>, Seq<PriceBar>>,
    benchmark: Option<&PriceSeries>,
    horizon: int,
) -> bool {
    let after = e.data_through.days as int;
    if e.picks@.len() == 0 {
        benchmark_hold(benchmark, after, horizon) is Some
    } else {
        !immature(e.picks@, m, after, horizon)
    }
}

/// Whether `o` is what an entry came to.
pub open spec fn comes_to(
    e: ForwardEntry,
    m: Map<Seq<char>, Seq<PriceBar>>,
    benchmark: Option<&PriceSeries>,
    horizon: int,
    o: Outcome,
) -> bool {
    let after = e.data_through.days as int;
    let bench = benchmark_hold(benchmark, after, horizon);
    let ranked = matured_ranking(e.ranking@, m, after, horizon);
    let basket = pick_holds(e.picks@, m, after, horizon);
    let dated = if e.picks@.len() == 0 {
        bench->0
    } else {
        basket[0]
    };
    &&& o.as_of == e.as_of
    &&& o.in_cash == (e.picks@.len() == 0)
    &&& o.benchmark == bench
    &&& o.basket@ == basket
    &&& o.entry_date == dated.entry_date
    &&& o.exit_date == dated.exit_date
    &&& o.ranking is Some <==> ranked.len() >= MIN_RANKED
    &&& o.ranking matches Some(v) ==> v@ == ranked
}

/// What a logged entry came to over `horizon` bars. Nothing until every pick has that many bars, or
/// where cash was recommended and there is no benchmark to date it by.
pub fn evaluate_entry(
    entry: &ForwardEntry,
    store: &PriceStore,
    benchmark: Option<&PriceSeries>,
    horizon: usize,
) -> (r: Option<Outcome>)
    ensures
        r is Some <==> settled(*entry, store@, benchmark, horizon as int),
        r matches Some(o) ==> comes_to(*entry, store@, benchmark, horizon as int, o),
{
    let bench: Option<Hold> = match benchmark {
        Some(b) => hold_return(b, entry.data_through, horizon),
        None => None,
    };
    let ranked: Vec<ScoredHold> = rank_holds(entry, store, horizon);
    let ranking: Option<Vec<ScoredHold>> = if ranked.len() >= MIN_RANKED {
        Some(ranked)
    } else {
        None
    };
    if entry.picks.len() == 0 {
        return match bench {
            Some(b) => {
                let basket: Vec<Hold> = Vec::new();
                proof {
                    assert(basket@ =~= pick_holds(
                        entry.picks@,
                        store@,
                        entry.data_through.days as int,
                        horizon as int,
                    ));
                }
                Some(
                    Outcome {
                        as_of: entry.as_of,
                        entry_date: b.entry_date,
                        exit_date: b.exit_date,
                        in_cash: true,
                        basket,
                        benchmark: bench,
                        ranking,
                    },
                )
            },
            None => None,
        };
    }
    match basket_holds(entry, store, horizon) {
        Some(basket) => {
            let first: Hold = basket[0];
            Some(
                Outcome {
                    as_of: entry.as_of,
                    entry_date: first.entry_date,
                    exit_date: first.exit_date,
                    in_cash: false,
                    basket,
                    benchmark: bench,
                    ranking,
                },
            )
        },
        None => None,
    }
}

/// Positions of a list in increasing order.
pub open spec fn increasing(idx: Seq<int>, n: int) -> bool {
    &&& forall|i: int, j: int| 0 <= i < j < idx.len() ==> (#[trigger] idx[i]) < (#[trigger] idx[j])
    &&& forall|i: int| 0 <= i < idx.len() ==> 0 <= (#[trigger] idx[i]) < n
}

/// Whether `out` is what the entries of a log came to, `idx` listing those that can be evaluated.
pub open spec fn evaluated(
    log: Seq<ForwardEntry>,
    m: Map<Seq<char>, Seq<PriceBar>>,
    benchmark: Option<&PriceSeries>,
    horizon: int,
    idx: Seq<int>,
    out: Seq<Outcome>,
) -> bool {
    &&& increasing(idx, log.len() as int)
    &&& idx.len() == out.len()
    &&& forall|i: int|
        0 <= i < log.len() ==> (settled(#[trigger] log[i], m, benchmark, horizon) <==> idx.contains(
            i,
        ))
    &&& forall|k: int|
        0 <= k < idx.len() ==> comes_to(
            log[#[trigger] idx[k]],
            m,
            benchmark,
            horizon,
            out[k],
        )
}

/// What the entries of a log came to, in their order, and how many are still pending.
pub fn evaluate_log(
    log: &Vec<ForwardEntry>,
    store: &PriceStore,
    benchmark: Option<&PriceSeries>,
    horizon: usize,
) -> (r: (Vec<Outcome>, usize))
    ensures
        exists|idx: Seq<int>| #[trigger]
            evaluated(log@, store@, benchmark, horizon as int, idx, r.0@),
        r.0@.len() + r.1 == log@.len(),
{
    let mut out: Vec<Outcome> = Vec::new();
    let ghost mut idx: Seq<int> = seq![];
    let mut i: usize = 0;
    proof {
        assert(log@.take(0) =~= seq![]);
    }
    while i < log.len()
        invariant
            i <= log@.len(),
            out@.len() <= i,
            evaluated(log@.take(i as int), store@, benchmark, horizon as int, idx, out@),
        decreases log@.len() - i,
    {
        let ghost before = (idx, out@);
        let ghost done = log@.take(i as int);
        let ghost more = log@.take(i + 1);
        proof {
            assert(more =~= done.push(log@[i as int]));
        }
        match evaluate_entry(&log[i], store, benchmark, horizon) {
            Some(o) => {
                out.push(o);
                proof {
                    idx = idx.push(i as int);
                }
            },
            None => {},
        }
        proof {
            assert forall|k: int| 0 <= k < more.len() implies (settled(
                #[trigger] more[k],
                store@,
                benchmark,
                horizon as int,
            ) <==> idx.contains(k)) by {
                if k < i {
                    assert(more[k] == done[k]);
                    if before.0.contains(k) {
                        let q = choose|q: int| 0 <= q < before.0.len() && before.0[q] == k;
                        assert(idx[q] == k);
                    }
                    if idx.contains(k) {
                        let q = choose|q: int| 0 <= q < idx.len() && idx[q] == k;
                        assert(before.0[q] == k);
                    }
                } else {
                    if idx.len() > before.0.len() {
                        assert(idx[before.0.len() as int] == k);
                    } else if idx.contains(k) {
                        let q = choose|q: int| 0 <= q < idx.len() && idx[q] == k;
                        assert(before.0[q] < done.len());
                    }
                }
            }
            assert forall|k: int| 0 <= k < idx.len() implies comes_to(
                more[#[trigger] idx[k]],
                store@,
                benchmark,
                horizon as int,
                out@[k],
            ) by {
                if k < before.0.len() {
                    assert(before.0[k] < done.len());
                    assert(more[idx[k]] == done[before.0[k]]);
                }
            }
        }
        i = i + 1;
    }
    proof {
        assert(log@.take(log@.len() as int) =~= log@);
    }
    let pending: usize = log.len() - out.len();
    let r: (Vec<Outcome>, usize) = (out, pending);
    proof {
        assert(evaluated(log@, store@, benchmark, horizon as int, idx, r.0@));
    }
    r
}

// ── Open calls ───────────────────────────────────────────────────────────────

/// A position that is still open: its return so far is `latest_close / entry_open - 1`.
#[derive(Clone, Copy, Debug, PartialEq, Eq, Structural)]
pub struct Mark {
    pub entry_date: Date,
    pub as_of: Date,
    pub entry_open: Number,
    pub latest_close: Number,
    /// Bars since entry, the entry bar included.
    pub trading_days_held: usize,
}

/// Buying at the open of the first bar after a day and marking to the latest close; nothing before
/// a bar has followed the entry or where the open is no price.
pub open spec fn marked(s: Seq<PriceBar>, after: int) -> Option<Mark> {
    let i = prices::through(s, after);
    if i >= s.len() || s.last().date.days <= s[i].date.days || !s[i].adj_open.positive() {
        None
    } else {
        Some(
            Mark {
                entry_date: s[i].date,
                as_of: s.last().date,
                entry_open: s[i].adj_open,
                latest_close: s.last().adj_close,
                trading_days_held: (s.len() - i) as usize,
            },
        )
    }
}

/// The position entered at the first open after `after`, marked to the latest close.
pub fn mark_to_market(series: &PriceSeries, after: Date) -> (r: Option<Mark>)
    ensures
        r == marked(series@, after.days as int),
{
    let bars: &Vec<PriceBar> = series.bars();
    let i: usize = series.next_index(after);
    if i >= bars.len() {
        return None;
    }
    let entry: PriceBar = bars[i];
    let latest: PriceBar = bars[bars.len() - 1];
    if latest.date.days <= entry.date.days || !entry.adj_open.is_positive() {
        return None;
    }
    Some(
        Mark {
            entry_date: entry.date,
            as_of: latest.date,
            entry_open: entry.adj_open,
            latest_close: latest.adj_close,
            trading_days_held: bars.len() - i,
        },
    )
}

/// A pick and where it stands.
#[derive(Debug)]
pub struct PickStatus {
    pub ticker: String,
    pub mark: Mark,
}

/// What a pick's status says.
pub open spec fn status_view(p: PickStatus) -> (Seq<char>, Mark) {
    (p.ticker@, p.mark)
}

/// Where a logged entry stands.
#[derive(Debug)]
pub struct EntryStatus {
    pub logged_on: Date,
    pub in_cash: bool,
    pub picks: Vec<PickStatus>,
    pub benchmark: Option<Mark>,
    /// Whether every pick has been held for the horizon; cash has nothing to wait for.
    pub matured: bool,
}

/// The picks that have been entered.
pub open spec fn entered(
    s: Seq<LoggedPick>,
    m: Map<Seq<char>, Seq<PriceBar>>,
    after: int,
) -> Seq<(Seq<char>, Mark)>
    decreases s.len(),
{
    if s.len() == 0 {
        seq![]
    } else {
        let rest = entered(s.drop_last(), m, after);
        let t = s.last().ticker@;
        if m.contains_key(t) && marked(m[t], after) is Some {
            rest.push((t, marked(m[t], after)->0))
        } else {
            rest
        }
    }
}

/// Whether all of `n` picks have been entered and held for the horizon.
pub open spec fn all_held(s: Seq<(Seq<char>, Mark)>, n: nat, horizon: int) -> bool {
    s.len() == n && forall|i: int|
        0 <= i < s.len() ==> (#[trigger] s[i]).1.trading_days_held >= horizon
}

/// Where a logged entry stands today, whatever has traded since: no need to wait for the horizon.
pub fn status_entry(
    entry: &ForwardEntry,
    store: &PriceStore,
    benchmark: Option<&PriceSeries>,
    horizon: usize,
) -> (r: EntryStatus)
    ensures
        r.logged_on == entry.as_of,
        r.in_cash == (entry.picks@.len() == 0),
        r.picks@.map_values(|p: PickStatus| status_view(p)) == entered(
            entry.picks@,
            store@,
            entry.data_through.days as int,
        ),
        r.benchmark == (match benchmark {
            Some(b) => marked(b@, entry.data_through.days as int),
            None => None,
        }),
        r.matured == (r.in_cash || all_held(
            entered(entry.picks@, store@, entry.data_through.days as int),
            entry.picks@.len(),
            horizon as int,
        )),
{
    let bench: Option<Mark> = match benchmark {
        Some(b) => mark_to_market(b, entry.data_through),
        None => None,
    };
    let ghost after = entry.data_through.days as int;
    let ghost see = |p: PickStatus| status_view(p);
    let mut picks: Vec<PickStatus> = Vec::new();
    let mut all: bool = true;
    let mut i: usize = 0;
    proof {
        assert(entry.picks@.take(0) =~= seq![]);
        assert(picks@.map_values(see) =~= entered(entry.picks@.take(0), store@, after));
    }
    while i < entry.picks.len()
        invariant
            i <= entry.picks@.len(),
            after == entry.data_through.days,
            see == (|p: PickStatus| status_view(p)),
            picks@.map_values(see) == entered(entry.picks@.take(i as int), store@, after),
            all == (forall|k: int|
                0 <= k < picks@.len() ==> (#[trigger] picks@[k]).mark.trading_days_held >= horizon),
        decreases entry.picks@.len() - i,
    {
        let ghost before = picks@;
        proof {
            assert(entry.picks@.take(i + 1).drop_last() =~= entry.picks@.take(i as int));
            assert(entry.picks@.take(i + 1).last() == entry.picks@[i as int]);
        }
        let mark: Option<Mark> = match store.get(entry.picks[i].ticker.as_str()) {
            Some(series) => mark_to_market(series, entry.data_through),
            None => None,
        };
        match mark {
            Some(mark) => {
                let status: PickStatus = PickStatus {
                    ticker: entry.picks[i].ticker.clone(),
                    mark,
                };
                all = all && mark.trading_days_held >= horizon;
                picks.push(status);
                proof {
                    assert(picks@.map_values(see) =~= before.map_values(see).push(
                        (entry.picks@[i as int].ticker@, mark),
                    ));
                    assert(forall|k: int| 0 <= k < before.len() ==> picks@[k] == before[k]);
                    assert(picks@[before.len() as int].mark == mark);
                    if !(forall|k: int|
                        0 <= k < before.len() ==> (#[trigger] before[k]).mark.trading_days_held
                            >= horizon) {
                        let k = choose|k: int|
                            0 <= k < before.len() && (
                            #[trigger] before[k]).mark.trading_days_held < horizon;
                        assert(picks@[k] == before[k]);
                    }
                }
            },
            None => {},
        }
        i = i + 1;
    }
    proof {
        assert(entry.picks@.take(entry.picks@.len() as int) =~= entry.picks@);
        let e = entered(entry.picks@, store@, after);
        assert(e.len() == picks@.len());
        assert forall|k: int| 0 <= k < picks@.len() implies (#[trigger] e[k]).1 == picks@[k].mark by {
            assert(picks@.map_values(see)[k] == status_view(picks@[k]));
        }
        if all {
            assert forall|k: int| 0 <= k < e.len() implies (#[trigger] e[k]).1.trading_days_held
                >= horizon by {
                assert(picks@[k].mark.trading_days_held >= horizon);
            }
        } else {
            let k = choose|k: int|
                0 <= k < picks@.len() && (#[trigger] picks@[k]).mark.trading_days_held < horizon;
            assert(e[k].1.trading_days_held < horizon);
        }
    }
    let in_cash: bool = entry.picks.len() == 0;
    let matured: bool = in_cash || (picks.len() == entry.picks.len() && all);
    EntryStatus { logged_on: entry.as_of, in_cash, picks, benchmark: bench, matured }
}

proof fn lemma_entered(s: Seq<LoggedPick>, m: Map<Seq<char>, Seq<PriceBar>>, after: int)
    ensures
        entered(s, m, after).len() <= s.len(),
        entered(s, m, after).len() == s.len() ==> forall|i: int|
            0 <= i < s.len() ==> m.contains_key((#[trigger] s[i]).ticker@) && marked(
                m[s[i].ticker@],
                after,
            ) == Some(entered(s, m, after)[i].1),
    decreases s.len(),
{
    if s.len() > 0 {
        let init = s.drop_last();
        lemma_entered(init, m, after);
        if entered(s, m, after).len() == s.len() {
            assert forall|i: int| 0 <= i < s.len() implies m.contains_key(
                (#[trigger] s[i]).ticker@,
            ) && marked(m[s[i].ticker@], after) == Some(entered(s, m, after)[i].1) by {
                if i < init.len() {
                    assert(init[i] == s[i]);
                }
            }
        }
    }
}

/// An entry with picks that no longer waits for its horizon can be evaluated: it does not drop out
/// of both reports.
pub proof fn what_is_not_open_is_evaluated(
    entry: ForwardEntry,
    m: Map<Seq<char>, Seq<PriceBar>>,
    benchmark: Option<&PriceSeries>,
    horizon: int,
)
    requires
        entry.picks@.len() > 0,
        horizon >= 1,
        forall|t: Seq<char>|
            m.contains_key(t) ==> (#[trigger] m[t]).len() <= usize::MAX && prices::dates_increase(
                m[t],
            ),
        !still_open(entry, m, horizon),
    ensures
        settled(entry, m, benchmark, horizon),
{
    let after = entry.data_through.days as int;
    let all = entered(entry.picks@, m, after);
    lemma_entered(entry.picks@, m, after);
    assert forall|i: int| 0 <= i < entry.picks@.len() implies store_hold(
        m,
        (#[trigger] entry.picks@[i]).ticker@,
        after,
        horizon,
    ) is Some by {
        let bars = m[entry.picks@[i].ticker@];
        assert(all[i].1.trading_days_held >= horizon);
        prices::lemma_through(bars, after);
    }
}

/// Whether a logged entry still waits for its horizon.
pub open spec fn still_open(
    entry: ForwardEntry,
    m: Map<Seq<char>, Seq<PriceBar>>,
    horizon: int,
) -> bool {
    entry.picks@.len() > 0 && !all_held(
        entered(entry.picks@, m, entry.data_through.days as int),
        entry.picks@.len(),
        horizon,
    )
}

/// Positions of the entries that still wait for their horizon, of the first `n`.
pub open spec fn open_places(
    s: Seq<ForwardEntry>,
    m: Map<Seq<char>, Seq<PriceBar>>,
    horizon: int,
    n: int,
) -> Seq<int>
    decreases n,
{
    if n <= 0 {
        seq![]
    } else if still_open(s[n - 1], m, horizon) {
        open_places(s, m, horizon, n - 1).push(n - 1)
    } else {
        open_places(s, m, horizon, n - 1)
    }
}

/// Whether a status is that of an entry.
pub open spec fn is_status_of(
    x: EntryStatus,
    entry: ForwardEntry,
    m: Map<Seq<char>, Seq<PriceBar>>,
    benchmark: Option<&PriceSeries>,
) -> bool {
    &&& x.logged_on == entry.as_of
    &&& x.picks@.map_values(|p: PickStatus| status_view(p)) == entered(
        entry.picks@,
        m,
        entry.data_through.days as int,
    )
    &&& x.benchmark == (match benchmark {
        Some(b) => marked(b@, entry.data_through.days as int),
        None => None,
    })
}

/// Where every logged entry stands that still waits for its horizon; the others are settled, or
/// recommended cash.
pub fn status(
    log: &Vec<ForwardEntry>,
    store: &PriceStore,
    benchmark: Option<&PriceSeries>,
    horizon: usize,
) -> (r: Vec<EntryStatus>)
    ensures
        ({
            let places = open_places(log@, store@, horizon as int, log@.len() as int);
            r@.len() == places.len() && forall|k: int|
                0 <= k < r@.len() ==> is_status_of(
                    #[trigger] r@[k],
                    log@[places[k]],
                    store@,
                    benchmark,
                ) && !r@[k].in_cash && !r@[k].matured
        }),
{
    let mut out: Vec<EntryStatus> = Vec::new();
    let mut i: usize = 0;
    while i < log.len()
        invariant
            i <= log@.len(),
            ({
                let places = open_places(log@, store@, horizon as int, i as int);
                out@.len() == places.len() && forall|k: int|
                    0 <= k < out@.len() ==> is_status_of(
                        #[trigger] out@[k],
                        log@[places[k]],
                        store@,
                        benchmark,
                    ) && !out@[k].in_cash && !out@[k].matured
            }),
        decreases log@.len() - i,
    {
        let x: EntryStatus = status_entry(&log[i], store, benchmark, horizon);
        if !x.matured {
            out.push(x);
        }
        i = i + 1;
    }
    out
}

// ── What to load ─────────────────────────────────────────────────────────────

/// The first day that the entries of a log could see data through, or `today` for an empty log.
pub fn earliest_data(log: &Vec<ForwardEntry>, today: Date) -> (r: Date)
    ensures
        log@.len() == 0 ==> r == today,
        log@.len() > 0 ==> exists|i: int|
            0 <= i < log@.len() && (#[trigger] log@[i]).data_through == r,
        forall|i: int| 0 <= i < log@.len() ==> r.days <= (#[trigger] log@[i]).data_through.days,
{
    if log.len() == 0 {
        return today;
    }
    let mut best: Date = log[0].data_through;
    let mut i: usize = 1;
    proof {
        assert(log@[0].data_through == best);
    }
    while i < log.len()
        invariant
            1 <= i <= log@.len(),
            exists|k: int| 0 <= k < log@.len() && (#[trigger] log@[k]).data_through == best,
            forall|k: int| 0 <= k < i ==> best.days <= (#[trigger] log@[k]).data_through.days,
        decreases log@.len() - i,
    {
        if log[i].data_through.days < best.days {
            best = log[i].data_through;
            proof {
                assert(log@[i as int].data_through == best);
            }
        }
        i = i + 1;
    }
    best
}

/// Whether an entry names a ticker among its picks or, where asked, in its ranking.
pub open spec fn names(e: ForwardEntry, t: Seq<char>, whole: bool) -> bool {
    (exists|k: int| 0 <= k < e.picks@.len() && (#[trigger] e.picks@[k]).ticker@ == t) || (whole
        && exists|k: int| 0 <= k < e.ranking@.len() && (#[trigger] e.ranking@[k]).ticker@ == t)
}

/// Puts the tickers that an entry names into a sorted list.
fn put_tickers(out: &mut Vec<String>, e: &ForwardEntry, whole: bool)
    requires
        order::strictly_sorted(text::texts(old(out)@)),
    ensures
        order::strictly_sorted(text::texts(final(out)@)),
        forall|t: Seq<char>| #[trigger]
            text::texts(final(out)@).contains(t) <==> text::texts(old(out)@).contains(t) || names(
                *e,
                t,
                whole,
            ),
{
    let ghost start = text::texts(out@);
    let mut i: usize = 0;
    while i < e.picks.len()
        invariant
            i <= e.picks@.len(),
            order::strictly_sorted(text::texts(out@)),
            forall|t: Seq<char>| #[trigger]
                text::texts(out@).contains(t) <==> start.contains(t) || exists|k: int|
                    0 <= k < i && (#[trigger] e.picks@[k]).ticker@ == t,
        decreases e.picks@.len() - i,
    {
        let ghost before = text::texts(out@);
        order::insert_sorted(out, e.picks[i].ticker.as_str());
        proof {
            assert forall|t: Seq<char>| #[trigger]
                text::texts(out@).contains(t) <==> start.contains(t) || exists|k: int|
                    0 <= k < i + 1 && (#[trigger] e.picks@[k]).ticker@ == t by {
                assert(before.contains(t) <==> start.contains(t) || exists|k: int|
                    0 <= k < i && (#[trigger] e.picks@[k]).ticker@ == t);
                if t == e.picks@[i as int].ticker@ {
                    assert(e.picks@[i as int].ticker@ == t);
                }
            }
        }
        i = i + 1;
    }
    if whole {
        let ghost mid = text::texts(out@);
        let mut j: usize = 0;
        while j < e.ranking.len()
            invariant
                j <= e.ranking@.len(),
                order::strictly_sorted(text::texts(out@)),
                forall|t: Seq<char>| #[trigger]
                    text::texts(out@).contains(t) <==> mid.contains(t) || exists|k: int|
                        0 <= k < j && (#[trigger] e.ranking@[k]).ticker@ == t,
            decreases e.ranking@.len() - j,
        {
            let ghost before = text::texts(out@);
            order::insert_sorted(out, e.ranking[j].ticker.as_str());
            proof {
                assert forall|t: Seq<char>| #[trigger]
                    text::texts(out@).contains(t) <==> mid.contains(t) || exists|k: int|
                        0 <= k < j + 1 && (#[trigger] e.ranking@[k]).ticker@ == t by {
                    assert(before.contains(t) <==> mid.contains(t) || exists|k: int|
                        0 <= k < j && (#[trigger] e.ranking@[k]).ticker@ == t);
                    if t == e.ranking@[j as int].ticker@ {
                        assert(e.ranking@[j as int].ticker@ == t);
                    }
                }
            }
            j = j + 1;
        }
        proof {
            assert forall|t: Seq<char>| #[trigger]
                text::texts(out@).contains(t) <==> start.contains(t) || names(*e, t, whole) by {
                assert(text::texts(out@).contains(t) <==> mid.contains(t) || exists|k: int|
                    0 <= k < e.ranking@.len() && (#[trigger] e.ranking@[k]).ticker@ == t);
                assert(mid.contains(t) <==> start.contains(t) || exists|k: int|
                    0 <= k < e.picks@.len() && (#[trigger] e.picks@[k]).ticker@ == t);
            }
        }
    }
}

/// The tickers to load prices for, in increasing order: those picked in any entry and, where
/// `whole` is set, those ranked in any.
pub fn tickers_to_load(log: &Vec<ForwardEntry>, whole: bool) -> (r: Vec<String>)
    ensures
        order::strictly_sorted(text::texts(r@)),
        forall|t: Seq<char>| #[trigger]
            text::texts(r@).contains(t) <==> exists|i: int|
                0 <= i < log@.len() && names(#[trigger] log@[i], t, whole),
{
    let mut out: Vec<String> = Vec::new();
    let mut i: usize = 0;
    proof {
        assert(text::texts(out@) =~= Seq::<Seq<char>>::empty());
    }
    while i < log.len()
        invariant
            i <= log@.len(),
            order::strictly_sorted(text::texts(out@)),
            forall|t: Seq<char>| #[trigger]
                text::texts(out@).contains(t) <==> exists|k: int|
                    0 <= k < i && names(#[trigger] log@[k], t, whole),
        decreases log@.len() - i,
    {
        let ghost before = text::texts(out@);
        put_tickers(&mut out, &log[i], whole);
        proof {
            assert forall|t: Seq<char>| #[trigger]
                text::texts(out@).contains(t) <==> exists|k: int|
                    0 <= k < i + 1 && names(#[trigger] log@[k], t, whole) by {
                assert(text::texts(out@).contains(t) <==> before.contains(t) || names(
                    log@[i as int],
                    t,
                    whole,
                ));
                assert(before.contains(t) <==> exists|k: int|
                    0 <= k < i && names(#[trigger] log@[k], t, whole));
                if names(log@[i as int], t, whole) {
                    assert(names(log@[i as int], t, whole));
                }
            }
        }
        i = i + 1;
    }
    out
}

/// How many outcomes were cash.
pub open spec fn cash_count(s: Seq<Outcome>, n: int) -> int
    decreases n,
{
    if n <= 0 {
        0
    } else {
        cash_count(s, n - 1) + if s[n - 1].in_cash {
            1int
        } else {
            0
        }
    }
}

/// How many outcomes were cash.
pub fn cash_entries(outcomes: &Vec<Outcome>) -> (r: usize)
    ensures
        r == cash_count(outcomes@, outcomes@.len() as int),
{
    let mut n: usize = 0;
    let mut i: usize = 0;
    while i < outcomes.len()
        invariant
            i <= outcomes@.len(),
            n <= i,
            n == cash_count(outcomes@, i as int),
        decreases outcomes@.len() - i,
    {
        if outcomes[i].in_cash {
            n = n + 1;
        }
        i = i + 1;
    }
    n
}

// ── What is bought and sold, and when ────────────────────────────────────────

/// A pick is bought at the adjusted open of the first bar after the data that it was made from, and
/// sold at the adjusted close of the bar that the horizon counts to, the first bar being one.
/// Buying and selling are on one scale, whatever the unadjusted prices are; there is no result
/// exactly while fewer bars have come than the horizon asks for, or where the open is no price.
pub proof fn a_hold_runs_from_the_next_open_to_the_close_of_the_horizon(
    series: PriceSeries,
    after: Date,
    horizon: usize,
    r: Option<Hold>,
    k: int,
)
    requires
        call_ensures(hold_return, (&series, after, horizon), r),
        prices::dates_increase(series@),
        horizon >= 1,
        0 <= k <= series@.len(),
        k > 0 ==> series@[k - 1].date.days <= after.days,
        k < series@.len() ==> series@[k].date.days > after.days,
    ensures
        r is Some <==> k + horizon <= series@.len() && 0 < series@[k].adj_open.bits
            < 0x7FF0_0000_0000_0000,
        r matches Some(h) ==> {
            &&& h.entry_open == series@[k].adj_open
            &&& h.entry_date == series@[k].date
            &&& h.exit_close == series@[k + horizon - 1].adj_close
            &&& h.exit_date == series@[k + horizon - 1].date
        },
{
    prices::lemma_split(series@, after.days as int, k);
}

/// A hold does not depend on unadjusted prices.
pub proof fn holds_ignore_unadjusted_prices(
    a: PriceSeries,
    b: PriceSeries,
    after: Date,
    horizon: usize,
    ra: Option<Hold>,
    rb: Option<Hold>,
)
    requires
        call_ensures(hold_return, (&a, after, horizon), ra),
        call_ensures(hold_return, (&b, after, horizon), rb),
        prices::adjusted_alike(a@, b@),
    ensures
        ra == rb,
{
    prices::lemma_through_alike(a@, b@, after.days as int);
    let i = prices::through(a@, after.days as int);
    if 0 <= i < a@.len() {
        assert(a@[i].adj_open == b@[i].adj_open);
    }
    if horizon >= 1 && i + horizon <= a@.len() {
        assert(a@[i + horizon - 1].adj_close == b@[i + horizon - 1].adj_close);
    }
}

/// An open position is bought like a settled one and marked at the adjusted close of the latest
/// bar, once a bar has followed the first; the bars since are counted with the first.
pub proof fn a_mark_runs_from_the_next_open_to_the_latest_close(
    series: PriceSeries,
    after: Date,
    r: Option<Mark>,
    k: int,
)
    requires
        call_ensures(mark_to_market, (&series, after), r),
        prices::dates_increase(series@),
        series@.len() <= usize::MAX,
        0 <= k <= series@.len(),
        k > 0 ==> series@[k - 1].date.days <= after.days,
        k < series@.len() ==> series@[k].date.days > after.days,
    ensures
        r is Some <==> k + 1 < series@.len() && 0 < series@[k].adj_open.bits
            < 0x7FF0_0000_0000_0000,
        r matches Some(m) ==> {
            &&& m.entry_open == series@[k].adj_open
            &&& m.entry_date == series@[k].date
            &&& m.latest_close == series@[series@.len() - 1].adj_close
            &&& m.as_of == series@[series@.len() - 1].date
            &&& m.trading_days_held == series@.len() - k
        },
{
    prices::lemma_split(series@, after.days as int, k);
    if k + 1 < series@.len() {
        assert(series@[k].date.days < series@[series@.len() - 1].date.days);
    }
}

/// A mark does not depend on unadjusted prices.
pub proof fn marks_ignore_unadjusted_prices(
    a: PriceSeries,
    b: PriceSeries,
    after: Date,
    ra: Option<Mark>,
    rb: Option<Mark>,
)
    requires
        call_ensures(mark_to_market, (&a, after), ra),
        call_ensures(mark_to_market, (&b, after), rb),
        prices::adjusted_alike(a@, b@),
    ensures
        ra == rb,
{
    prices::lemma_through_alike(a@, b@, after.days as int);
    let i = prices::through(a@, after.days as int);
    let last = a@.len() - 1;
    if 0 <= i < a@.len() {
        assert(a@[i].adj_open == b@[i].adj_open);
        assert(a@[last].adj_close == b@[last].adj_close);
        assert(a@[last].date == b@[last].date);
    }
}

/// A position that is marked on the last day of its horizon is what it is settled at: the same
/// entry, and the latest close is the closing price.
pub proof fn a_mature_mark_agrees_with_the_settlement(
    series: PriceSeries,
    after: Date,
    mark: Mark,
    hold: Option<Hold>,
)
    requires
        call_ensures(mark_to_market, (&series, after), Some(mark)),
        call_ensures(hold_return, (&series, after, mark.trading_days_held), hold),
        prices::dates_increase(series@),
        series@.len() <= usize::MAX,
    ensures
        hold == Some(
            (Hold {
                entry_date: mark.entry_date,
                exit_date: mark.as_of,
                entry_open: mark.entry_open,
                exit_close: mark.latest_close,
            }),
        ),
{
    prices::lemma_through(series@, after.days as int);
}

/// The outcome of an entry holds, for every pick in its place, what holding that pick from the data
/// of the entry on came to; the benchmark is held over the same horizon. Cash is recommended where
/// there is no pick.
pub proof fn outcomes_hold_each_pick(
    entry: ForwardEntry,
    store: PriceStore,
    benchmark: Option<&PriceSeries>,
    horizon: usize,
    o: Outcome,
    i: int,
    series: PriceSeries,
    h: Option<Hold>,
    bench: Option<Hold>,
)
    requires
        call_ensures(evaluate_entry, (&entry, &store, benchmark, horizon), Some(o)),
        0 <= i < entry.picks@.len() ==> store@.contains_key(entry.picks@[i].ticker@)
            && store@[entry.picks@[i].ticker@] == series@ && call_ensures(
            hold_return,
            (&series, entry.data_through, horizon),
            h,
        ),
        benchmark matches Some(b) ==> call_ensures(
            hold_return,
            (b, entry.data_through, horizon),
            bench,
        ),
    ensures
        o.as_of == entry.as_of,
        o.in_cash <==> entry.picks@.len() == 0,
        o.basket@.len() == entry.picks@.len(),
        0 <= i < entry.picks@.len() ==> h == Some(o.basket@[i]),
        benchmark is Some ==> o.benchmark == bench,
        benchmark is None ==> o.benchmark is None,
        o.in_cash ==> (o.benchmark matches Some(b) && o.entry_date == b.entry_date && o.exit_date
            == b.exit_date),
        !o.in_cash ==> o.entry_date == o.basket@[0].entry_date && o.exit_date
            == o.basket@[0].exit_date,
{
    if 0 <= i < entry.picks@.len() {
        assert(store_hold(
            store@,
            entry.picks@[i].ticker@,
            entry.data_through.days as int,
            horizon as int,
        ) == h);
    }
}

/// The ranking of an outcome pairs scores with holds: as many as have matured, each with the score
/// of its own name, and only where there are at least twenty.
pub proof fn ranked_holds_keep_their_scores(
    entry: ForwardEntry,
    store: PriceStore,
    benchmark: Option<&PriceSeries>,
    horizon: usize,
    o: Outcome,
)
    requires
        call_ensures(evaluate_entry, (&entry, &store, benchmark, horizon), Some(o)),
    ensures
        o.ranking matches Some(v) ==> v@.len() >= 20 && forall|k: int|
            0 <= k < v@.len() ==> exists|i: int|
                0 <= i < entry.ranking@.len() && (#[trigger] entry.ranking@[i]).composite == (
                #[trigger] v@[k]).composite && store_hold(
                    store@,
                    entry.ranking@[i].ticker@,
                    entry.data_through.days as int,
                    horizon as int,
                ) == Some(v@[k].hold),
        (forall|i: int|
            0 <= i < entry.ranking@.len() ==> store_hold(
                store@,
                (#[trigger] entry.ranking@[i]).ticker@,
                entry.data_through.days as int,
                horizon as int,
            ) is Some) && entry.ranking@.len() >= 20 ==> (o.ranking matches Some(v) && v@.len()
            == entry.ranking@.len()),
{
    lemma_matured(entry.ranking@, store@, entry.data_through.days as int, horizon as int);
}

proof fn lemma_matured(
    s: Seq<RankedName>,
    m: Map<Seq<char>, Seq<PriceBar>>,
    after: int,
    horizon: int,
)
    ensures
        forall|k: int|
            0 <= k < matured_ranking(s, m, after, horizon).len() ==> exists|i: int|
                0 <= i < s.len() && (#[trigger] s[i]).composite == (#[trigger] matured_ranking(
                    s,
                    m,
                    after,
                    horizon,
                )[k]).composite && store_hold(m, s[i].ticker@, after, horizon) == Some(
                    matured_ranking(s, m, after, horizon)[k].hold,
                ),
        (forall|i: int|
            0 <= i < s.len() ==> store_hold(m, (#[trigger] s[i]).ticker@, after, horizon) is Some)
            ==> matured_ranking(s, m, after, horizon).len() == s.len(),
    decreases s.len(),
{
    if s.len() > 0 {
        let init = s.drop_last();
        lemma_matured(init, m, after, horizon);
        let all = matured_ranking(s, m, after, horizon);
        let rest = matured_ranking(init, m, after, horizon);
        assert forall|k: int| 0 <= k < all.len() implies exists|i: int|
            0 <= i < s.len() && (#[trigger] s[i]).composite == (#[trigger] all[k]).composite
                && store_hold(m, s[i].ticker@, after, horizon) == Some(all[k].hold) by {
            if k < rest.len() {
                assert(all[k] == rest[k]);
                let i = choose|i: int|
                    0 <= i < init.len() && (#[trigger] init[i]).composite == rest[k].composite
                        && store_hold(m, init[i].ticker@, after, horizon) == Some(rest[k].hold);
                assert(s[i] == init[i]);
            } else {
                assert(s[s.len() - 1].composite == all[k].composite);
            }
        }
        if forall|i: int|
            0 <= i < s.len() ==> store_hold(m, (#[trigger] s[i]).ticker@, after, horizon) is Some {
            assert forall|i: int| 0 <= i < init.len() implies store_hold(
                m,
                (#[trigger] init[i]).ticker@,
                after,
                horizon,
            ) is Some by {
                assert(s[i] == init[i]);
            }
            assert(store_hold(m, s[s.len() - 1].ticker@, after, horizon) is Some);
        }
    }
}

/// Cash outcomes are counted one by one, over lists one after the other as over the parts.
pub proof fn cash_outcomes_add_up(
    a: Vec<Outcome>,
    b: Vec<Outcome>,
    both: Vec<Outcome>,
    ra: usize,
    rb: usize,
    r: usize,
)
    requires
        call_ensures(cash_entries, (&a,), ra),
        call_ensures(cash_entries, (&b,), rb),
        call_ensures(cash_entries, (&both,), r),
        both@ == a@ + b@,
    ensures
        r == ra + rb,
        a@.len() == 1 ==> ra == (if a@[0].in_cash { 1int } else { 0int }),
{
    lemma_cash_of_both(a@, b@, b@.len() as int);
    reveal_with_fuel(cash_count, 2);
}

proof fn lemma_cash_of_both(a: Seq<Outcome>, b: Seq<Outcome>, n: int)
    requires
        0 <= n <= b.len(),
    ensures
        cash_count(a + b, a.len() + n) == cash_count(a, a.len() as int) + cash_count(b, n),
    decreases n,
{
    if n == 0 {
        lemma_cash_of_prefix(a, b, a.len() as int);
    } else {
        lemma_cash_of_both(a, b, n - 1);
        assert((a + b)[a.len() + n - 1] == b[n - 1]);
    }
}

proof fn lemma_cash_of_prefix(a: Seq<Outcome>, b: Seq<Outcome>, n: int)
    requires
        0 <= n <= a.len(),
    ensures
        cash_count(a + b, n) == cash_count(a, n),
    decreases n,
{
    if n > 0 {
        lemma_cash_of_prefix(a, b, n - 1);
        assert((a + b)[n - 1] == a[n - 1]);
    }
}

/// A pick's status is that of its own prices, marked from the data of the entry on; a pick that has
/// not been entered is left out, and an entry with picks has matured exactly where every pick has
/// been held for the horizon.
pub proof fn a_status_marks_the_entered_picks(
    entry: ForwardEntry,
    store: PriceStore,
    benchmark: Option<&PriceSeries>,
    horizon: usize,
    x: EntryStatus,
)
    requires
        call_ensures(status_entry, (&entry, &store, benchmark, horizon), x),
    ensures
        x.logged_on == entry.as_of,
        forall|k: int|
            0 <= k < x.picks@.len() ==> exists|i: int|
                0 <= i < entry.picks@.len() && (#[trigger] entry.picks@[i]).ticker@ == (
                #[trigger] x.picks@[k]).ticker@ && store@.contains_key(x.picks@[k].ticker@)
                    && marked(store@[x.picks@[k].ticker@], entry.data_through.days as int) == Some(
                    x.picks@[k].mark,
                ),
        x.picks@.len() <= entry.picks@.len(),
        entry.picks@.len() == 0 ==> x.matured && x.in_cash,
        entry.picks@.len() > 0 && x.matured ==> !x.in_cash && x.picks@.len() == entry.picks@.len()
            && forall|k: int|
                0 <= k < x.picks@.len() ==> (#[trigger] x.picks@[k]).mark.trading_days_held
                    >= horizon,
        entry.picks@.len() > 0 && !x.matured ==> x.picks@.len() < entry.picks@.len() || exists|
            k: int,
        |
            0 <= k < x.picks@.len() && (#[trigger] x.picks@[k]).mark.trading_days_held < horizon,
{
    let after = entry.data_through.days as int;
    let all = entered(entry.picks@, store@, after);
    lemma_entered_picks(entry.picks@, store@, after);
    let seen = x.picks@.map_values(|p: PickStatus| status_view(p));
    assert forall|k: int| 0 <= k < x.picks@.len() implies (#[trigger] x.picks@[k]).ticker@
        == all[k].0 && x.picks@[k].mark == all[k].1 by {
        assert(seen[k] == status_view(x.picks@[k]));
    }
    assert(all.len() == x.picks@.len());
    assert forall|k: int| 0 <= k < x.picks@.len() implies exists|i: int|
        0 <= i < entry.picks@.len() && (#[trigger] entry.picks@[i]).ticker@ == (
        #[trigger] x.picks@[k]).ticker@ && store@.contains_key(x.picks@[k].ticker@) && marked(
            store@[x.picks@[k].ticker@],
            after,
        ) == Some(x.picks@[k].mark) by {
        let i = choose|i: int|
            0 <= i < entry.picks@.len() && (#[trigger] entry.picks@[i]).ticker@ == all[k].0;
        assert(entry.picks@[i].ticker@ == x.picks@[k].ticker@);
    }
    if entry.picks@.len() > 0 && !x.matured && all.len() == entry.picks@.len() {
        let k = choose|k: int| 0 <= k < all.len() && (#[trigger] all[k]).1.trading_days_held < horizon;
        assert(x.picks@[k].mark.trading_days_held < horizon);
    }
}

proof fn lemma_entered_picks(s: Seq<LoggedPick>, m: Map<Seq<char>, Seq<PriceBar>>, after: int)
    ensures
        entered(s, m, after).len() <= s.len(),
        forall|k: int|
            0 <= k < entered(s, m, after).len() ==> m.contains_key(
                (#[trigger] entered(s, m, after)[k]).0,
            ) && marked(m[entered(s, m, after)[k].0], after) == Some(entered(s, m, after)[k].1)
                && exists|i: int|
                0 <= i < s.len() && (#[trigger] s[i]).ticker@ == entered(s, m, after)[k].0,
    decreases s.len(),
{
    if s.len() > 0 {
        let init = s.drop_last();
        lemma_entered_picks(init, m, after);
        let all = entered(s, m, after);
        let rest = entered(init, m, after);
        assert forall|k: int| 0 <= k < all.len() implies m.contains_key((#[trigger] all[k]).0)
            && marked(m[all[k].0], after) == Some(all[k].1) && exists|i: int|
            0 <= i < s.len() && (#[trigger] s[i]).ticker@ == all[k].0 by {
            if k < rest.len() {
                assert(all[k] == rest[k]);
                let i = choose|i: int|
                    0 <= i < init.len() && (#[trigger] init[i]).ticker@ == rest[k].0;
                assert(s[i] == init[i]);
            } else {
                assert(s[s.len() - 1].ticker@ == all[k].0);
            }
        }
    }
}

/// The outcomes of a log are those of its entries that have settled, each as it is evaluated by
/// itself and in the order of the log; every other entry is counted as pending.
pub proof fn a_log_settles_entry_by_entry(
    log: Vec<ForwardEntry>,
    store: PriceStore,
    benchmark: Option<&PriceSeries>,
    horizon: usize,
    r: (Vec<Outcome>, usize),
    i: int,
    entry: ForwardEntry,
    alone: Option<Outcome>,
) -> (idx: Seq<int>)
    requires
        call_ensures(evaluate_log, (&log, &store, benchmark, horizon), r),
        0 <= i < log@.len(),
        entry == log@[i],
        call_ensures(evaluate_entry, (&entry, &store, benchmark, horizon), alone),
    ensures
        idx.len() == r.0@.len(),
        idx.len() + r.1 == log@.len(),
        forall|j: int, k: int| 0 <= j < k < idx.len() ==> (#[trigger] idx[j]) < (#[trigger] idx[k]),
        forall|k: int| 0 <= k < idx.len() ==> 0 <= (#[trigger] idx[k]) < log@.len(),
        alone is Some <==> idx.contains(i),
        forall|k: int|
            0 <= k < idx.len() ==> comes_to(
                log@[#[trigger] idx[k]],
                store@,
                benchmark,
                horizon as int,
                r.0@[k],
            ),
{
    let args = (&log, &store, benchmark, horizon);
    let idx = choose|idx: Seq<int>| #[trigger]
        evaluated(args.0@, args.1@, args.2, args.3 as int, idx, r.0@);
    assert(settled(log@[i], store@, benchmark, horizon as int) <==> idx.contains(i));
    idx
}

proof fn lemma_open_places(
    s: Seq<ForwardEntry>,
    m: Map<Seq<char>, Seq<PriceBar>>,
    horizon: int,
    n: int,
)
    requires
        0 <= n <= s.len(),
    ensures
        forall|k: int|
            0 <= k < open_places(s, m, horizon, n).len() ==> 0 <= (#[trigger] open_places(
                s,
                m,
                horizon,
                n,
            )[k]) < n && still_open(s[open_places(s, m, horizon, n)[k]], m, horizon),
        forall|i: int|
            0 <= i < n && still_open(#[trigger] s[i], m, horizon) ==> open_places(
                s,
                m,
                horizon,
                n,
            ).contains(i),
    decreases n,
{
    if n > 0 {
        lemma_open_places(s, m, horizon, n - 1);
        let before = open_places(s, m, horizon, n - 1);
        let all = open_places(s, m, horizon, n);
        assert forall|i: int| 0 <= i < n && still_open(#[trigger] s[i], m, horizon) implies all.contains(
            i,
        ) by {
            if i < n - 1 {
                let k = choose|k: int| 0 <= k < before.len() && before[k] == i;
                assert(all[k] == i);
            } else {
                assert(all[before.len() as int] == i);
            }
        }
    }
}

/// An entry has an open status exactly where its status by itself is neither in cash nor mature.
pub proof fn only_open_entries_have_a_status(
    log: Vec<ForwardEntry>,
    store: PriceStore,
    benchmark: Option<&PriceSeries>,
    horizon: usize,
    r: Vec<EntryStatus>,
    i: int,
    entry: ForwardEntry,
    alone: EntryStatus,
)
    requires
        call_ensures(status, (&log, &store, benchmark, horizon), r),
        0 <= i < log@.len(),
        entry == log@[i],
        call_ensures(status_entry, (&entry, &store, benchmark, horizon), alone),
    ensures
        !alone.in_cash && !alone.matured ==> exists|k: int|
            0 <= k < r@.len() && (#[trigger] r@[k]).logged_on == alone.logged_on && r@[k].benchmark
                == alone.benchmark && r@[k].picks@.len() == alone.picks@.len(),
        forall|k: int| 0 <= k < r@.len() ==> !(#[trigger] r@[k]).in_cash && !r@[k].matured,
{
    let places = open_places(log@, store@, horizon as int, log@.len() as int);
    lemma_open_places(log@, store@, horizon as int, log@.len() as int);
    if !alone.in_cash && !alone.matured {
        assert(still_open(log@[i], store@, horizon as int));
        let k = choose|k: int| 0 <= k < places.len() && places[k] == i;
        assert(is_status_of(r@[k], log@[places[k]], store@, benchmark));
        let a = r@[k].picks@.map_values(|p: PickStatus| status_view(p));
        let b = alone.picks@.map_values(|p: PickStatus| status_view(p));
        assert(a == b);
        assert(a.len() == r@[k].picks@.len() && b.len() == alone.picks@.len());
    }
}

/// Prices are needed from the earliest day that any entry was made on, and of every ticker that an
/// entry picks and, where the whole ranking is wanted, ranks.
pub proof fn everything_named_is_loaded(
    log: Vec<ForwardEntry>,
    today: Date,
    from: Date,
    whole: bool,
    r: Vec<String>,
    i: int,
    k: int,
)
    requires
        call_ensures(earliest_data, (&log, today), from),
        call_ensures(tickers_to_load, (&log, whole), r),
        0 <= i < log@.len(),
    ensures
        from.days <= log@[i].data_through.days,
        exists|j: int| 0 <= j < log@.len() && (#[trigger] log@[j]).data_through == from,
        0 <= k < log@[i].picks@.len() ==> text::texts(r@).contains(log@[i].picks@[k].ticker@),
        whole && 0 <= k < log@[i].ranking@.len() ==> text::texts(r@).contains(
            log@[i].ranking@[k].ticker@,
        ),
        !whole ==> forall|m: int|
            0 <= m < r@.len() ==> exists|j: int, p: int|
                0 <= j < log@.len() && 0 <= p < log@[j].picks@.len() && (
                #[trigger] log@[j].picks@[p]).ticker@ == (#[trigger] r@[m])@,
{
    let first = (&log, today);
    assert(first.0@[i].data_through.days == log@[i].data_through.days);
    let j = choose|j: int| 0 <= j < first.0@.len() && (#[trigger] first.0@[j]).data_through == from;
    assert(log@[j].data_through == from);
    let args = (&log, whole);
    if 0 <= k < log@[i].picks@.len() {
        assert(names(args.0@[i], log@[i].picks@[k].ticker@, args.1));
        assert(text::texts(r@).contains(log@[i].picks@[k].ticker@));
    }
    if whole && 0 <= k < log@[i].ranking@.len() {
        assert(names(args.0@[i], log@[i].ranking@[k].ticker@, args.1));
        assert(text::texts(r@).contains(log@[i].ranking@[k].ticker@));
    }
    if !whole {
        assert forall|m: int| 0 <= m < r@.len() implies exists|j: int, p: int|
            0 <= j < log@.len() && 0 <= p < log@[j].picks@.len() && (
            #[trigger] log@[j].picks@[p]).ticker@ == (#[trigger] r@[m])@ by {
            assert(text::texts(r@)[m] == r@[m]@);
            assert(text::texts(r@).contains(r@[m]@));
            let j = choose|j: int| 0 <= j < log@.len() && names(#[trigger] log@[j], r@[m]@, whole);
            let p = choose|p: int|
                0 <= p < log@[j].picks@.len() && (#[trigger] log@[j].picks@[p]).ticker@ == r@[m]@;
            assert(log@[j].picks@[p].ticker@ == r@[m]@);
        }
    }
}

} // verus!
