//! The decision journal: one's own calls, logged with a thesis before the
//! outcome is known, and closed later.

use vstd::prelude::*;
use vstd::string::*;

use crate::calendar::Date;
use crate::forward_test::{ForwardEntry, RankedName};
use crate::number::Number;
use crate::order;
use crate::text;

verus! {

/// Encoding of 60, the score from which the model counts as agreeing.
pub const AGREEMENT_SCORE: u64 = 0x404E_0000_0000_0000;

/// Days within which a logged score counts for a decision.
pub const SCORE_WINDOW_DAYS: i64 = 7;

/// A decision to be logged.
#[derive(Debug)]
pub struct NewDecision {
    pub ticker: String,
    pub entry_date: Date,
    pub thesis: String,
    pub expected_holding_days: u32,
    pub entry_price: Number,
    /// The model's score for the ticker at entry, where one is known.
    pub model_composite_at_entry: Option<Number>,
}

/// A logged decision.
#[derive(Debug)]
pub struct JournalEntry {
    pub id: i64,
    pub ticker: String,
    pub entry_date: Date,
    pub thesis: String,
    pub expected_holding_days: u32,
    pub entry_price: Number,
    pub model_composite_at_entry: Option<Number>,
    /// `open` or `closed`.
    pub status: String,
    pub exit_date: Option<Date>,
    pub exit_price: Option<Number>,
    pub outcome_notes: Option<String>,
}

impl JournalEntry {
    /// Whether the position is still open.
    pub open spec fn open(&self) -> bool {
        self.status@ == "open"@
    }

    /// Days since entry, none before it.
    pub open spec fn held(&self, today: Date) -> int {
        if today.days > self.entry_date.days {
            today.days - self.entry_date.days
        } else {
            0
        }
    }

    /// Whether the position is still open.
    pub fn is_open(&self) -> (r: bool)
        ensures
            r == self.open(),
    {
        text::same_text(self.status.as_str(), "open")
    }

    /// Days since entry, none before it.
    pub fn days_held(&self, today: Date) -> (r: i64)
        ensures
            r == self.held(today),
    {
        if today.days > self.entry_date.days {
            today.days_since(self.entry_date)
        } else {
            0
        }
    }

    /// Whether the position is open and has been held as long as was expected.
    pub fn is_due(&self, today: Date) -> (r: bool)
        ensures
            r == (self.open() && self.held(today) >= self.expected_holding_days),
    {
        self.is_open() && self.days_held(today) >= self.expected_holding_days as i64
    }

    /// The prices that the return is read from: entry and exit, once the decision is closed and has
    /// an exit, and the entry is a price.
    pub open spec fn ends(&self) -> Option<(Number, Number)> {
        match self.exit_price {
            Some(exit) => if !self.open() && (Number { bits: 0 }).lt(self.entry_price) {
                Some((self.entry_price, exit))
            } else {
                None
            },
            None => None,
        }
    }

    /// The prices that the return, in percent `(exit / entry - 1) * 100`, is read from; nothing
    /// while the decision is open.
    pub fn return_ends(&self) -> (r: Option<(Number, Number)>)
        ensures
            r == self.ends(),
    {
        match self.exit_price {
            Some(exit) => if !self.is_open() && Number::zero().is_lt(self.entry_price) {
                Some((self.entry_price, exit))
            } else {
                None
            },
            None => None,
        }
    }

    /// Whether the model's score at entry was 60 or more; nothing where none is known.
    pub open spec fn agreed(&self) -> Option<bool> {
        match self.model_composite_at_entry {
            Some(c) => Some((Number { bits: AGREEMENT_SCORE }).le(c)),
            None => None,
        }
    }

    /// Whether the model agreed with the decision; nothing where its score is not known.
    pub fn agreed_with_model(&self) -> (r: Option<bool>)
        ensures
            r == self.agreed(),
    {
        let limit: Number = Number { bits: AGREEMENT_SCORE };
        match self.model_composite_at_entry {
            Some(c) => Some(limit.is_le(c)),
            None => None,
        }
    }
}

/// What a summary is computed from: for each group of closed decisions the prices of each return.
#[derive(Debug)]
pub struct JournalSummary {
    pub n_closed: usize,
    pub closed: Vec<(Number, Number)>,
    /// Those that the model agreed with.
    pub agreed: Vec<(Number, Number)>,
    /// Those that the model did not agree with.
    pub disagreed: Vec<(Number, Number)>,
}

/// How many decisions are closed.
pub open spec fn closed_count(s: Seq<JournalEntry>) -> int
    decreases s.len(),
{
    if s.len() == 0 {
        0
    } else {
        closed_count(s.drop_last()) + if s.last().open() {
            0int
        } else {
            1
        }
    }
}

/// Which decisions a group takes in.
#[derive(Clone, Copy, Debug, PartialEq, Eq, Structural)]
pub enum Group {
    All,
    Agreed,
    Disagreed,
}

/// Whether a decision is in a group.
pub open spec fn in_group(e: JournalEntry, g: Group) -> bool {
    match g {
        Group::All => true,
        Group::Agreed => e.agreed() == Some(true),
        Group::Disagreed => e.agreed() == Some(false),
    }
}

/// The prices of the return of each closed decision in a group.
pub open spec fn group_returns(s: Seq<JournalEntry>, g: Group) -> Seq<(Number, Number)>
    decreases s.len(),
{
    if s.len() == 0 {
        seq![]
    } else {
        let rest = group_returns(s.drop_last(), g);
        if !s.last().open() && in_group(s.last(), g) && s.last().ends() is Some {
            rest.push(s.last().ends()->0)
        } else {
            rest
        }
    }
}

/// Sorts the closed decisions by whether the model agreed.
pub fn summarize(entries: &Vec<JournalEntry>) -> (r: JournalSummary)
    ensures
        r.n_closed == closed_count(entries@),
        r.closed@ == group_returns(entries@, Group::All),
        r.agreed@ == group_returns(entries@, Group::Agreed),
        r.disagreed@ == group_returns(entries@, Group::Disagreed),
{
    let mut n_closed: usize = 0;
    let mut closed: Vec<(Number, Number)> = Vec::new();
    let mut agreed: Vec<(Number, Number)> = Vec::new();
    let mut disagreed: Vec<(Number, Number)> = Vec::new();
    let mut i: usize = 0;
    proof {
        assert(entries@.take(0) =~= seq![]);
    }
    while i < entries.len()
        invariant
            i <= entries@.len(),
            n_closed <= i,
            n_closed == closed_count(entries@.take(i as int)),
            closed@ == group_returns(entries@.take(i as int), Group::All),
            agreed@ == group_returns(entries@.take(i as int), Group::Agreed),
            disagreed@ == group_returns(entries@.take(i as int), Group::Disagreed),
        decreases entries@.len() - i,
    {
        proof {
            assert(entries@.take(i + 1).drop_last() =~= entries@.take(i as int));
            assert(entries@.take(i + 1).last() == entries@[i as int]);
        }
        let e: &JournalEntry = &entries[i];
        if !e.is_open() {
            n_closed = n_closed + 1;
            if let Some(ends) = e.return_ends() {
                closed.push(ends);
                match e.agreed_with_model() {
                    Some(true) => {
                        agreed.push(ends);
                    },
                    Some(false) => {
                        disagreed.push(ends);
                    },
                    None => {},
                }
            }
        }
        i = i + 1;
    }
    proof {
        assert(entries@.take(entries@.len() as int) =~= entries@);
    }
    JournalSummary { n_closed, closed, agreed, disagreed }
}

// ── The model's score ────────────────────────────────────────────────────────

/// Whether an entry of the forward log counts for a date: it is of that date or of the week before.
pub open spec fn counts_for(e: ForwardEntry, date: Date) -> bool {
    e.as_of.days <= date.days && date.days - e.as_of.days <= SCORE_WINDOW_DAYS
}

/// `i` is the entry that counts for a date: the latest, and the last listed of several.
pub open spec fn entry_for(log: Seq<ForwardEntry>, date: Date, i: int) -> bool {
    &&& 0 <= i < log.len()
    &&& counts_for(log[i], date)
    &&& forall|j: int|
        0 <= j < log.len() && counts_for(#[trigger] log[j], date) ==> log[j].as_of.days
            < log[i].as_of.days || (log[j].as_of.days == log[i].as_of.days && j <= i)
}

/// The score of the first ranked name with a ticker, in any case.
pub open spec fn ranked_score(s: Seq<RankedName>, upper: Seq<char>, from: int) -> Option<Number>
    decreases s.len() - from,
{
    if from < 0 || from >= s.len() {
        None
    } else if text::upper_text(s[from].ticker@) == upper {
        Some(s[from].composite)
    } else {
        ranked_score(s, upper, from + 1)
    }
}

/// The score of the first ranked name with a ticker, in any case.
fn find_ranked(ranking: &Vec<RankedName>, upper: &str) -> (r: Option<Number>)
    ensures
        r == ranked_score(ranking@, upper@, 0),
{
    let mut k: usize = 0;
    while k < ranking.len()
        invariant
            k <= ranking@.len(),
            ranked_score(ranking@, upper@, 0) == ranked_score(ranking@, upper@, k as int),
        decreases ranking@.len() - k,
    {
        let own: String = text::to_upper(ranking[k].ticker.as_str());
        if text::same_text(own.as_str(), upper) {
            return Some(ranking[k].composite);
        }
        k = k + 1;
    }
    None
}

/// The model's score for a ticker, from the entry of the forward log that counts for a date.
pub fn find_model_composite(log: &Vec<ForwardEntry>, ticker: &str, entry_date: Date) -> (r: Option<
    Number,
>)
    ensures
        (forall|j: int| 0 <= j < log@.len() ==> !counts_for(#[trigger] log@[j], entry_date)) ==> r
            is None,
        forall|i: int| #[trigger]
            entry_for(log@, entry_date, i) ==> r == ranked_score(
                log@[i].ranking@,
                text::upper_text(ticker@),
                0,
            ),
{
    let upper: String = text::to_upper(ticker);
    let mut best: Option<usize> = None;
    let mut i: usize = 0;
    while i < log.len()
        invariant
            i <= log@.len(),
            match best {
                Some(b) => b < i && counts_for(log@[b as int], entry_date) && forall|j: int|
                    0 <= j < i && counts_for(#[trigger] log@[j], entry_date) ==> log@[j].as_of.days
                        < log@[b as int].as_of.days || (log@[j].as_of.days
                        == log@[b as int].as_of.days && j <= b),
                None => forall|j: int|
                    0 <= j < i ==> !counts_for(#[trigger] log@[j], entry_date),
            },
        decreases log@.len() - i,
    {
        let as_of: Date = log[i].as_of;
        if as_of.days <= entry_date.days && entry_date.days_since(as_of) <= SCORE_WINDOW_DAYS {
            match best {
                Some(b) => {
                    if log[b].as_of.days <= as_of.days {
                        best = Some(i);
                    }
                },
                None => {
                    best = Some(i);
                },
            }
        }
        i = i + 1;
    }
    let at: usize = match best {
        Some(b) => b,
        None => {
            return None;
        },
    };
    let ranking: &Vec<RankedName> = &log[at].ranking;
    proof {
        assert(entry_for(log@, entry_date, at as int));
        assert forall|q: int| #[trigger] entry_for(log@, entry_date, q) implies q == at by {
            assert(counts_for(log@[q], entry_date));
            assert(counts_for(log@[at as int], entry_date));
        }
    }
    find_ranked(ranking, upper.as_str())
}

// ── The journal ──────────────────────────────────────────────────────────────

/// Why a decision is refused.
#[derive(Clone, Copy, Debug, PartialEq, Eq, Structural)]
pub enum JournalError {
    EmptyTicker,
    EmptyThesis,
    EntryPriceNotPositive,
    HoldingNotPositive,
    ExitPriceNotPositive,
    /// There is no open decision with the number.
    NotOpen(i64),
    /// No number is left for another decision.
    Full,
}

impl JournalError {
    /// What an error says.
    pub open spec fn says(self) -> Seq<char> {
        match self {
            JournalError::EmptyTicker => "ticker must not be empty"@,
            JournalError::EmptyThesis =>
                "a thesis is the whole point of a decision journal - it can't be empty"@,
            JournalError::EntryPriceNotPositive => "entry_price must be positive"@,
            JournalError::HoldingNotPositive => "expected_holding_days must be positive"@,
            JournalError::ExitPriceNotPositive => "exit_price must be positive"@,
            JournalError::NotOpen(id) => "no open decision with id "@ + text::signed_decimal(
                id as int,
            ),
            JournalError::Full => "failed to record the journal entry"@,
        }
    }

    /// The error in words.
    pub fn message(&self) -> (r: String)
        ensures
            r@ == self.says(),
    {
        match self {
            JournalError::EmptyTicker => "ticker must not be empty".to_owned(),
            JournalError::EmptyThesis =>
                "a thesis is the whole point of a decision journal - it can't be empty".to_owned(),
            JournalError::EntryPriceNotPositive => "entry_price must be positive".to_owned(),
            JournalError::HoldingNotPositive => "expected_holding_days must be positive".to_owned(),
            JournalError::ExitPriceNotPositive => "exit_price must be positive".to_owned(),
            JournalError::NotOpen(id) => {
                let mut s: String = "no open decision with id ".to_owned();
                s.append(text::signed_text(*id).as_str());
                s
            },
            JournalError::Full => "failed to record the journal entry".to_owned(),
        }
    }
}

/// What is wrong with a decision, if anything.
pub open spec fn refusal(d: NewDecision) -> Option<JournalError> {
    if text::trimmed(d.ticker@).len() == 0 {
        Some(JournalError::EmptyTicker)
    } else if text::trimmed(d.thesis@).len() == 0 {
        Some(JournalError::EmptyThesis)
    } else if !(Number { bits: 0 }).lt(d.entry_price) {
        Some(JournalError::EntryPriceNotPositive)
    } else if d.expected_holding_days == 0 {
        Some(JournalError::HoldingNotPositive)
    } else {
        None
    }
}

/// What is wrong with a decision, if anything.
pub fn check(d: &NewDecision) -> (r: Option<JournalError>)
    ensures
        r == refusal(*d),
{
    if text::trim(d.ticker.as_str()).as_str().unicode_len() == 0 {
        return Some(JournalError::EmptyTicker);
    }
    if text::trim(d.thesis.as_str()).as_str().unicode_len() == 0 {
        return Some(JournalError::EmptyThesis);
    }
    if !Number::zero().is_lt(d.entry_price) {
        return Some(JournalError::EntryPriceNotPositive);
    }
    if d.expected_holding_days == 0 {
        return Some(JournalError::HoldingNotPositive);
    }
    None
}

/// The journal: decisions by increasing number.
#[derive(Debug)]
pub struct Journal {
    pub entries: Vec<JournalEntry>,
}

/// Whether an entry is the record of a decision that was just made.
pub open spec fn records(e: JournalEntry, d: NewDecision, id: i64) -> bool {
    &&& e.id == id
    &&& e.ticker@ == d.ticker@
    &&& e.entry_date == d.entry_date
    &&& e.thesis@ == d.thesis@
    &&& e.expected_holding_days == d.expected_holding_days
    &&& e.entry_price == d.entry_price
    &&& e.model_composite_at_entry == d.model_composite_at_entry
    &&& e.open()
    &&& e.exit_date is None
    &&& e.exit_price is None
    &&& e.outcome_notes is None
}

/// Whether an entry is another one, closed.
pub open spec fn closed_as(
    e: JournalEntry,
    before: JournalEntry,
    exit_date: Date,
    exit_price: Number,
    notes: Option<String>,
) -> bool {
    &&& e.id == before.id
    &&& e.ticker@ == before.ticker@
    &&& e.entry_date == before.entry_date
    &&& e.thesis@ == before.thesis@
    &&& e.expected_holding_days == before.expected_holding_days
    &&& e.entry_price == before.entry_price
    &&& e.model_composite_at_entry == before.model_composite_at_entry
    &&& e.status@ == "closed"@
    &&& e.exit_date == Some(exit_date)
    &&& e.exit_price == Some(exit_price)
    &&& e.outcome_notes == notes
}

impl Journal {
    /// Numbers increase.
    pub open spec fn well_formed(&self) -> bool {
        forall|i: int, j: int|
            0 <= i < j < self.entries@.len() ==> (#[trigger] self.entries@[i]).id < (
            #[trigger] self.entries@[j]).id
    }

    /// The number that the next decision gets.
    pub open spec fn next_id(&self) -> int {
        if self.entries@.len() == 0 {
            1
        } else {
            self.entries@.last().id + 1
        }
    }

    /// An empty journal.
    pub fn new() -> (r: Journal)
        ensures
            r.well_formed(),
            r.entries@.len() == 0,
    {
        Journal { entries: Vec::new() }
    }

    /// Logs a decision under the next number.
    pub fn add(&mut self, d: &NewDecision) -> (r: Result<i64, JournalError>)
        requires
            old(self).well_formed(),
        ensures
            final(self).well_formed(),
            match r {
                Ok(id) => {
                    &&& refusal(*d) is None
                    &&& id == old(self).next_id()
                    &&& final(self).entries@.len() == old(self).entries@.len() + 1
                    &&& final(self).entries@.drop_last() == old(self).entries@
                    &&& records(final(self).entries@.last(), *d, id)
                },
                Err(e) => {
                    &&& final(self).entries == old(self).entries
                    &&& refusal(*d) == Some(e) || (refusal(*d) is None && e == JournalError::Full
                        && old(self).next_id() > i64::MAX)
                },
            },
    {
        if let Some(e) = check(d) {
            return Err(e);
        }
        let n: usize = self.entries.len();
        let id: i64 = if n == 0 {
            1
        } else {
            let last: i64 = self.entries[n - 1].id;
            if last == i64::MAX {
                return Err(JournalError::Full);
            }
            last + 1
        };
        let ghost before = self.entries@;
        self.entries.push(
            JournalEntry {
                id,
                ticker: d.ticker.clone(),
                entry_date: d.entry_date,
                thesis: d.thesis.clone(),
                expected_holding_days: d.expected_holding_days,
                entry_price: d.entry_price,
                model_composite_at_entry: d.model_composite_at_entry,
                status: "open".to_owned(),
                exit_date: None,
                exit_price: None,
                outcome_notes: None,
            },
        );
        proof {
            assert(self.entries@.drop_last() =~= before);
            assert forall|i: int, j: int| 0 <= i < j < self.entries@.len() implies (
            #[trigger] self.entries@[i]).id < (#[trigger] self.entries@[j]).id by {
                if j == before.len() {
                    if i < before.len() - 1 {
                        assert(before[i].id < before[before.len() - 1].id);
                    }
                } else {
                    assert(before[i].id < before[j].id);
                }
            }
        }
        Ok(id)
    }

    /// Closes the open decision with a number.
    pub fn close(
        &mut self,
        id: i64,
        exit_date: Date,
        exit_price: Number,
        notes: Option<String>,
    ) -> (r: Result<(), JournalError>)
        requires
            old(self).well_formed(),
        ensures
            final(self).well_formed(),
            r == (if !(Number { bits: 0 }).lt(exit_price) {
                Err(JournalError::ExitPriceNotPositive)
            } else if exists|i: int|
                0 <= i < old(self).entries@.len() && (#[trigger] old(self).entries@[i]).id == id
                    && old(self).entries@[i].open() {
                Ok(())
            } else {
                Err(JournalError::NotOpen(id))
            }),
            r is Err ==> final(self).entries == old(self).entries,
            r is Ok ==> final(self).entries@.len() == old(self).entries@.len() && forall|i: int|
                0 <= i < old(self).entries@.len() ==> if (#[trigger] old(self).entries@[i]).id == id {
                    closed_as(
                        final(self).entries@[i],
                        old(self).entries@[i],
                        exit_date,
                        exit_price,
                        notes,
                    )
                } else {
                    final(self).entries@[i] == old(self).entries@[i]
                },
    {
        if !Number::zero().is_lt(exit_price) {
            return Err(JournalError::ExitPriceNotPositive);
        }
        let ghost before = self.entries@;
        let mut i: usize = 0;
        while i < self.entries.len()
            invariant
                i <= self.entries@.len(),
                self.entries == old(self).entries,
                before == self.entries@,
                self.well_formed(),
                (Number { bits: 0 }).lt(exit_price),
                forall|k: int| 0 <= k < i ==> (#[trigger] before[k]).id != id || !before[k].open(),
            decreases self.entries@.len() - i,
        {
            if self.entries[i].id == id && self.entries[i].is_open() {
                let e: &JournalEntry = &self.entries[i];
                let closed: JournalEntry = JournalEntry {
                    id,
                    ticker: e.ticker.clone(),
                    entry_date: e.entry_date,
                    thesis: e.thesis.clone(),
                    expected_holding_days: e.expected_holding_days,
                    entry_price: e.entry_price,
                    model_composite_at_entry: e.model_composite_at_entry,
                    status: "closed".to_owned(),
                    exit_date: Some(exit_date),
                    exit_price: Some(exit_price),
                    outcome_notes: notes,
                };
                self.entries.set(i, closed);
                proof {
                    assert(before[i as int].id == id && before[i as int].open());
                    assert(old(self).entries@[i as int].id == id);
                    assert forall|k: int| 0 <= k < before.len() implies if (
                    #[trigger] before[k]).id == id {
                        closed_as(self.entries@[k], before[k], exit_date, exit_price, notes)
                    } else {
                        self.entries@[k] == before[k]
                    } by {
                        if k < i {
                            assert(before[k].id < before[i as int].id);
                        } else if k > i {
                            assert(before[i as int].id < before[k].id);
                        }
                    }
                    assert forall|a: int, b: int| 0 <= a < b < self.entries@.len() implies (
                    #[trigger] self.entries@[a]).id < (#[trigger] self.entries@[b]).id by {
                        assert(before[a].id < before[b].id);
                    }
                }
                return Ok(());
            }
            i = i + 1;
        }
        Err(JournalError::NotOpen(id))
    }

    /// The positions of the decisions with a status, or of all, by entry date and then by number.
    pub fn list(&self, status: Option<&str>) -> (r: Vec<usize>)
        ensures
            exists|idx: Seq<usize>, keys: Seq<i64>, p: Seq<usize>| #[trigger]
                listed(self.entries@, status, idx, keys, p, r@),
    {
        let mut idx: Vec<usize> = Vec::new();
        let mut keys: Vec<i64> = Vec::new();
        let mut i: usize = 0;
        while i < self.entries.len()
            invariant
                i <= self.entries@.len(),
                keys@.len() == idx@.len(),
                forall|a: int, b: int|
                    0 <= a < b < idx@.len() ==> (#[trigger] idx@[a]) < (#[trigger] idx@[b]),
                forall|k: int|
                    0 <= k < idx@.len() ==> (#[trigger] idx@[k]) < i && has_status(
                        self.entries@[idx@[k] as int],
                        status,
                    ) && keys@[k] == self.entries@[idx@[k] as int].entry_date.days,
                forall|k: int|
                    0 <= k < i && has_status(#[trigger] self.entries@[k], status) ==> exists|q: int|
                        0 <= q < idx@.len() && #[trigger] idx@[q] == k,
            decreases self.entries@.len() - i,
        {
            let ghost before = idx@;
            let wanted: bool = match status {
                Some(s) => text::same_text(self.entries[i].status.as_str(), s),
                None => true,
            };
            if wanted {
                idx.push(i);
                keys.push(self.entries[i].entry_date.days as i64);
            }
            proof {
                assert forall|k: int|
                    0 <= k < i + 1 && has_status(#[trigger] self.entries@[k], status) implies exists|
                    q: int,
                | 0 <= q < idx@.len() && #[trigger] idx@[q] == k by {
                    if k < i {
                        let q = choose|q: int| 0 <= q < before.len() && #[trigger] before[q] == k;
                        assert(idx@[q] == k);
                    } else {
                        assert(idx@[before.len() as int] == k);
                    }
                }
            }
            i = i + 1;
        }
        let p: Vec<usize> = order::stable_order(&keys);
        let mut out: Vec<usize> = Vec::new();
        let mut k: usize = 0;
        while k < p.len()
            invariant
                k <= p@.len(),
                out@.len() == k,
                keys@.len() == idx@.len(),
                order::is_stable_order(keys@, p@),
                forall|q: int| 0 <= q < k ==> (#[trigger] out@[q]) == idx@[p@[q] as int],
            decreases p@.len() - k,
        {
            proof {
                assert(p@[k as int] < keys@.len());
            }
            out.push(idx[p[k]]);
            k = k + 1;
        }
        proof {
            assert(listed(self.entries@, status, idx@, keys@, p@, out@));
        }
        out
    }
}

/// Whether a decision has a status, or any will do.
pub open spec fn has_status(e: JournalEntry, status: Option<&str>) -> bool {
    match status {
        Some(s) => e.status@ == s@,
        None => true,
    }
}

/// Whether `out` lists the decisions with a status by entry date, those of one day by number: `idx`
/// are their positions, `keys` their dates and `p` the order of those.
pub open spec fn listed(
    s: Seq<JournalEntry>,
    status: Option<&str>,
    idx: Seq<usize>,
    keys: Seq<i64>,
    p: Seq<usize>,
    out: Seq<usize>,
) -> bool {
    &&& forall|a: int, b: int| 0 <= a < b < idx.len() ==> (#[trigger] idx[a]) < (#[trigger] idx[b])
    &&& forall|k: int|
        0 <= k < idx.len() ==> (#[trigger] idx[k]) < s.len() && has_status(
            s[idx[k] as int],
            status,
        ) && keys[k] == s[idx[k] as int].entry_date.days
    &&& forall|k: int|
        0 <= k < s.len() && has_status(#[trigger] s[k], status) ==> exists|q: int|
            0 <= q < idx.len() && #[trigger] idx[q] == k
    &&& keys.len() == idx.len()
    &&& order::is_stable_order(keys, p)
    &&& out.len() == p.len()
    &&& forall|k: int| 0 <= k < out.len() ==> (#[trigger] out[k]) == idx[p[k] as int]
}

// ── What the journal says ────────────────────────────────────────────────────

/// A decision's return goes from its entry price to its exit price, and there is none while it is
/// open or without an exit.
pub proof fn returns_go_from_entry_to_exit(e: JournalEntry, r: Option<(Number, Number)>)
    requires
        call_ensures(JournalEntry::return_ends, (&e,), r),
    ensures
        r matches Some((from, to)) ==> from == e.entry_price && e.exit_price == Some(to)
            && e.status@ != "open"@,
        e.status@ == "open"@ ==> r is None,
        e.exit_price is None ==> r is None,
        e.status@ != "open"@ && e.exit_price is Some && 0 < e.entry_price.bits
            <= 0x7FF0_0000_0000_0000 ==> r is Some,
{
}

/// The model agreed where it scored the name 60 or more at entry; without a score nothing is known.
pub proof fn the_model_agrees_from_sixty(e: JournalEntry, r: Option<bool>)
    requires
        call_ensures(JournalEntry::agreed_with_model, (&e,), r),
    ensures
        e.model_composite_at_entry is None ==> r is None,
        e.model_composite_at_entry matches Some(c) ==> c.bits <= 0x7FF0_0000_0000_0000 ==> r == Some(
            c.bits >= 0x404E_0000_0000_0000,
        ),
{
}

/// An open decision is due once it has been held as long as was expected; a closed one never is.
/// Days are counted from the entry, and before it there are none.
pub proof fn decisions_fall_due(e: JournalEntry, today: Date, due: bool, days: i64)
    requires
        call_ensures(JournalEntry::is_due, (&e, today), due),
        call_ensures(JournalEntry::days_held, (&e, today), days),
    ensures
        e.status@ != "open"@ ==> !due,
        e.status@ == "open"@ ==> (due <==> days >= e.expected_holding_days),
        today.days >= e.entry_date.days ==> e.entry_date.days + days == today.days,
        today.days <= e.entry_date.days ==> days == 0,
{
}

proof fn lemma_group(s: Seq<JournalEntry>, g: Group)
    ensures
        group_returns(s, g).len() <= closed_count(s),
        forall|k: int|
            0 <= k < group_returns(s, g).len() ==> exists|i: int|
                0 <= i < s.len() && !(#[trigger] s[i]).open() && in_group(s[i], g) && s[i].ends()
                    == Some(#[trigger] group_returns(s, g)[k]),
        forall|i: int|
            0 <= i < s.len() && !(#[trigger] s[i]).open() && in_group(s[i], g) && s[i].ends() is Some
                ==> group_returns(s, g).contains(s[i].ends()->0),
    decreases s.len(),
{
    if s.len() > 0 {
        let init = s.drop_last();
        lemma_group(init, g);
        let all = group_returns(s, g);
        let rest = group_returns(init, g);
        assert forall|k: int| 0 <= k < all.len() implies exists|i: int|
            0 <= i < s.len() && !(#[trigger] s[i]).open() && in_group(s[i], g) && s[i].ends()
                == Some(#[trigger] all[k]) by {
            if k < rest.len() {
                assert(all[k] == rest[k]);
                let i = choose|i: int|
                    0 <= i < init.len() && !(#[trigger] init[i]).open() && in_group(init[i], g)
                        && init[i].ends() == Some(rest[k]);
                assert(s[i] == init[i]);
            } else {
                assert(!s[s.len() - 1].open());
            }
        }
        assert forall|i: int| 0 <= i < s.len() && !(#[trigger] s[i]).open() && in_group(s[i], g)
            && s[i].ends() is Some implies all.contains(s[i].ends()->0) by {
            if i < init.len() {
                assert(init[i] == s[i]);
                let k = choose|k: int| 0 <= k < rest.len() && rest[k] == s[i].ends()->0;
                assert(all[k] == s[i].ends()->0);
            } else {
                assert(all[rest.len() as int] == s[i].ends()->0);
            }
        }
    }
}

/// A summary sorts the returns of closed decisions by what the model had said of them: those that
/// it had scored 60 or more are among the agreed ones, those scored lower among the disagreed ones,
/// and each goes from its own entry to its own exit. Open decisions have no part in it.
pub proof fn summaries_part_the_closed_decisions(
    entries: Vec<JournalEntry>,
    r: JournalSummary,
    i: int,
    k: int,
)
    requires
        call_ensures(summarize, (&entries,), r),
        0 <= i < entries@.len(),
        entries@[i].status@ != "open"@,
        0 < entries@[i].entry_price.bits <= 0x7FF0_0000_0000_0000,
    ensures
        entries@[i].exit_price matches Some(x) ==> r.closed@.contains((entries@[i].entry_price, x)),
        (entries@[i].exit_price matches Some(x) && entries@[i].model_composite_at_entry matches Some(
            c,
        ) && 0x404E_0000_0000_0000 <= c.bits <= 0x7FF0_0000_0000_0000) ==> r.agreed@.contains(
            (entries@[i].entry_price, entries@[i].exit_price->0),
        ),
        (entries@[i].exit_price matches Some(x) && entries@[i].model_composite_at_entry matches Some(
            c,
        ) && c.bits < 0x404E_0000_0000_0000) ==> r.disagreed@.contains(
            (entries@[i].entry_price, entries@[i].exit_price->0),
        ),
        r.closed@.len() <= r.n_closed <= entries@.len(),
        0 <= k < r.agreed@.len() ==> exists|j: int|
            0 <= j < entries@.len() && (#[trigger] entries@[j]).status@ != "open"@
                && entries@[j].entry_price == r.agreed@[k].0 && entries@[j].exit_price == Some(
                r.agreed@[k].1,
            ) && (entries@[j].model_composite_at_entry matches Some(c) && !c.lt(
                Number { bits: 0x404E_0000_0000_0000 },
            )),
{
    lemma_group(entries@, Group::All);
    lemma_group(entries@, Group::Agreed);
    lemma_group(entries@, Group::Disagreed);
    lemma_closed_count(entries@);
    assert(!entries@[i].open());
    if 0 <= k < r.agreed@.len() {
        let all = group_returns(entries@, Group::Agreed);
        let j = choose|j: int|
            0 <= j < entries@.len() && !(#[trigger] entries@[j]).open() && in_group(
                entries@[j],
                Group::Agreed,
            ) && entries@[j].ends() == Some(all[k]);
        assert(entries@[j].status@ != "open"@);
    }
}

proof fn lemma_closed_count(s: Seq<JournalEntry>)
    ensures
        0 <= closed_count(s) <= s.len(),
        (forall|i: int| 0 <= i < s.len() ==> !(#[trigger] s[i]).open()) ==> closed_count(s)
            == s.len(),
        (forall|i: int| 0 <= i < s.len() ==> (#[trigger] s[i]).open()) ==> closed_count(s) == 0,
    decreases s.len(),
{
    if s.len() > 0 {
        let init = s.drop_last();
        lemma_closed_count(init);
        if forall|i: int| 0 <= i < s.len() ==> !(#[trigger] s[i]).open() {
            assert forall|i: int| 0 <= i < init.len() implies !(#[trigger] init[i]).open() by {
                assert(!s[i].open());
            }
            assert(!s[s.len() - 1].open());
        }
        if forall|i: int| 0 <= i < s.len() ==> (#[trigger] s[i]).open() {
            assert forall|i: int| 0 <= i < init.len() implies (#[trigger] init[i]).open() by {
                assert(s[i].open());
            }
            assert(s[s.len() - 1].open());
        }
    }
}

/// All decisions are counted as closed where none is open, and none where all are.
pub proof fn closed_decisions_are_counted(entries: Vec<JournalEntry>, r: JournalSummary)
    requires
        call_ensures(summarize, (&entries,), r),
    ensures
        (forall|i: int| 0 <= i < entries@.len() ==> (#[trigger] entries@[i]).status@ != "open"@)
            ==> r.n_closed == entries@.len(),
        (forall|i: int| 0 <= i < entries@.len() ==> (#[trigger] entries@[i]).status@ == "open"@)
            ==> r.n_closed == 0,
{
    lemma_closed_count(entries@);
}

proof fn lemma_ranked(s: Seq<RankedName>, upper: Seq<char>, from: int, k: int)
    requires
        0 <= from <= k < s.len(),
        text::upper_text(s[k].ticker@) == upper,
        forall|j: int|
            from <= j < k ==> text::upper_text((#[trigger] s[j]).ticker@) != upper,
    ensures
        ranked_score(s, upper, from) == Some(s[k].composite),
    decreases k - from,
{
    if from < k {
        assert(text::upper_text(s[from].ticker@) != upper);
        lemma_ranked(s, upper, from + 1, k);
    }
}

/// The model's score of a decision is read from the latest log entry of its day or of the seven
/// days before, in which the name is found whatever its case; an entry of a later day is not used.
pub proof fn scores_come_from_the_latest_entry_of_the_week(
    log: Vec<ForwardEntry>,
    ticker: &str,
    date: Date,
    r: Option<Number>,
    i: int,
    k: int,
)
    requires
        call_ensures(find_model_composite, (&log, ticker, date), r),
        0 <= i < log@.len(),
        0 <= date.days - log@[i].as_of.days <= 7,
        forall|j: int|
            0 <= j < log@.len() && j != i ==> (#[trigger] log@[j]).as_of.days < log@[i].as_of.days
                || log@[j].as_of.days > date.days,
        0 <= k < log@[i].ranking@.len(),
        text::upper_text(log@[i].ranking@[k].ticker@) == text::upper_text(ticker@),
        forall|j: int|
            0 <= j < k ==> text::upper_text((#[trigger] log@[i].ranking@[j]).ticker@)
                != text::upper_text(ticker@),
    ensures
        r == Some(log@[i].ranking@[k].composite),
{
    assert(entry_for(log@, date, i));
    let args = (&log, ticker, date);
    assert(entry_for(args.0@, args.2, i));
    lemma_ranked(log@[i].ranking@, text::upper_text(ticker@), 0, k);
}

/// Where no log entry is of the day or of the seven days before it, the model has no score.
pub proof fn no_entry_of_the_week_means_no_score(
    log: Vec<ForwardEntry>,
    ticker: &str,
    date: Date,
    r: Option<Number>,
)
    requires
        call_ensures(find_model_composite, (&log, ticker, date), r),
        forall|j: int|
            0 <= j < log@.len() ==> (#[trigger] log@[j]).as_of.days > date.days
                || log@[j].as_of.days < date.days - 7,
    ensures
        r is None,
{
    assert forall|j: int| 0 <= j < log@.len() implies !counts_for(#[trigger] log@[j], date) by {}
}

/// A decision that is logged and then closed keeps all that was said of it and has the exit that it
/// was closed at.
pub proof fn a_closed_decision_keeps_what_was_logged(
    added: &mut Journal,
    closed: &mut Journal,
    d: NewDecision,
    id: i64,
    exit_date: Date,
    exit_price: Number,
    notes: Option<String>,
)
    requires
        call_ensures(Journal::add, (added, &d), Ok::<i64, JournalError>(id)),
        call_ensures(
            Journal::close,
            (closed, id, exit_date, exit_price, notes),
            Ok::<(), JournalError>(()),
        ),
        *old(closed) == *final(added),
    ensures
        ({
            let e = final(closed).entries@[old(added).entries@.len() as int];
            &&& e.id == id
            &&& e.ticker@ == d.ticker@
            &&& e.entry_date == d.entry_date
            &&& e.thesis@ == d.thesis@
            &&& e.entry_price == d.entry_price
            &&& e.expected_holding_days == d.expected_holding_days
            &&& e.model_composite_at_entry == d.model_composite_at_entry
            &&& e.status@ == "closed"@
            &&& e.exit_date == Some(exit_date)
            &&& e.exit_price == Some(exit_price)
            &&& e.outcome_notes == notes
        }),
        final(closed).entries@.len() == old(added).entries@.len() + 1,
        0 < exit_price.bits <= 0x7FF0_0000_0000_0000,
        0 < d.entry_price.bits <= 0x7FF0_0000_0000_0000,
{
    let n = old(added).entries@.len() as int;
    assert(old(closed).entries@[n].id == id);
}

/// A decision that is logged is open, under a number above all others.
pub proof fn a_logged_decision_is_open(j: &mut Journal, d: NewDecision, id: i64, k: int)
    requires
        call_ensures(Journal::add, (j, &d), Ok::<i64, JournalError>(id)),
        old(j).well_formed(),
        0 <= k < old(j).entries@.len(),
    ensures
        old(j).entries@[k].id < id,
        final(j).entries@[k] == old(j).entries@[k],
        final(j).entries@[old(j).entries@.len() as int].status@ == "open"@,
        final(j).entries@[old(j).entries@.len() as int].exit_price is None,
        d.expected_holding_days > 0,
{
    let n = old(j).entries@.len() as int;
    assert(final(j).entries@.drop_last()[k] == final(j).entries@[k]);
    if k < n - 1 {
        assert(old(j).entries@[k].id < old(j).entries@[n - 1].id);
    }
}

/// A list of decisions holds those with the status that is asked for, by the day of entry.
pub proof fn lists_go_by_the_day_of_entry(j: Journal, status: &str, r: Vec<usize>, a: int, b: int)
    requires
        call_ensures(Journal::list, (&j, Some(status)), r),
        0 <= a < b < r@.len(),
    ensures
        r@[a] < j.entries@.len() && r@[b] < j.entries@.len(),
        j.entries@[r@[a] as int].status@ == status@,
        j.entries@[r@[a] as int].entry_date.days <= j.entries@[r@[b] as int].entry_date.days,
        j.entries@[r@[a] as int].entry_date == j.entries@[r@[b] as int].entry_date ==> r@[a]
            < r@[b],
{
    let (idx, keys, p) = choose|idx: Seq<usize>, keys: Seq<i64>, p: Seq<usize>| #[trigger]
        listed(j.entries@, Some(status), idx, keys, p, r@);
    assert(order::precedes(keys, p[a] as int, p[b] as int));
    assert(r@[a] == idx[p[a] as int] && r@[b] == idx[p[b] as int]);
    assert(has_status(j.entries@[idx[p[a] as int] as int], Some(status)));
    assert(has_status(j.entries@[idx[p[b] as int] as int], Some(status)));
}

/// A new journal has no entries.
pub proof fn a_new_journal_is_empty(r: Journal)
    requires
        call_ensures(Journal::new, (), r),
    ensures
        r.entries@.len() == 0,
{
}

} // verus!
