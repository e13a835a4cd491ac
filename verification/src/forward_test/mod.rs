//! The forward log: a tamper-evident record of what was recommended, written
//! before the outcome is known.
//!
//! Every entry carries the digest of the bytes that it is stored as and that of
//! the entry before it, so that editing or removing an earlier entry breaks the
//! chain. Entries are only ever appended, each for a later date than the last.
//!
//! The laws of the chain are about the stored bytes. The caller makes them from
//! the entry's fields, when it seals an entry and again when it reads one back;
//! a field that is changed while the bytes are left alone is not noticed here.

use vstd::prelude::*;
use vstd::string::*;

use sha2::Digest;

use crate::calendar;
use crate::calendar::Date;
use crate::number::Number;
use crate::order;
use crate::signals::SignalScore;
use crate::text;

pub mod diff;
pub mod evaluation;

verus! {

/// Version of the entry format.
pub const SCHEMA_VERSION: u32 = 1;

/// Directory of the log where none is set.
pub const DEFAULT_DIR: &'static str = "forward_log";

// ── Digests ──────────────────────────────────────────────────────────────────

/// A lower-case hexadecimal digit.
pub open spec fn hex_digit(c: char) -> bool {
    '0' <= c <= '9' || 'a' <= c <= 'f'
}

/// The SHA-256 digest of bytes, in hexadecimal.
pub uninterp spec fn sha256_text(bytes: Seq<u8>) -> Seq<char>;

/// `sha2::Sha256::digest`, printed by its lower-case hexadecimal form: a text of 64 lower-case
/// hexadecimal digits that depends on the bytes alone.
#[verifier::external_body]
fn sha256_hex(bytes: &[u8]) -> (r: String)
    ensures
        r@ == sha256_text(bytes@),
        r@.len() == 64,
        forall|i: int| 0 <= i < r@.len() ==> hex_digit(#[trigger] r@[i]),
{
    format!("{:x}", sha2::Sha256::digest(bytes))
}

/// What stands for a universe in an entry: the digest of its tickers, each once and in order, one
/// to a line.
pub open spec fn universe_digest(sorted: Seq<Seq<char>>) -> Seq<char> {
    sha256_text(vstd::utf8::encode_utf8(order::joined(sorted, "\n"@)))
}

/// The digest of a universe: of its distinct tickers in increasing order, one to a line.
pub fn universe_hash(tickers: &Vec<String>) -> (r: String)
    ensures
        forall|s: Seq<Seq<char>>| #[trigger]
            order::strictly_sorted(s) && (forall|t: Seq<char>|
                s.contains(t) <==> text::texts(tickers@).contains(t)) ==> r@ == universe_digest(s),
        exists|s: Seq<Seq<char>>| #[trigger]
            order::strictly_sorted(s) && (forall|t: Seq<char>|
                s.contains(t) <==> text::texts(tickers@).contains(t)) && r@ == universe_digest(s),
        r@.len() == 64,
        forall|i: int| 0 <= i < r@.len() ==> hex_digit(#[trigger] r@[i]),
{
    let sorted: Vec<String> = order::sorted_distinct(tickers);
    let joined: String = order::join(&sorted, "\n");
    let r: String = sha256_hex(joined.as_str().as_bytes());
    proof {
        let own = text::texts(sorted@);
        assert forall|s: Seq<Seq<char>>| #[trigger]
            order::strictly_sorted(s) && (forall|t: Seq<char>|
                s.contains(t) <==> text::texts(tickers@).contains(t)) implies r@
            == universe_digest(s) by {
            order::lemma_strictly_sorted_unique(own, s);
        }
    }
    r
}

/// The digest of a universe depends on which tickers it has, not on their order or on how often
/// each is listed.
pub proof fn universe_digest_ignores_order_and_duplicates(
    a: Seq<Seq<char>>,
    b: Seq<Seq<char>>,
    sorted_a: Seq<Seq<char>>,
    sorted_b: Seq<Seq<char>>,
)
    requires
        forall|t: Seq<char>| a.contains(t) <==> b.contains(t),
        order::strictly_sorted(sorted_a),
        order::strictly_sorted(sorted_b),
        forall|t: Seq<char>| sorted_a.contains(t) <==> a.contains(t),
        forall|t: Seq<char>| sorted_b.contains(t) <==> b.contains(t),
    ensures
        universe_digest(sorted_a) == universe_digest(sorted_b),
{
    order::lemma_strictly_sorted_unique(sorted_a, sorted_b);
}

// ── Entries ──────────────────────────────────────────────────────────────────

/// A name's figures as they are logged: rounded so that they read back as they were written.
#[derive(Clone, Copy, Debug, PartialEq, Eq, Structural)]
pub struct Figures {
    pub composite: Number,
    pub momentum_raw: Number,
    pub fundamental_raw: Number,
    pub insider_raw: Number,
    pub sentiment_raw: Number,
    pub pairs_raw: Number,
    /// How many of the signals had data.
    pub signals_available: usize,
}

/// A recommended name.
#[derive(Debug)]
pub struct LoggedPick {
    pub ticker: String,
    pub rank: usize,
    pub figures: Figures,
    /// Signals without data.
    pub missing_signals: Vec<String>,
}

impl LoggedPick {
    /// The record of a ranked name.
    pub fn from_score(s: &SignalScore, figures: Figures, missing_signals: Vec<String>) -> (r:
        LoggedPick)
        ensures
            r.ticker@ == s.ticker@,
            r.rank == s.rank,
            r.figures == figures,
            r.missing_signals == missing_signals,
    {
        LoggedPick { ticker: s.ticker.clone(), rank: s.rank, figures, missing_signals }
    }
}

/// A scored name.
#[derive(Debug)]
pub struct RankedName {
    pub ticker: String,
    pub composite: Number,
    pub signals_available: usize,
}

/// An entry of the log.
#[derive(Debug)]
pub struct ForwardEntry {
    pub schema_version: u32,
    /// The date that the signals were computed for.
    pub as_of: Date,
    /// The latest bar that the signals could see.
    pub data_through: Date,
    pub generated_at_utc: String,
    /// Version of the code that made the entry.
    pub code_version: Option<String>,
    pub strategy: String,
    pub macro_on: bool,
    pub vix: Option<Number>,
    pub universe_size: usize,
    pub universe_hash: String,
    /// Names to hold; none means cash.
    pub picks: Vec<LoggedPick>,
    pub ranking: Vec<RankedName>,
    /// Digest of the previous entry, empty for the first.
    pub prev_hash: String,
    /// The entry as it is stored, with its own digest left blank. The caller makes it from the
    /// other fields.
    pub body: Vec<u8>,
    /// Digest of the body.
    pub hash: String,
}

impl ForwardEntry {
    /// Whether the stored bytes match the digest.
    pub open spec fn intact(&self) -> bool {
        self.hash@ == sha256_text(self.body@)
    }

    /// The digest of the stored bytes.
    pub fn compute_hash(&self) -> (r: String)
        ensures
            r@ == sha256_text(self.body@),
            r@.len() == 64,
            forall|i: int| 0 <= i < r@.len() ==> hex_digit(#[trigger] r@[i]),
    {
        sha256_hex(self.body.as_slice())
    }

    /// Closes the entry over the bytes that it is stored as, which the caller makes from its
    /// fields.
    pub fn seal(&mut self, body: Vec<u8>)
        ensures
            final(self).intact(),
            final(self).body == body,
            final(self).schema_version == old(self).schema_version,
            final(self).as_of == old(self).as_of,
            final(self).data_through == old(self).data_through,
            final(self).generated_at_utc == old(self).generated_at_utc,
            final(self).code_version == old(self).code_version,
            final(self).strategy == old(self).strategy,
            final(self).macro_on == old(self).macro_on,
            final(self).vix == old(self).vix,
            final(self).universe_size == old(self).universe_size,
            final(self).universe_hash == old(self).universe_hash,
            final(self).picks == old(self).picks,
            final(self).ranking == old(self).ranking,
            final(self).prev_hash == old(self).prev_hash,
    {
        self.body = body;
        let h: String = self.compute_hash();
        self.hash = h;
    }
}

// ── Recording ────────────────────────────────────────────────────────────────

/// What is to be recorded.
#[derive(Debug)]
pub struct LogInput {
    pub as_of: Date,
    pub data_through: Date,
    pub strategy: String,
    /// The whole ranking.
    pub scores: Vec<SignalScore>,
    /// The figures of each ranked name.
    pub figures: Vec<Figures>,
    /// The names to hold; none means cash.
    pub picks: Vec<LoggedPick>,
    pub vix: Option<Number>,
    pub generated_at_utc: String,
    pub code_version: Option<String>,
}

/// Why an entry is refused.
#[derive(Clone, Copy, Debug, PartialEq, Eq, Structural)]
pub struct NotNewer {
    pub as_of: Date,
    pub latest: Date,
}

impl NotNewer {
    /// The refusal in words.
    pub fn message(&self) -> (r: String)
        requires
            self.as_of.in_range(),
            self.latest.in_range(),
        ensures
            r@ == "forward log is append-only: "@ + calendar::day_text(self.as_of.days as int)
                + " is not newer than the latest entry ("@ + calendar::day_text(
                self.latest.days as int,
            ) + "). An entry for that date already exists or would be back-dated."@,
    {
        let mut s: String = "forward log is append-only: ".to_owned();
        s.append(self.as_of.text().as_str());
        s.append(" is not newer than the latest entry (");
        s.append(self.latest.text().as_str());
        s.append("). An entry for that date already exists or would be back-dated.");
        s
    }
}

/// The tickers of ranked names.
pub open spec fn ranked_tickers(s: Seq<SignalScore>) -> Seq<Seq<char>> {
    s.map_values(|x: SignalScore| x.ticker@)
}

/// What the log says of each ranked name.
pub open spec fn ranks(r: Seq<RankedName>, s: Seq<SignalScore>, f: Seq<Figures>) -> bool {
    &&& r.len() == s.len()
    &&& forall|i: int|
        0 <= i < r.len() ==> (#[trigger] r[i]).ticker@ == s[i].ticker@ && r[i].composite
            == f[i].composite && r[i].signals_available == f[i].signals_available
}

/// The digest that a new entry links to.
pub open spec fn link(log: Seq<ForwardEntry>) -> Seq<char> {
    if log.len() == 0 {
        seq![]
    } else {
        log.last().hash@
    }
}

/// Whether a date may be appended: it is later than that of the last entry.
pub open spec fn appendable(log: Seq<ForwardEntry>, as_of: Date) -> bool {
    log.len() == 0 || as_of.days > log.last().as_of.days
}

/// The next entry of a log, still to be sealed. Refused unless its date is later than the last.
pub fn record(log: &Vec<ForwardEntry>, input: LogInput) -> (r: Result<ForwardEntry, NotNewer>)
    requires
        input.figures@.len() == input.scores@.len(),
    ensures
        r is Ok <==> appendable(log@, input.as_of),
        match r {
            Ok(e) => {
                &&& e.schema_version == SCHEMA_VERSION
                &&& e.as_of == input.as_of
                &&& e.data_through == input.data_through
                &&& e.generated_at_utc == input.generated_at_utc
                &&& e.code_version == input.code_version
                &&& e.strategy == input.strategy
                &&& e.macro_on == (input.scores@.len() == 0 || input.scores@[0].macro_on)
                &&& e.vix == input.vix
                &&& e.universe_size == input.scores@.len()
                &&& forall|s: Seq<Seq<char>>| #[trigger]
                    order::strictly_sorted(s) && (forall|t: Seq<char>|
                        s.contains(t) <==> ranked_tickers(input.scores@).contains(t))
                        ==> e.universe_hash@ == universe_digest(s)
                &&& e.picks == input.picks
                &&& ranks(e.ranking@, input.scores@, input.figures@)
                &&& e.prev_hash@ == link(log@)
                &&& e.hash@.len() == 0
                &&& e.body@.len() == 0
            },
            Err(x) => x == (NotNewer { as_of: input.as_of, latest: log@.last().as_of }),
        },
{
    let mut prev_hash: String = String::new();
    if log.len() > 0 {
        let last: &ForwardEntry = &log[log.len() - 1];
        if input.as_of.days <= last.as_of.days {
            return Err(NotNewer { as_of: input.as_of, latest: last.as_of });
        }
        prev_hash = last.hash.clone();
    }
    let mut tickers: Vec<String> = Vec::new();
    let mut ranking: Vec<RankedName> = Vec::new();
    let mut i: usize = 0;
    while i < input.scores.len()
        invariant
            i <= input.scores@.len(),
            input.figures@.len() == input.scores@.len(),
            tickers@.len() == i,
            forall|k: int| 0 <= k < i ==> (#[trigger] tickers@[k])@ == input.scores@[k].ticker@,
            ranking@.len() == i,
            forall|k: int|
                0 <= k < i ==> (#[trigger] ranking@[k]).ticker@ == input.scores@[k].ticker@
                    && ranking@[k].composite == input.figures@[k].composite
                    && ranking@[k].signals_available == input.figures@[k].signals_available,
        decreases input.scores@.len() - i,
    {
        tickers.push(input.scores[i].ticker.clone());
        ranking.push(
            RankedName {
                ticker: input.scores[i].ticker.clone(),
                composite: input.figures[i].composite,
                signals_available: input.figures[i].signals_available,
            },
        );
        i = i + 1;
    }
    let universe: String = universe_hash(&tickers);
    proof {
        assert(text::texts(tickers@) =~= ranked_tickers(input.scores@));
        assert(log@.len() == 0 ==> prev_hash@ =~= link(log@));
    }
    let macro_on: bool = input.scores.len() == 0 || input.scores[0].macro_on;
    let universe_size: usize = input.scores.len();
    Ok(
        ForwardEntry {
            schema_version: SCHEMA_VERSION,
            as_of: input.as_of,
            data_through: input.data_through,
            generated_at_utc: input.generated_at_utc,
            code_version: input.code_version,
            strategy: input.strategy,
            macro_on,
            vix: input.vix,
            universe_size,
            universe_hash: universe,
            picks: input.picks,
            ranking,
            prev_hash,
            body: Vec::new(),
            hash: String::new(),
        },
    )
}

/// The latest day that any ranked name had a bar for, or `as_of` where none had one.
pub fn data_through(last_bars: &Vec<Option<Date>>, as_of: Date) -> (r: Date)
    ensures
        (forall|i: int| 0 <= i < last_bars@.len() ==> (#[trigger] last_bars@[i]) is None) ==> r
            == as_of,
        (exists|i: int| 0 <= i < last_bars@.len() && (#[trigger] last_bars@[i]) is Some)
            ==> last_bars@.contains(Some(r)),
        forall|i: int|
            0 <= i < last_bars@.len() ==> ((#[trigger] last_bars@[i]) matches Some(d) ==> d.days
                <= r.days),
{
    let mut best: Option<Date> = None;
    let mut i: usize = 0;
    while i < last_bars.len()
        invariant
            i <= last_bars@.len(),
            match best {
                Some(d) => last_bars@.contains(Some(d)),
                None => forall|k: int| 0 <= k < i ==> (#[trigger] last_bars@[k]) is None,
            },
            forall|k: int|
                0 <= k < i ==> ((#[trigger] last_bars@[k]) matches Some(d) ==> best is Some
                    && d.days <= best->0.days),
        decreases last_bars@.len() - i,
    {
        if let Some(d) = last_bars[i] {
            let better: bool = match best {
                Some(b) => d.days > b.days,
                None => true,
            };
            if better {
                best = Some(d);
                proof {
                    assert(last_bars@[i as int] == Some(d));
                }
            }
        }
        i = i + 1;
    }
    match best {
        Some(d) => d,
        None => as_of,
    }
}

/// The name of an entry's file.
pub fn entry_name(date: Date) -> (r: String)
    requires
        date.in_range(),
    ensures
        r@ == calendar::day_text(date.days as int) + ".json"@,
{
    let mut s: String = date.text();
    s.append(".json");
    s
}

/// Whether a file name is that of an entry: a date and `.json`.
pub open spec fn names_entry(name: Seq<char>) -> bool {
    ".json"@.is_suffix_of(name) && name.len() > 5 && calendar::plain_day(
        name.take(name.len() - 5),
    ) is Some
}

/// Whether a file name is that of an entry.
pub fn is_entry_name(name: &str) -> (r: bool)
    ensures
        r == names_entry(name@),
{
    proof {
        reveal_strlit(".json");
    }
    if !text::ends_with(name, ".json") {
        return false;
    }
    let v: Vec<char> = text::to_chars(name);
    if v.len() <= 5 {
        return false;
    }
    let stem: String = text::from_chars(&v, 0, v.len() - 5);
    proof {
        assert(stem@ =~= name@.take(name@.len() - 5));
    }
    Date::from_text(stem.as_str()).is_some()
}

/// The entry files among the files of a directory, in increasing order. Other files are ignored.
pub fn entry_files(names: &Vec<String>) -> (r: Vec<String>)
    ensures
        order::strictly_sorted(text::texts(r@)),
        forall|t: Seq<char>|
            text::texts(r@).contains(t) <==> text::texts(names@).contains(t) && names_entry(t),
{
    let mut out: Vec<String> = Vec::new();
    let mut i: usize = 0;
    let ghost all = text::texts(names@);
    proof {
        assert(text::texts(out@) =~= Seq::<Seq<char>>::empty());
    }
    while i < names.len()
        invariant
            i <= names@.len(),
            all == text::texts(names@),
            order::strictly_sorted(text::texts(out@)),
            forall|t: Seq<char>| #[trigger]
                text::texts(out@).contains(t) <==> names_entry(t) && exists|k: int|
                    0 <= k < i && (#[trigger] all[k]) == t,
        decreases names@.len() - i,
    {
        let ghost before = text::texts(out@);
        proof {
            assert(all[i as int] == names@[i as int]@);
        }
        if is_entry_name(names[i].as_str()) {
            order::insert_sorted(&mut out, names[i].as_str());
        }
        proof {
            assert forall|t: Seq<char>| #[trigger]
                text::texts(out@).contains(t) <==> names_entry(t) && exists|k: int|
                    0 <= k < i + 1 && (#[trigger] all[k]) == t by {
                assert(before.contains(t) <==> names_entry(t) && exists|k: int|
                    0 <= k < i && (#[trigger] all[k]) == t);
                if t == all[i as int] && names_entry(t) {
                    assert(text::texts(out@).contains(t));
                }
            }
        }
        i = i + 1;
    }
    out
}

// ── Verification ─────────────────────────────────────────────────────────────

/// What a check of a log finds.
#[derive(Debug)]
pub struct VerifyReport {
    pub n_entries: usize,
    pub first_error: Option<String>,
}

impl VerifyReport {
    /// Whether nothing is wrong.
    pub fn ok(&self) -> (r: bool)
        ensures
            r == (self.first_error is None),
    {
        self.first_error.is_none()
    }
}

/// What is wrong with the entry at position `i`, if anything, given that those before it are in
/// order.
pub open spec fn fault(s: Seq<ForwardEntry>, i: int) -> Option<Seq<char>> {
    let e = s[i];
    let date = calendar::day_text(e.as_of.days as int);
    if !e.intact() {
        Some(date + ": contents do not match their hash (edited after the fact)"@)
    } else if e.prev_hash@ != link(s.take(i)) {
        Some(
            date
                + ": does not link to the previous entry (an entry was removed or replaced)"@,
        )
    } else if i > 0 && e.as_of.days <= s[i - 1].as_of.days {
        Some(date + ": dates are not strictly increasing"@)
    } else {
        None
    }
}

/// A log in order: every entry is intact, links to the one before it and is later than it.
pub open spec fn chain(s: Seq<ForwardEntry>) -> bool {
    forall|i: int| 0 <= i < s.len() ==> (#[trigger] fault(s, i)) is None
}

/// A text that begins with the date of an entry.
fn dated(date: Date, rest: &str) -> (r: String)
    requires
        date.in_range(),
    ensures
        r@ == calendar::day_text(date.days as int) + rest@,
{
    let mut s: String = date.text();
    s.append(rest);
    s
}

/// What is wrong with the entry at position `i`, in words.
fn find_fault(log: &Vec<ForwardEntry>, i: usize) -> (r: Option<String>)
    requires
        i < log@.len(),
        log@[i as int].as_of.in_range(),
    ensures
        match r {
            Some(s) => fault(log@, i as int) == Some(s@),
            None => fault(log@, i as int) is None,
        },
{
    let e: &ForwardEntry = &log[i];
    if !text::same_text(e.compute_hash().as_str(), e.hash.as_str()) {
        return Some(
            dated(e.as_of, ": contents do not match their hash (edited after the fact)"),
        );
    }
    let linked: bool = if i == 0 {
        e.prev_hash.as_str().unicode_len() == 0
    } else {
        text::same_text(e.prev_hash.as_str(), log[i - 1].hash.as_str())
    };
    proof {
        if i == 0 {
            assert(linked == (e.prev_hash@ =~= seq![]));
        } else {
            assert(log@.take(i as int).last() == log@[i - 1]);
        }
    }
    if !linked {
        return Some(
            dated(
                e.as_of,
                ": does not link to the previous entry (an entry was removed or replaced)",
            ),
        );
    }
    if i > 0 && e.as_of.days <= log[i - 1].as_of.days {
        return Some(dated(e.as_of, ": dates are not strictly increasing"));
    }
    None
}

/// Checks a log, oldest entry first: recomputes the digest of every entry's bytes and every link.
pub fn verify(log: &Vec<ForwardEntry>) -> (r: VerifyReport)
    requires
        forall|i: int| 0 <= i < log@.len() ==> (#[trigger] log@[i]).as_of.in_range(),
    ensures
        r.n_entries == log@.len(),
        r.first_error is None <==> chain(log@),
        r.first_error matches Some(s) ==> exists|i: int|
            0 <= i < log@.len() && #[trigger] fault(log@, i) == Some(s@) && forall|k: int|
                0 <= k < i ==> (#[trigger] fault(log@, k)) is None,
{
    let mut i: usize = 0;
    while i < log.len()
        invariant
            i <= log@.len(),
            forall|k: int| 0 <= k < log@.len() ==> (#[trigger] log@[k]).as_of.in_range(),
            forall|k: int| 0 <= k < i ==> (#[trigger] fault(log@, k)) is None,
        decreases log@.len() - i,
    {
        proof {
            assert(log@[i as int].as_of.in_range());
        }
        match find_fault(log, i) {
            Some(s) => {
                proof {
                    assert(fault(log@, i as int) == Some(s@));
                }
                return VerifyReport { n_entries: log.len(), first_error: Some(s) };
            },
            None => {},
        }
        i = i + 1;
    }
    VerifyReport { n_entries: log.len(), first_error: None }
}

// ── Laws of the chain ────────────────────────────────────────────────────────

/// Appending a sealed entry that links to the last one and is later keeps a log in order: a log
/// made by recording alone always checks.
pub proof fn recording_keeps_the_chain(s: Seq<ForwardEntry>, e: ForwardEntry)
    requires
        chain(s),
        appendable(s, e.as_of),
        e.prev_hash@ == link(s),
        e.intact(),
    ensures
        chain(s.push(e)),
{
    let t = s.push(e);
    assert forall|i: int| 0 <= i < t.len() implies (#[trigger] fault(t, i)) is None by {
        if i < s.len() {
            assert(t.take(i) =~= s.take(i));
            assert(fault(s, i) is None);
            if i > 0 {
                assert(t[i - 1] == s[i - 1]);
            }
        } else {
            assert(t.take(i) =~= s);
        }
    }
}

/// Changing the stored bytes of an entry without its digest is found, wherever the entry stands,
/// unless the digests collide.
pub proof fn editing_an_entry_is_detected(s: Seq<ForwardEntry>, i: int, e: ForwardEntry)
    requires
        chain(s),
        0 <= i < s.len(),
        e.hash@ == s[i].hash@,
        sha256_text(e.body@) != sha256_text(s[i].body@),
    ensures
        !chain(s.update(i, e)),
{
    assert(fault(s, i) is None);
    assert(fault(s.update(i, e), i) is Some);
}

/// Replacing an entry by another with another digest is found, unless it is the last: the next
/// entry links to the digest that was.
pub proof fn replacing_an_entry_is_detected(s: Seq<ForwardEntry>, i: int, e: ForwardEntry)
    requires
        chain(s),
        0 <= i < s.len() - 1,
        e.hash@ != s[i].hash@,
    ensures
        !chain(s.update(i, e)),
{
    let t = s.update(i, e);
    assert(fault(s, i + 1) is None);
    assert(s.take(i + 1).last() == s[i]);
    assert(t.take(i + 1).last() == e);
    assert(t[i + 1] == s[i + 1]);
    assert(fault(t, i + 1) is Some);
}

/// Removing an entry that is not the last is found, unless its digest is that of the one before
/// it, or empty.
pub proof fn removing_an_entry_is_detected(s: Seq<ForwardEntry>, i: int)
    requires
        chain(s),
        0 <= i < s.len() - 1,
        s[i].hash@ != link(s.take(i)),
    ensures
        !chain(s.remove(i)),
{
    let t = s.remove(i);
    assert(fault(s, i + 1) is None);
    assert(s.take(i + 1).last() == s[i]);
    assert(t[i] == s[i + 1]);
    assert(t.take(i) =~= s.take(i));
    assert(fault(t, i) is Some);
}

/// The entries of a log at given positions.
pub open spec fn kept(s: Seq<ForwardEntry>, positions: Seq<int>) -> Seq<ForwardEntry> {
    positions.map_values(|k: int| s[k])
}

/// Removing entries, however many and from wherever, is found unless only the latest ones go, where
/// no digest is empty and no two are equal. `positions` are those of the entries that stay, one of
/// which no longer stands where it stood.
pub proof fn removing_entries_is_detected(s: Seq<ForwardEntry>, positions: Seq<int>, moved: int)
    requires
        chain(s),
        forall|i: int| 0 <= i < positions.len() ==> 0 <= #[trigger] positions[i] < s.len(),
        forall|i: int, j: int|
            0 <= i < j < positions.len() ==> (#[trigger] positions[i]) < (#[trigger] positions[j]),
        0 <= moved < positions.len(),
        positions[moved] != moved,
        forall|i: int| 0 <= i < s.len() ==> (#[trigger] s[i]).hash@.len() > 0,
        forall|i: int, j: int|
            0 <= i < j < s.len() ==> (#[trigger] s[i]).hash@ != (#[trigger] s[j]).hash@,
    ensures
        !chain(kept(s, positions)),
    decreases moved,
{
    if moved > 0 && positions[moved - 1] != moved - 1 {
        removing_entries_is_detected(s, positions, moved - 1);
    } else {
        let t = kept(s, positions);
        let at = positions[moved];
        assert(at > moved);
        assert(fault(s, at) is None);
        assert(s.take(at).last() == s[at - 1]);
        assert(t[moved] == s[at]);
        if moved > 0 {
            assert(t.take(moved).last() == s[moved - 1]);
        }
        assert(fault(t, moved) is Some);
    }
}

/// A chain alone does not show that its latest entries are gone.
pub proof fn removing_the_latest_entries_is_not_detected(s: Seq<ForwardEntry>, n: int)
    requires
        chain(s),
        0 <= n <= s.len(),
    ensures
        chain(s.take(n)),
{
    let t = s.take(n);
    assert forall|i: int| 0 <= i < t.len() implies (#[trigger] fault(t, i)) is None by {
        assert(t.take(i) =~= s.take(i));
        assert(fault(s, i) is None);
        if i > 0 {
            assert(t[i - 1] == s[i - 1]);
        }
    }
}

/// The dates of a log in order increase.
pub proof fn dates_of_a_chain_increase(s: Seq<ForwardEntry>, i: int, j: int)
    requires
        chain(s),
        0 <= i < j < s.len(),
    ensures
        s[i].as_of.days < s[j].as_of.days,
    decreases j - i,
{
    assert(fault(s, j) is None);
    if i < j - 1 {
        dates_of_a_chain_increase(s, i, j - 1);
    }
}

// ── The log through its functions ────────────────────────────────────────────

/// A log checks exactly where each entry's bytes have the digest that the entry carries, each entry
/// carries the digest of the one before it, the first an empty one, and dates increase.
pub proof fn a_log_checks_where_digests_links_and_dates_agree(
    log: Vec<ForwardEntry>,
    r: VerifyReport,
    ok: bool,
)
    requires
        forall|i: int| 0 <= i < log@.len() ==> (#[trigger] log@[i]).as_of.in_range(),
        call_ensures(verify, (&log,), r),
        call_ensures(VerifyReport::ok, (&r,), ok),
    ensures
        ok <==> {
            &&& forall|i: int|
                0 <= i < log@.len() ==> (#[trigger] log@[i]).hash@ == sha256_text(log@[i].body@)
            &&& log@.len() > 0 ==> log@[0].prev_hash@.len() == 0
            &&& forall|i: int, j: int|
                0 <= i < log@.len() && j == i + 1 && j < log@.len() ==> (
                #[trigger] log@[j]).prev_hash@ == (#[trigger] log@[i]).hash@ && log@[i].as_of.days
                    < log@[j].as_of.days
        },
        r.n_entries == log@.len(),
{
    let s = log@;
    let digests = forall|i: int|
        0 <= i < s.len() ==> (#[trigger] s[i]).hash@ == sha256_text(s[i].body@);
    let first = s.len() > 0 ==> s[0].prev_hash@.len() == 0;
    let links = forall|i: int, j: int|
        0 <= i < s.len() && j == i + 1 && j < s.len() ==> (#[trigger] s[j]).prev_hash@ == (
        #[trigger] s[i]).hash@ && s[i].as_of.days < s[j].as_of.days;
    assert forall|i: int| 0 < i <= s.len() implies (#[trigger] s.take(i)).last() == s[i - 1] by {}
    if chain(s) {
        assert forall|i: int| 0 <= i < s.len() implies (#[trigger] s[i]).hash@ == sha256_text(
            s[i].body@,
        ) by {
            assert(fault(s, i) is None);
        }
        if s.len() > 0 {
            assert(fault(s, 0) is None);
            assert(s.take(0).len() == 0);
        }
        assert forall|i: int, j: int|
            0 <= i < s.len() && j == i + 1 && j < s.len() implies (#[trigger] s[j]).prev_hash@ == (
        #[trigger] s[i]).hash@ && s[i].as_of.days < s[j].as_of.days by {
            assert(fault(s, j) is None);
            assert(s.take(j).last() == s[i]);
        }
    }
    if digests && first && links {
        assert forall|i: int| 0 <= i < s.len() implies (#[trigger] fault(s, i)) is None by {
            assert(s[i].intact());
            if i == 0 {
                assert(s.take(0) =~= seq![]);
                assert(s[0].prev_hash@ =~= seq![]);
            } else {
                assert(s[i].prev_hash@ == s[i - 1].hash@);
                assert(s.take(i).last() == s[i - 1]);
            }
        }
    }
}

/// An entry that is recorded, sealed and appended to a log that checks gives a log that checks.
pub proof fn a_recorded_entry_keeps_the_log_in_order(
    log: Vec<ForwardEntry>,
    input: LogInput,
    entry: ForwardEntry,
    sealed: &mut ForwardEntry,
    body: Vec<u8>,
    longer: Vec<ForwardEntry>,
    before: VerifyReport,
    after: VerifyReport,
)
    requires
        input.figures@.len() == input.scores@.len(),
        input.as_of.in_range(),
        forall|i: int| 0 <= i < log@.len() ==> (#[trigger] log@[i]).as_of.in_range(),
        call_ensures(verify, (&log,), before),
        before.first_error is None,
        call_ensures(record, (&log, input), Ok(entry)),
        *old(sealed) == entry,
        call_ensures(ForwardEntry::seal, (sealed, body), ()),
        longer@ == log@.push(*final(sealed)),
        call_ensures(verify, (&longer,), after),
    ensures
        after.first_error is None,
        after.n_entries == log@.len() + 1,
{
    recording_keeps_the_chain(log@, *final(sealed));
}

/// An entry is refused exactly where its date is not later than that of the last one, and the
/// refusal names both dates.
pub proof fn only_later_dates_are_recorded(
    log: Vec<ForwardEntry>,
    input: LogInput,
    r: Result<ForwardEntry, NotNewer>,
)
    requires
        input.figures@.len() == input.scores@.len(),
        call_ensures(record, (&log, input), r),
    ensures
        log@.len() == 0 ==> r is Ok,
        log@.len() > 0 ==> (r is Err <==> input.as_of.days <= log@[log@.len() - 1].as_of.days),
        r matches Err(x) ==> x.as_of == input.as_of && x.latest == log@[log@.len() - 1].as_of,
{
}

/// An entry says what was recorded: its dates, strategy and picks, the score and the number of
/// signals of every ranked name in order, the regime of the first of them, and how many there were.
pub proof fn an_entry_says_what_was_recorded(
    log: Vec<ForwardEntry>,
    input: LogInput,
    e: ForwardEntry,
    names: Vec<String>,
    digest: String,
    i: int,
)
    requires
        input.figures@.len() == input.scores@.len(),
        call_ensures(record, (&log, input), Ok(e)),
        call_ensures(universe_hash, (&names,), digest),
        names@.len() == input.scores@.len(),
        forall|k: int| 0 <= k < names@.len() ==> (#[trigger] names@[k])@ == input.scores@[k].ticker@,
        0 <= i < input.scores@.len(),
    ensures
        e.as_of == input.as_of && e.data_through == input.data_through,
        e.strategy@ == input.strategy@ && e.picks@ == input.picks@ && e.vix == input.vix,
        e.macro_on == input.scores@[0].macro_on,
        e.universe_size == input.scores@.len(),
        e.universe_hash@ == digest@,
        e.ranking@.len() == input.scores@.len(),
        e.ranking@[i].ticker@ == input.scores@[i].ticker@,
        e.ranking@[i].composite == input.figures@[i].composite,
        e.ranking@[i].signals_available == input.figures@[i].signals_available,
        log@.len() > 0 ==> e.prev_hash@ == log@[log@.len() - 1].hash@,
        log@.len() == 0 ==> e.prev_hash@.len() == 0,
        e.schema_version == 1,
{
    assert(text::texts(names@) =~= ranked_tickers(input.scores@));
    let args = (&names,);
    let s = choose|s: Seq<Seq<char>>| #[trigger]
        order::strictly_sorted(s) && (forall|t: Seq<char>|
            s.contains(t) <==> text::texts(args.0@).contains(t)) && digest@ == universe_digest(s);
    let record_args = (&log, input);
    assert(order::strictly_sorted(s) && (forall|t: Seq<char>|
        s.contains(t) <==> ranked_tickers(record_args.1.scores@).contains(t)));
}

/// Universes of the same tickers have the same digest, however they are listed.
pub proof fn the_digest_is_that_of_the_set(
    a: Vec<String>,
    b: Vec<String>,
    x: String,
    y: String,
)
    requires
        call_ensures(universe_hash, (&a,), x),
        call_ensures(universe_hash, (&b,), y),
        forall|t: Seq<char>| text::texts(a@).contains(t) <==> text::texts(b@).contains(t),
    ensures
        x@ == y@,
{
    let first = (&a,);
    let s = choose|s: Seq<Seq<char>>| #[trigger]
        order::strictly_sorted(s) && (forall|t: Seq<char>|
            s.contains(t) <==> text::texts(first.0@).contains(t)) && x@ == universe_digest(s);
    let second = (&b,);
    assert(order::strictly_sorted(s) && (forall|t: Seq<char>|
        s.contains(t) <==> text::texts(second.0@).contains(t)));
}

/// Data reach to the latest bar of any name: no name has a later one, and some name has that one.
pub proof fn data_reach_to_the_latest_bar(last_bars: Vec<Option<Date>>, as_of: Date, r: Date, i: int)
    requires
        call_ensures(data_through, (&last_bars, as_of), r),
        0 <= i < last_bars@.len(),
        last_bars@[i] is Some,
    ensures
        last_bars@[i]->0.days <= r.days,
        last_bars@.contains(Some(r)),
{
    let args = (&last_bars, as_of);
    assert(args.0@[i] is Some);
}

/// The record of a pick is under its own ticker and rank.
pub proof fn picks_are_logged_under_their_rank(
    s: SignalScore,
    figures: Figures,
    missing: Vec<String>,
    r: LoggedPick,
)
    requires
        call_ensures(LoggedPick::from_score, (&s, figures, missing), r),
    ensures
        r.ticker@ == s.ticker@ && r.rank == s.rank && r.figures == figures
            && r.missing_signals@ == missing@,
{
}

/// The file that a date of the years 0 to 9999 is written to is an entry of the directory that
/// holds it, and entries come in increasing order.
pub proof fn entries_are_found_by_their_name(
    names: Vec<String>,
    r: Vec<String>,
    date: Date,
    parts: (i32, u32, u32),
    own: String,
    stem: &str,
    read: Option<Date>,
)
    requires
        call_ensures(entry_files, (&names,), r),
        date.in_range(),
        call_ensures(Date::ymd, (date,), parts),
        0 <= parts.0 <= 9999,
        call_ensures(entry_name, (date,), own),
        stem@ == calendar::day_text(date.days as int),
        call_ensures(Date::from_text, (stem,), read),
        read == Some(date),
        stem@.len() > 0,
    ensures
        text::texts(names@).contains(own@) <==> text::texts(r@).contains(own@),
        order::strictly_sorted(text::texts(r@)),
{
    reveal_strlit(".json");
    let n = own@.len() as int;
    assert(own@.take(n - 5) =~= stem@);
    assert(own@.skip(n - 5) =~= ".json"@);
    assert(names_entry(own@));
    let args = (&names,);
    assert(text::texts(r@).contains(own@) <==> text::texts(args.0@).contains(own@) && names_entry(
        own@,
    ));
}

} // verus!
