//! Insider trades from the SEC's EDGAR: which filings to read, and the reading
//! of a Form 4.

use vstd::prelude::*;
use vstd::string::*;

use crate::calendar;
use crate::calendar::Date;
use crate::data::json;
use crate::data::json::{Json, JsonView};
use crate::data::types::InsiderTrade;
use crate::data::xml;
use crate::number::Number;
use crate::text;

verus! {

/// Milliseconds between two requests.
pub const EDGAR_DELAY_MS: u64 = 150;

/// Milliseconds by which the wait before a further attempt grows.
pub const RETRY_STEP_MS: u64 = 500;

/// Hours for which insider trades are kept.
pub const INSIDER_CACHE_HOURS: i64 = 48;

// ── Attempts ─────────────────────────────────────────────────────────────────

/// A request that may be tried several times.
#[derive(Clone, Copy, Debug, PartialEq, Eq, Structural)]
pub struct Attempts {
    /// Attempts made.
    pub made: u32,
    /// Most attempts.
    pub allowed: u32,
}

impl Attempts {
    /// A request with at most `attempts` attempts, at least one.
    pub fn new(attempts: u32) -> (r: Attempts)
        ensures
            r.made == 0,
            r.allowed == (if attempts == 0 {
                1
            } else {
                attempts
            }),
    {
        Attempts {
            made: 0,
            allowed: if attempts == 0 {
                1
            } else {
                attempts
            },
        }
    }

    /// How long to wait before the next attempt, in milliseconds; nothing once none is left.
    pub fn next_delay(&mut self) -> (r: Option<u64>)
        ensures
            final(self).allowed == old(self).allowed,
            match r {
                Some(ms) => {
                    &&& old(self).made < old(self).allowed
                    &&& ms == EDGAR_DELAY_MS + old(self).made * RETRY_STEP_MS
                    &&& final(self).made == old(self).made + 1
                },
                None => old(self).made >= old(self).allowed && final(self).made == old(self).made,
            },
    {
        if self.made >= self.allowed {
            return None;
        }
        let ms: u64 = EDGAR_DELAY_MS + (self.made as u64) * RETRY_STEP_MS;
        self.made = self.made + 1;
        Some(ms)
    }
}

// ── Company numbers ──────────────────────────────────────────────────────────

/// A ticker, in upper case, and its company number.
#[derive(Debug)]
pub struct CikEntry {
    pub ticker: String,
    pub cik: u64,
}

/// What the company directory says of a ticker.
#[derive(Clone, Copy, Debug, PartialEq, Eq, Structural)]
pub enum CikLookup {
    Found(u64),
    /// The directory is loaded and does not list the ticker.
    Unknown,
    /// The directory is still to be loaded.
    NotLoaded,
}

/// The last company number listed for a ticker.
pub open spec fn listed_cik(s: Seq<CikEntry>, t: Seq<char>) -> Option<u64>
    decreases s.len(),
{
    if s.len() == 0 {
        None
    } else if s.last().ticker@ == t {
        Some(s.last().cik)
    } else {
        listed_cik(s.drop_last(), t)
    }
}

/// Looks up a ticker, in any case.
pub fn lookup_cik(directory: &Vec<CikEntry>, ticker: &str) -> (r: CikLookup)
    ensures
        r == (match listed_cik(directory@, text::upper_text(ticker@)) {
            Some(cik) => CikLookup::Found(cik),
            None => if directory@.len() == 0 {
                CikLookup::NotLoaded
            } else {
                CikLookup::Unknown
            },
        }),
{
    let upper: String = text::to_upper(ticker);
    let mut n: usize = directory.len();
    proof {
        assert(directory@.take(n as int) =~= directory@);
    }
    while n > 0
        invariant
            n <= directory@.len(),
            upper@ == text::upper_text(ticker@),
            listed_cik(directory@, upper@) == listed_cik(directory@.take(n as int), upper@),
        decreases n,
    {
        proof {
            assert(directory@.take(n as int).last() == directory@[n - 1]);
            assert(directory@.take(n as int).drop_last() =~= directory@.take(n - 1));
        }
        if text::same_text(directory[n - 1].ticker.as_str(), upper.as_str()) {
            return CikLookup::Found(directory[n - 1].cik);
        }
        n = n - 1;
    }
    if directory.len() == 0 {
        CikLookup::NotLoaded
    } else {
        CikLookup::Unknown
    }
}

/// What the directory says of one company, where it gives a ticker and a number.
pub open spec fn directory_entry(v: JsonView) -> Option<(Seq<char>, u64)> {
    match (v.member("ticker"@), v.member("cik_str"@)) {
        (Some(t), Some(c)) => match (t.text(), c.natural()) {
            (Some(t), Some(c)) => Some((text::upper_text(t), c)),
            _ => None,
        },
        _ => None,
    }
}

/// The entries of the company directory.
pub open spec fn directory_entries(s: Seq<(Seq<char>, JsonView)>) -> Seq<(Seq<char>, u64)>
    decreases s.len(),
{
    if s.len() == 0 {
        seq![]
    } else {
        let rest = directory_entries(s.drop_last());
        match directory_entry(s.last().1) {
            Some(e) => rest.push(e),
            None => rest,
        }
    }
}

/// The company directory that a document holds; empty where the document is no object.
pub fn read_directory(doc: &Json) -> (r: Vec<CikEntry>)
    ensures
        r@.map_values(|e: CikEntry| (e.ticker@, e.cik)) == (match doc@ {
            JsonView::Object(s) => directory_entries(s),
            _ => seq![],
        }),
{
    let ghost see = |e: CikEntry| (e.ticker@, e.cik);
    let mut out: Vec<CikEntry> = Vec::new();
    proof {
        assert(out@.map_values(see) =~= seq![]);
    }
    match doc {
        Json::Object(v) => {
            let ghost all = json::member_views(v@);
            let mut i: usize = 0;
            proof {
                json::views_of_parts(*doc);
                assert(all.take(0) =~= seq![]);
            }
            while i < v.len()
                invariant
                    i <= v@.len(),
                    all == json::member_views(v@),
                    see == (|e: CikEntry| (e.ticker@, e.cik)),
                    out@.map_values(see) == directory_entries(all.take(i as int)),
                decreases v@.len() - i,
            {
                let ghost before = out@;
                proof {
                    assert(all.take(i + 1).drop_last() =~= all.take(i as int));
                    assert(all.take(i + 1).last() == (v@[i as int].0@, v@[i as int].1@));
                }
                let entry: &Json = &v[i].1;
                let ticker: Option<&str> = match entry.member("ticker") {
                    Some(j) => j.as_text(),
                    None => None,
                };
                let cik: Option<u64> = match entry.member("cik_str") {
                    Some(j) => j.as_natural(),
                    None => None,
                };
                match (ticker, cik) {
                    (Some(t), Some(c)) => {
                        out.push(CikEntry { ticker: text::to_upper(t), cik: c });
                        proof {
                            assert(out@.map_values(see) =~= before.map_values(see).push(
                                (text::upper_text(t@), c),
                            ));
                        }
                    },
                    _ => {},
                }
                i = i + 1;
            }
            proof {
                assert(all.take(v@.len() as int) =~= all);
            }
        },
        _ => {},
    }
    out
}

/// A company number with leading zeros, ten digits long.
pub fn padded_cik(cik: u64) -> (r: String)
    ensures
        r@ == text::repeated('0', 10 - text::decimal(cik as nat).len()) + text::decimal(cik as nat),
{
    let digits: String = text::decimal_text(cik);
    let n: usize = digits.as_str().unicode_len();
    let gap: usize = if n < 10 {
        10 - n
    } else {
        0
    };
    let mut s: String = text::repeat_char('0', gap);
    s.append(digits.as_str());
    proof {
        assert(text::repeated('0', gap as int) =~= text::repeated(
            '0',
            10 - text::decimal(cik as nat).len(),
        ));
    }
    s
}

// ── Filings ──────────────────────────────────────────────────────────────────

/// A Form 4 to read.
#[derive(Debug)]
pub struct Filing {
    pub accession: String,
    pub filing_date: Date,
    pub document: String,
}

/// Why the list of a company's filings cannot be read.
#[derive(Clone, Copy, Debug, PartialEq, Eq, Structural)]
pub enum SubmissionsError {
    NoRecentFilings,
    NoForms,
    NoDates,
    NoAccessions,
    NoDocuments,
}

impl SubmissionsError {
    /// The error in words.
    pub fn message(&self) -> (r: String)
        ensures
            r@ == (match *self {
                SubmissionsError::NoRecentFilings => "No filings.recent in EDGAR submissions"@,
                SubmissionsError::NoForms => "No form array in EDGAR filings"@,
                SubmissionsError::NoDates => "No filingDate array"@,
                SubmissionsError::NoAccessions => "No accessionNumber array"@,
                SubmissionsError::NoDocuments => "No primaryDocument array"@,
            }),
    {
        match self {
            SubmissionsError::NoRecentFilings =>
                "No filings.recent in EDGAR submissions".to_owned(),
            SubmissionsError::NoForms => "No form array in EDGAR filings".to_owned(),
            SubmissionsError::NoDates => "No filingDate array".to_owned(),
            SubmissionsError::NoAccessions => "No accessionNumber array".to_owned(),
            SubmissionsError::NoDocuments => "No primaryDocument array".to_owned(),
        }
    }
}

/// The text at a position of a list, or an empty one.
pub open spec fn text_at(s: Seq<JsonView>, i: int) -> Seq<char> {
    if 0 <= i < s.len() {
        match s[i].text() {
            Some(t) => t,
            None => seq![],
        }
    } else {
        seq![]
    }
}

/// The text at a position of a list, or an empty one.
fn text_in(v: &Vec<Json>, i: usize) -> (r: String)
    ensures
        r@ == text_at(json::views(v@), i as int),
{
    if i < v.len() {
        match v[i].as_text() {
            Some(s) => s.to_owned(),
            None => String::new(),
        }
    } else {
        String::new()
    }
}

/// The lists that describe a company's recent filings, one element of each to a filing.
pub struct Submissions {
    pub forms: Seq<JsonView>,
    pub dates: Seq<JsonView>,
    pub accessions: Seq<JsonView>,
    pub documents: Seq<JsonView>,
}

/// A list of the recent filings.
pub open spec fn recent_list(doc: JsonView, name: Seq<char>) -> Option<Seq<JsonView>> {
    match recent(doc) {
        Some(r) => match r.member(name) {
            Some(v) => v.list(),
            None => None,
        },
        None => None,
    }
}

/// The recent filings.
pub open spec fn recent(doc: JsonView) -> Option<JsonView> {
    match doc.member("filings"@) {
        Some(f) => f.member("recent"@),
        None => None,
    }
}

/// The lists of a document, or the first that is missing.
pub open spec fn submissions(doc: JsonView) -> Result<Submissions, SubmissionsError> {
    if recent(doc) is None {
        Err(SubmissionsError::NoRecentFilings)
    } else if recent_list(doc, "form"@) is None {
        Err(SubmissionsError::NoForms)
    } else if recent_list(doc, "filingDate"@) is None {
        Err(SubmissionsError::NoDates)
    } else if recent_list(doc, "accessionNumber"@) is None {
        Err(SubmissionsError::NoAccessions)
    } else if recent_list(doc, "primaryDocument"@) is None {
        Err(SubmissionsError::NoDocuments)
    } else {
        Ok(
            Submissions {
                forms: recent_list(doc, "form"@)->0,
                dates: recent_list(doc, "filingDate"@)->0,
                accessions: recent_list(doc, "accessionNumber"@)->0,
                documents: recent_list(doc, "primaryDocument"@)->0,
            },
        )
    }
}

/// The Form 4 at a position, where there is one that was filed on or after the cutoff and that
/// names its accession and document.
pub open spec fn form4_at(s: Submissions, i: int, cutoff: int) -> Option<
    (Seq<char>, int, Seq<char>),
> {
    let day = calendar::parsed_day(text_at(s.dates, i), "%Y-%m-%d"@);
    let accession = text_at(s.accessions, i);
    let document = text_at(s.documents, i);
    if text_at(s.forms, i) == "4"@ && day is Some && day->0 >= cutoff && accession.len() > 0
        && document.len() > 0 {
        Some((accession, day->0, document))
    } else {
        None
    }
}

/// The Forms 4 among the first `n` filings.
pub open spec fn form4s(s: Submissions, n: int, cutoff: int) -> Seq<(Seq<char>, int, Seq<char>)>
    decreases n,
{
    if n <= 0 {
        seq![]
    } else {
        let rest = form4s(s, n - 1, cutoff);
        match form4_at(s, n - 1, cutoff) {
            Some(f) => rest.push(f),
            None => rest,
        }
    }
}

/// What a filing says.
pub open spec fn filing_view(f: Filing) -> (Seq<char>, int, Seq<char>) {
    (f.accession@, f.filing_date.days as int, f.document@)
}

/// A list of the recent filings.
fn list_of<'a>(recent: &'a Json, name: &str) -> (r: Option<&'a Vec<Json>>)
    ensures
        match r {
            Some(v) => recent@.member(name@) is Some && recent@.member(name@)->0.list() == Some(
                json::views(v@),
            ),
            None => recent@.member(name@) is None || recent@.member(name@)->0.list() is None,
        },
{
    match recent.member(name) {
        Some(j) => j.as_list(),
        None => None,
    }
}

/// The Forms 4 that a company filed within `days` days before `today`.
pub fn form4_filings(doc: &Json, today: Date, days: u32) -> (r: Result<
    Vec<Filing>,
    SubmissionsError,
>)
    ensures
        match submissions(doc@) {
            Ok(s) => r is Ok && r->Ok_0@.map_values(|f: Filing| filing_view(f)) == form4s(
                s,
                s.forms.len() as int,
                today.days - days,
            ),
            Err(e) => r is Err && r->Err_0 == e,
        },
{
    let recent: &Json = match doc.member("filings") {
        Some(f) => match f.member("recent") {
            Some(x) => x,
            None => {
                return Err(SubmissionsError::NoRecentFilings);
            },
        },
        None => {
            return Err(SubmissionsError::NoRecentFilings);
        },
    };
    let forms: &Vec<Json> = match list_of(recent, "form") {
        Some(v) => v,
        None => {
            return Err(SubmissionsError::NoForms);
        },
    };
    let dates: &Vec<Json> = match list_of(recent, "filingDate") {
        Some(v) => v,
        None => {
            return Err(SubmissionsError::NoDates);
        },
    };
    let accessions: &Vec<Json> = match list_of(recent, "accessionNumber") {
        Some(v) => v,
        None => {
            return Err(SubmissionsError::NoAccessions);
        },
    };
    let documents: &Vec<Json> = match list_of(recent, "primaryDocument") {
        Some(v) => v,
        None => {
            return Err(SubmissionsError::NoDocuments);
        },
    };
    let cutoff: i64 = today.days as i64 - days as i64;
    let ghost s = Submissions {
        forms: json::views(forms@),
        dates: json::views(dates@),
        accessions: json::views(accessions@),
        documents: json::views(documents@),
    };
    let ghost see = |f: Filing| filing_view(f);
    let mut out: Vec<Filing> = Vec::new();
    let mut i: usize = 0;
    proof {
        assert(submissions(doc@) == Ok::<Submissions, SubmissionsError>(s));
        assert(out@.map_values(see) =~= form4s(s, 0, cutoff as int));
    }
    while i < forms.len()
        invariant
            i <= forms@.len(),
            see == (|f: Filing| filing_view(f)),
            s == (Submissions {
                forms: json::views(forms@),
                dates: json::views(dates@),
                accessions: json::views(accessions@),
                documents: json::views(documents@),
            }),
            out@.map_values(see) == form4s(s, i as int, cutoff as int),
        decreases forms@.len() - i,
    {
        let ghost before = out@;
        let form: String = text_in(forms, i);
        let date: Option<Date> = Date::parse(text_in(dates, i).as_str(), "%Y-%m-%d");
        let accession: String = text_in(accessions, i);
        let document: String = text_in(documents, i);
        if text::same_text(form.as_str(), "4") && accession.as_str().unicode_len() > 0
            && document.as_str().unicode_len() > 0 {
            match date {
                Some(d) => {
                    if d.days as i64 >= cutoff {
                        let ghost f = (accession@, d.days as int, document@);
                        out.push(Filing { accession, filing_date: d, document });
                        proof {
                            assert(out@.map_values(see) =~= before.map_values(see).push(f));
                            assert(form4_at(s, i as int, cutoff as int) == Some(f));
                        }
                    }
                },
                None => {},
            }
        }
        i = i + 1;
    }
    Ok(out)
}

/// The name of a document without the directories before it.
pub open spec fn file_name(s: Seq<char>) -> Seq<char>
    decreases s.len(),
{
    if s.len() == 0 || s.last() == '/' {
        seq![]
    } else {
        file_name(s.drop_last()).push(s.last())
    }
}

/// The name of a Form 4's raw document. The index lists the rendered view, in a directory of its
/// own; the raw document has the same name outside it.
pub fn raw_form4_filename(primary_doc: &str) -> (r: String)
    ensures
        r@ == file_name(primary_doc@),
{
    let v: Vec<char> = text::to_chars(primary_doc);
    let mut from: usize = v.len();
    proof {
        assert(v@.take(from as int) =~= v@);
        assert(file_name(v@.take(from as int)) + v@.skip(from as int) =~= file_name(v@));
    }
    while from > 0 && v[from - 1] != '/'
        invariant
            from <= v@.len(),
            v@ == primary_doc@,
            file_name(v@) == file_name(v@.take(from as int)) + v@.skip(from as int),
        decreases from,
    {
        proof {
            let t = v@.take(from as int);
            assert(t.drop_last() =~= v@.take(from - 1));
            assert(t.last() == v@[from - 1]);
            assert(file_name(v@.take(from - 1)).push(v@[from - 1]) + v@.skip(from as int)
                =~= file_name(v@.take(from - 1)) + v@.skip(from - 1));
        }
        from = from - 1;
    }
    proof {
        if from > 0 {
            assert(v@.take(from as int).last() == '/');
        }
        assert(file_name(v@.take(from as int)) =~= seq![]);
        assert(v@.skip(from as int) =~= v@.subrange(from as int, v@.len() as int));
        assert(seq![] + v@.skip(from as int) =~= v@.skip(from as int));
    }
    text::from_chars(&v, from, v.len())
}

/// A text without the hyphens in it.
pub open spec fn unhyphenated(s: Seq<char>) -> Seq<char> {
    s.filter(|c: char| c != '-')
}

/// An accession number without its hyphens.
fn without_hyphens(s: &str) -> (r: String)
    ensures
        r@ == unhyphenated(s@),
{
    let v: Vec<char> = text::to_chars(s);
    let ghost keep = |c: char| c != '-';
    let mut out: String = String::new();
    let mut i: usize = 0;
    proof {
        reveal(Seq::filter);
        assert(v@.take(0) =~= seq![]);
        assert(out@ =~= v@.take(0).filter(keep));
    }
    while i < v.len()
        invariant
            i <= v@.len(),
            keep == (|c: char| c != '-'),
            out@ == v@.take(i as int).filter(keep),
        decreases v@.len() - i,
    {
        proof {
            reveal(Seq::filter);
            assert(v@.take(i + 1).drop_last() =~= v@.take(i as int));
            assert(v@.take(i + 1).last() == v@[i as int]);
        }
        if v[i] != '-' {
            out.push(v[i]);
        }
        i = i + 1;
    }
    proof {
        assert(v@.take(v@.len() as int) =~= v@);
    }
    out
}

/// Where a Form 4's raw document lies.
pub fn form4_url(cik: u64, accession: &str, primary_doc: &str) -> (r: String)
    ensures
        r@ == "https://www.sec.gov/Archives/edgar/data/"@ + text::decimal(cik as nat) + "/"@
            + unhyphenated(accession@) + "/"@ + file_name(primary_doc@),
{
    let mut s: String = "https://www.sec.gov/Archives/edgar/data/".to_owned();
    s.append(text::decimal_text(cik).as_str());
    s.append("/");
    s.append(without_hyphens(accession).as_str());
    s.append("/");
    s.append(raw_form4_filename(primary_doc).as_str());
    s
}

// ── Form 4 ───────────────────────────────────────────────────────────────────

/// The role of an insider, from their title in upper case and from what else they are.
pub open spec fn role(title: Seq<char>, officer: bool, director: bool) -> Seq<char> {
    if text::occurs(title, "CEO"@) || text::occurs(title, "CHIEF EXECUTIVE"@) {
        "CEO"@
    } else if text::occurs(title, "CFO"@) || text::occurs(title, "CHIEF FINANCIAL"@) {
        "CFO"@
    } else if text::occurs(title, "PRESIDENT"@) && !text::occurs(title, "VICE"@) {
        "President"@
    } else if text::occurs(title, "COO"@) || text::occurs(title, "CHIEF OPERATING"@) {
        "COO"@
    } else if officer {
        "Officer"@
    } else if director {
        "Director"@
    } else {
        "Other"@
    }
}

/// A value, or a default.
pub open spec fn or_else(v: Option<Seq<char>>, default: Seq<char>) -> Seq<char> {
    match v {
        Some(s) => s,
        None => default,
    }
}

/// Whether a value says yes.
pub open spec fn says_yes(v: Option<Seq<char>>) -> bool {
    v is Some && text::trimmed(v->0) == "1"@
}

/// The element that describes the insider, or nothing.
pub open spec fn owner(xml_text: Seq<char>) -> Seq<char> {
    or_else(xml::section(xml_text, "reportingOwner"@), seq![])
}

/// The insider's name.
pub open spec fn insider_name(xml_text: Seq<char>) -> Seq<char> {
    or_else(xml::value(owner(xml_text), "rptOwnerName"@), "Unknown"@)
}

/// The insider's role.
pub open spec fn insider_role(xml_text: Seq<char>) -> Seq<char> {
    let o = owner(xml_text);
    role(
        text::upper_text(or_else(xml::value(o, "officerTitle"@), seq![])),
        says_yes(xml::value(o, "isOfficer"@)),
        says_yes(xml::value(o, "isDirector"@)),
    )
}

/// Whether an element says yes.
fn is_yes(section: &str, tag: &str) -> (r: bool)
    ensures
        r == says_yes(xml::value(section@, tag@)),
{
    match xml::xml_val(section, tag) {
        Some(v) => text::same_text(text::trim(v.as_str()).as_str(), "1"),
        None => false,
    }
}

/// The insider's name and role.
pub fn extract_insider_info(xml_text: &str) -> (r: (String, String))
    ensures
        r.0@ == insider_name(xml_text@),
        r.1@ == insider_role(xml_text@),
{
    let section: String = match xml::xml_section(xml_text, "reportingOwner") {
        Some(s) => s,
        None => {
            let none: String = String::new();
            proof {
                assert(none@ =~= seq![]);
            }
            none
        },
    };
    let name: String = match xml::xml_val(section.as_str(), "rptOwnerName") {
        Some(s) => s,
        None => "Unknown".to_owned(),
    };
    let officer: bool = is_yes(section.as_str(), "isOfficer");
    let director: bool = is_yes(section.as_str(), "isDirector");
    let title: String = match xml::xml_val(section.as_str(), "officerTitle") {
        Some(s) => text::to_upper(s.as_str()),
        None => {
            let none: String = String::new();
            proof {
                assert(none@ =~= seq![]);
            }
            text::to_upper(none.as_str())
        },
    };
    let t: &str = title.as_str();
    let role: &str = if text::contains(t, "CEO") || text::contains(t, "CHIEF EXECUTIVE") {
        "CEO"
    } else if text::contains(t, "CFO") || text::contains(t, "CHIEF FINANCIAL") {
        "CFO"
    } else if text::contains(t, "PRESIDENT") && !text::contains(t, "VICE") {
        "President"
    } else if text::contains(t, "COO") || text::contains(t, "CHIEF OPERATING") {
        "COO"
    } else if officer {
        "Officer"
    } else if director {
        "Director"
    } else {
        "Other"
    };
    (name, role.to_owned())
}

/// A trade of a Form 4, its number of shares still as text.
#[derive(Debug)]
pub struct Form4Trade {
    pub ticker: String,
    pub filing_date: Date,
    pub trade_date: Date,
    pub insider_name: String,
    pub insider_role: String,
    pub shares: String,
    pub transaction_type: String,
}

/// What a trade says.
pub struct TradeView {
    pub ticker: Seq<char>,
    pub filing_date: Date,
    pub trade_day: int,
    pub insider_name: Seq<char>,
    pub insider_role: Seq<char>,
    pub shares: Seq<char>,
    pub transaction_type: Seq<char>,
}

impl View for Form4Trade {
    type V = TradeView;

    open spec fn view(&self) -> TradeView {
        TradeView {
            ticker: self.ticker@,
            filing_date: self.filing_date,
            trade_day: self.trade_date.days as int,
            insider_name: self.insider_name@,
            insider_role: self.insider_role@,
            shares: self.shares@,
            transaction_type: self.transaction_type@,
        }
    }
}

/// Whether a transaction code is that of a purchase or a sale on the open market. Grants,
/// exercises, withholding and gifts are no views of the insider's own.
pub open spec fn open_market(code: Option<Seq<char>>) -> bool {
    code == Some("P"@) || code == Some("S"@)
}

/// The trade that a transaction block describes, where it is one on the open market and gives a
/// date, a number of shares and a direction.
pub open spec fn block_trade(
    block: Seq<char>,
    ticker: Seq<char>,
    filed: Date,
    name: Seq<char>,
    role: Seq<char>,
) -> Option<TradeView> {
    let date = xml::nested_value(block, "transactionDate"@, "value"@);
    let shares = xml::nested_value(block, "transactionShares"@, "value"@);
    let kind = xml::nested_value(block, "transactionAcquiredDisposedCode"@, "value"@);
    if date is Some && calendar::parsed_day(date->0, "%Y-%m-%d"@) is Some && shares is Some
        && kind is Some && open_market(xml::value(block, "transactionCode"@)) {
        Some(
            TradeView {
                ticker,
                filing_date: filed,
                trade_day: calendar::parsed_day(date->0, "%Y-%m-%d"@)->0,
                insider_name: name,
                insider_role: role,
                shares: shares->0,
                transaction_type: kind->0,
            },
        )
    } else {
        None
    }
}

/// The trades that transaction blocks describe.
pub open spec fn block_trades(
    blocks: Seq<Seq<char>>,
    ticker: Seq<char>,
    filed: Date,
    name: Seq<char>,
    role: Seq<char>,
) -> Seq<TradeView>
    decreases blocks.len(),
{
    if blocks.len() == 0 {
        seq![]
    } else {
        let rest = block_trades(blocks.drop_last(), ticker, filed, name, role);
        match block_trade(blocks.last(), ticker, filed, name, role) {
            Some(t) => rest.push(t),
            None => rest,
        }
    }
}

/// The trade that a transaction block describes.
fn read_block(block: &str, ticker: &str, filed: Date, name: &str, role: &str) -> (r: Option<
    Form4Trade,
>)
    ensures
        match r {
            Some(t) => block_trade(block@, ticker@, filed, name@, role@) == Some(t@),
            None => block_trade(block@, ticker@, filed, name@, role@) is None,
        },
{
    let date: Option<Date> = match xml::xml_nested_val(block, "transactionDate", "value") {
        Some(s) => Date::parse(s.as_str(), "%Y-%m-%d"),
        None => None,
    };
    let shares: Option<String> = xml::xml_nested_val(block, "transactionShares", "value");
    let kind: Option<String> = xml::xml_nested_val(
        block,
        "transactionAcquiredDisposedCode",
        "value",
    );
    let kept: bool = match xml::xml_val(block, "transactionCode") {
        Some(code) => text::same_text(code.as_str(), "P") || text::same_text(code.as_str(), "S"),
        None => false,
    };
    if !kept {
        return None;
    }
    match (date, shares, kind) {
        (Some(trade_date), Some(shares), Some(transaction_type)) => Some(
            Form4Trade {
                ticker: ticker.to_owned(),
                filing_date: filed,
                trade_date,
                insider_name: name.to_owned(),
                insider_role: role.to_owned(),
                shares,
                transaction_type,
            },
        ),
        _ => None,
    }
}

/// The open-market trades of a Form 4.
pub fn parse_form4_xml(ticker: &str, filing_date: Date, xml_text: &str) -> (r: Vec<Form4Trade>)
    ensures
        r@.map_values(|t: Form4Trade| t@) == block_trades(
            xml::sections_from(xml_text@, "nonDerivativeTransaction"@, 0),
            ticker@,
            filing_date,
            insider_name(xml_text@),
            insider_role(xml_text@),
        ),
{
    let (name, role): (String, String) = extract_insider_info(xml_text);
    let blocks: Vec<String> = xml::xml_all_sections(xml_text, "nonDerivativeTransaction");
    let ghost all = text::texts(blocks@);
    let ghost see = |t: Form4Trade| t@;
    let mut out: Vec<Form4Trade> = Vec::new();
    let mut i: usize = 0;
    proof {
        assert(all.take(0) =~= seq![]);
        assert(out@.map_values(see) =~= seq![]);
    }
    while i < blocks.len()
        invariant
            i <= blocks@.len(),
            all == text::texts(blocks@),
            see == (|t: Form4Trade| t@),
            out@.map_values(see) == block_trades(
                all.take(i as int),
                ticker@,
                filing_date,
                name@,
                role@,
            ),
        decreases blocks@.len() - i,
    {
        let ghost before = out@;
        proof {
            assert(all.take(i + 1).drop_last() =~= all.take(i as int));
            assert(all.take(i + 1).last() == blocks@[i as int]@);
        }
        match read_block(blocks[i].as_str(), ticker, filing_date, name.as_str(), role.as_str()) {
            Some(t) => {
                out.push(t);
                proof {
                    assert(out@.map_values(see) =~= before.map_values(see).push(t@));
                }
            },
            None => {},
        }
        i = i + 1;
    }
    proof {
        assert(all.take(blocks@.len() as int) =~= all);
    }
    out
}

/// The trades whose number of shares could be read: `shares` is what each text reads as.
pub open spec fn with_numbers(s: Seq<Form4Trade>, shares: Seq<Option<Number>>) -> Seq<
    (TradeView, Number),
>
    decreases s.len(),
{
    if s.len() == 0 {
        seq![]
    } else {
        let rest = with_numbers(s.drop_last(), shares);
        match shares[s.len() - 1] {
            Some(x) => rest.push((s.last()@, x)),
            None => rest,
        }
    }
}

/// What an insider trade says, its number of shares apart.
pub open spec fn says(t: InsiderTrade, v: TradeView) -> bool {
    &&& t.ticker@ == v.ticker
    &&& t.filing_date == v.filing_date
    &&& t.trade_date.days == v.trade_day
    &&& t.insider_name@ == v.insider_name
    &&& t.insider_role@ == v.insider_role
    &&& t.transaction_type@ == v.transaction_type
}

/// Takes in what the numbers of shares read as, and drops the trades with an unreadable one.
pub fn insider_trades(trades: &Vec<Form4Trade>, shares: &Vec<Option<Number>>) -> (r: Vec<
    InsiderTrade,
>)
    requires
        shares@.len() == trades@.len(),
    ensures
        r@.len() == with_numbers(trades@, shares@).len(),
        forall|i: int|
            0 <= i < r@.len() ==> says(#[trigger] r@[i], with_numbers(trades@, shares@)[i].0)
                && r@[i].shares == with_numbers(trades@, shares@)[i].1,
{
    let mut out: Vec<InsiderTrade> = Vec::new();
    let mut i: usize = 0;
    proof {
        assert(trades@.take(0) =~= seq![]);
    }
    while i < trades.len()
        invariant
            i <= trades@.len(),
            shares@.len() == trades@.len(),
            out@.len() == with_numbers(trades@.take(i as int), shares@).len(),
            forall|k: int|
                0 <= k < out@.len() ==> says(
                    #[trigger] out@[k],
                    with_numbers(trades@.take(i as int), shares@)[k].0,
                ) && out@[k].shares == with_numbers(trades@.take(i as int), shares@)[k].1,
        decreases trades@.len() - i,
    {
        proof {
            assert(trades@.take(i + 1).drop_last() =~= trades@.take(i as int));
            assert(trades@.take(i + 1).last() == trades@[i as int]);
        }
        match shares[i] {
            Some(x) => {
                let t: &Form4Trade = &trades[i];
                out.push(
                    InsiderTrade {
                        ticker: t.ticker.clone(),
                        filing_date: t.filing_date,
                        trade_date: t.trade_date,
                        insider_name: t.insider_name.clone(),
                        insider_role: t.insider_role.clone(),
                        shares: x,
                        transaction_type: t.transaction_type.clone(),
                    },
                );
            },
            None => {},
        }
        i = i + 1;
    }
    proof {
        assert(trades@.take(trades@.len() as int) =~= trades@);
    }
    out
}

/// Every trade read from a filing stands in a block whose code is that of a purchase or a sale on
/// the open market.
pub proof fn only_open_market_trades_are_kept(
    blocks: Seq<Seq<char>>,
    ticker: Seq<char>,
    filed: Date,
    name: Seq<char>,
    role: Seq<char>,
    i: int,
)
    requires
        0 <= i < block_trades(blocks, ticker, filed, name, role).len(),
    ensures
        exists|k: int|
            0 <= k < blocks.len() && open_market(xml::value(#[trigger] blocks[k], "transactionCode"@))
                && block_trade(blocks[k], ticker, filed, name, role) == Some(
                block_trades(blocks, ticker, filed, name, role)[i],
            ),
    decreases blocks.len(),
{
    let init = blocks.drop_last();
    let rest = block_trades(init, ticker, filed, name, role);
    if i < rest.len() {
        only_open_market_trades_are_kept(init, ticker, filed, name, role, i);
        let k = choose|k: int|
            0 <= k < init.len() && open_market(xml::value(#[trigger] init[k], "transactionCode"@))
                && block_trade(init[k], ticker, filed, name, role) == Some(rest[i]);
        assert(blocks[k] == init[k]);
    } else {
        assert(blocks[blocks.len() - 1] == blocks.last());
    }
}

// ── What filings and trades are read from ────────────────────────────────────

proof fn lemma_listed_cik(s: Seq<CikEntry>, t: Seq<char>, i: int)
    requires
        0 <= i < s.len(),
        s[i].ticker@ == t,
        forall|j: int| i < j < s.len() ==> (#[trigger] s[j]).ticker@ != t,
    ensures
        listed_cik(s, t) == Some(s[i].cik),
    decreases s.len(),
{
    if i < s.len() - 1 {
        assert(s[s.len() - 1].ticker@ != t);
        lemma_listed_cik(s.drop_last(), t, i);
    }
}

proof fn lemma_no_cik(s: Seq<CikEntry>, t: Seq<char>)
    requires
        forall|j: int| 0 <= j < s.len() ==> (#[trigger] s[j]).ticker@ != t,
    ensures
        listed_cik(s, t) is None,
    decreases s.len(),
{
    if s.len() > 0 {
        assert(s[s.len() - 1].ticker@ != t);
        lemma_no_cik(s.drop_last(), t);
    }
}

/// A ticker has the number that the directory lists it with, the last one where it is listed more
/// than once; a directory without it does not know it, and an empty one is still to be loaded.
pub proof fn the_directory_gives_the_number_of_a_ticker(
    directory: Vec<CikEntry>,
    ticker: &str,
    r: CikLookup,
    i: int,
)
    requires
        call_ensures(lookup_cik, (&directory, ticker), r),
    ensures
        directory@.len() == 0 ==> r == CikLookup::NotLoaded,
        (0 <= i < directory@.len() && directory@[i].ticker@ == text::upper_text(ticker@) && forall|
            j: int,
        |
            i < j < directory@.len() ==> (#[trigger] directory@[j]).ticker@ != text::upper_text(
                ticker@,
            )) ==> r == CikLookup::Found(directory@[i].cik),
        (directory@.len() > 0 && forall|j: int|
            0 <= j < directory@.len() ==> (#[trigger] directory@[j]).ticker@ != text::upper_text(
                ticker@,
            )) ==> r == CikLookup::Unknown,
{
    let t = text::upper_text(ticker@);
    if 0 <= i < directory@.len() && directory@[i].ticker@ == t && forall|j: int|
        i < j < directory@.len() ==> (#[trigger] directory@[j]).ticker@ != t {
        lemma_listed_cik(directory@, t, i);
    }
    if forall|j: int| 0 <= j < directory@.len() ==> (#[trigger] directory@[j]).ticker@ != t {
        lemma_no_cik(directory@, t);
    }
}

proof fn lemma_directory(s: Seq<(Seq<char>, JsonView)>) -> (idx: Seq<int>)
    ensures
        idx.len() == directory_entries(s).len(),
        forall|k: int|
            0 <= k < idx.len() ==> 0 <= (#[trigger] idx[k]) < s.len() && directory_entry(
                s[idx[k]].1,
            ) == Some(directory_entries(s)[k]),
        forall|j: int, k: int| 0 <= j < k < idx.len() ==> (#[trigger] idx[j]) < (#[trigger] idx[k]),
        forall|i: int|
            0 <= i < s.len() && directory_entry((#[trigger] s[i]).1) is Some ==> exists|k: int|
                0 <= k < idx.len() && #[trigger] idx[k] == i,
    decreases s.len(),
{
    if s.len() == 0 {
        seq![]
    } else {
        let init = s.drop_last();
        let before = lemma_directory(init);
        assert forall|k: int| 0 <= k < before.len() implies s[#[trigger] before[k]]
            == init[before[k]] by {}
        if directory_entry(s.last().1) is Some {
            let idx = before.push(s.len() - 1);
            assert forall|i: int|
                0 <= i < s.len() && directory_entry((#[trigger] s[i]).1) is Some implies exists|
                k: int,
            |
                0 <= k < idx.len() && #[trigger] idx[k] == i by {
                if i == s.len() - 1 {
                    assert(idx[before.len() as int] == i);
                } else {
                    assert(init[i] == s[i]);
                    let k = choose|k: int| 0 <= k < before.len() && #[trigger] before[k] == i;
                    assert(idx[k] == i);
                }
            }
            idx
        } else {
            assert forall|i: int|
                0 <= i < s.len() && directory_entry((#[trigger] s[i]).1) is Some implies exists|
                k: int,
            |
                0 <= k < before.len() && #[trigger] before[k] == i by {
                assert(init[i] == s[i]);
            }
            before
        }
    }
}

/// Each entry of the directory is a company of the document: its ticker, in upper case, and the
/// number that stands beside it. They keep the order of the document.
pub proof fn entries_pair_a_ticker_with_its_number(
    doc: Json,
    companies: Seq<(Seq<char>, JsonView)>,
    r: Vec<CikEntry>,
) -> (idx: Seq<int>)
    requires
        call_ensures(read_directory, (&doc,), r),
        doc@ == JsonView::Object(companies),
    ensures
        idx.len() == r@.len(),
        forall|k: int|
            0 <= k < r@.len() ==> {
                let company = companies[#[trigger] idx[k]].1;
                &&& 0 <= idx[k] < companies.len()
                &&& company.member("ticker"@) matches Some(t) && t.text() matches Some(name)
                    && r@[k].ticker@ == text::upper_text(name)
                &&& company.member("cik_str"@) matches Some(c) && c.natural() == Some(r@[k].cik)
            },
        forall|j: int, k: int| 0 <= j < k < idx.len() ==> (#[trigger] idx[j]) < (#[trigger] idx[k]),
        forall|i: int|
            0 <= i < companies.len() && ((#[trigger] companies[i]).1.member(
                "ticker"@,
            ) matches Some(t) && t.text() is Some) && (companies[i].1.member(
                "cik_str"@,
            ) matches Some(c) && c.natural() is Some) ==> exists|k: int|
                0 <= k < idx.len() && #[trigger] idx[k] == i,
{
    let idx = lemma_directory(companies);
    let views = r@.map_values(|e: CikEntry| (e.ticker@, e.cik));
    assert(views == directory_entries(companies));
    assert(views.len() == r@.len());
    assert forall|k: int| 0 <= k < r@.len() implies {
        let company = companies[#[trigger] idx[k]].1;
        &&& 0 <= idx[k] < companies.len()
        &&& company.member("ticker"@) matches Some(t) && t.text() matches Some(name)
            && r@[k].ticker@ == text::upper_text(name)
        &&& company.member("cik_str"@) matches Some(c) && c.natural() == Some(r@[k].cik)
    } by {
        assert(views[k] == (r@[k].ticker@, r@[k].cik));
        assert(directory_entry(companies[idx[k]].1) == Some(views[k]));
    }
    idx
}

proof fn lemma_form4s(s: Submissions, n: int, cutoff: int) -> (idx: Seq<int>)
    ensures
        idx.len() == form4s(s, n, cutoff).len(),
        forall|k: int|
            0 <= k < idx.len() ==> 0 <= (#[trigger] idx[k]) < n && form4_at(s, idx[k], cutoff)
                == Some(form4s(s, n, cutoff)[k]),
        forall|j: int, k: int| 0 <= j < k < idx.len() ==> (#[trigger] idx[j]) < (#[trigger] idx[k]),
        forall|i: int|
            0 <= i < n && (#[trigger] form4_at(s, i, cutoff)) is Some ==> exists|k: int|
                0 <= k < idx.len() && #[trigger] idx[k] == i,
    decreases n,
{
    if n <= 0 {
        seq![]
    } else {
        let before = lemma_form4s(s, n - 1, cutoff);
        if form4_at(s, n - 1, cutoff) is Some {
            let idx = before.push(n - 1);
            assert forall|i: int|
                0 <= i < n && (#[trigger] form4_at(s, i, cutoff)) is Some implies exists|k: int|
                0 <= k < idx.len() && #[trigger] idx[k] == i by {
                if i == n - 1 {
                    assert(idx[before.len() as int] == i);
                } else {
                    let k = choose|k: int| 0 <= k < before.len() && #[trigger] before[k] == i;
                    assert(idx[k] == i);
                }
            }
            idx
        } else {
            before
        }
    }
}

/// A text stands at a position of a list.
pub open spec fn holds_text(v: JsonView, i: int, t: Seq<char>) -> bool {
    v.list() matches Some(s) && 0 <= i < s.len() && s[i].text() == Some(t)
}

/// Each filing to read is a Form 4 filed no more than `days` days before today, and its day,
/// accession and document are those that the lists of the document give at its position.
pub proof fn filings_are_read_across_the_lists(
    doc: Json,
    recent: JsonView,
    forms: JsonView,
    days_filed: JsonView,
    accessions: JsonView,
    documents: JsonView,
    today: Date,
    days: u32,
    r: Result<Vec<Filing>, SubmissionsError>,
) -> (idx: Seq<int>)
    requires
        call_ensures(form4_filings, (&doc, today, days), r),
        doc@.member("filings"@) matches Some(f) && f.member("recent"@) == Some(recent),
        recent.member("form"@) == Some(forms),
        recent.member("filingDate"@) == Some(days_filed),
        recent.member("accessionNumber"@) == Some(accessions),
        recent.member("primaryDocument"@) == Some(documents),
        forms.list() is Some,
        days_filed.list() is Some,
        accessions.list() is Some,
        documents.list() is Some,
    ensures
        r is Ok,
        idx.len() == r->Ok_0@.len(),
        forall|k: int|
            0 <= k < idx.len() ==> {
                let i = #[trigger] idx[k];
                let f = r->Ok_0@[k];
                &&& holds_text(forms, i, "4"@)
                &&& holds_text(accessions, i, f.accession@) && f.accession@.len() > 0
                &&& holds_text(documents, i, f.document@) && f.document@.len() > 0
                &&& today.days - f.filing_date.days <= days
                &&& exists|t: Seq<char>|
                    (holds_text(days_filed, i, t) || t.len() == 0) && #[trigger] calendar::parsed_day(t, "%Y-%m-%d"@)
                        == Some(f.filing_date.days as int)
            },
        forall|j: int, k: int| 0 <= j < k < idx.len() ==> (#[trigger] idx[j]) < (#[trigger] idx[k]),
{
    let s = submissions(doc@)->Ok_0;
    let n = s.forms.len() as int;
    let cutoff = today.days - days;
    let idx = lemma_form4s(s, n, cutoff);
    let fs = r->Ok_0@;
    let seen = fs.map_values(|f: Filing| filing_view(f));
    assert(seen == form4s(s, n, cutoff));
    assert(seen.len() == fs.len());
    reveal_strlit("4");
    assert("4"@.len() == 1);
    assert forall|k: int| 0 <= k < idx.len() implies {
        let i = #[trigger] idx[k];
        let f = fs[k];
        &&& holds_text(forms, i, "4"@)
        &&& holds_text(accessions, i, f.accession@) && f.accession@.len() > 0
        &&& holds_text(documents, i, f.document@) && f.document@.len() > 0
        &&& today.days - f.filing_date.days <= days
        &&& exists|t: Seq<char>|
            (holds_text(days_filed, i, t) || t.len() == 0) && #[trigger] calendar::parsed_day(t, "%Y-%m-%d"@)
                == Some(f.filing_date.days as int)
    } by {
        let i = idx[k];
        let f = fs[k];
        assert(seen[k] == filing_view(f));
        assert(form4_at(s, i, cutoff) == Some(filing_view(f)));
        let t = text_at(s.dates, i);
        assert(calendar::parsed_day(t, "%Y-%m-%d"@) == Some(f.filing_date.days as int));
        assert(holds_text(days_filed, i, t) || t.len() == 0);
    }
    idx
}

/// A Form 4 among the filings, filed no more than `days` days before today and named in full, is
/// read.
pub proof fn no_recent_form_is_missed(
    doc: Json,
    recent: JsonView,
    forms: JsonView,
    days_filed: JsonView,
    accessions: JsonView,
    documents: JsonView,
    today: Date,
    days: u32,
    r: Result<Vec<Filing>, SubmissionsError>,
    i: int,
    day: Seq<char>,
    accession: Seq<char>,
    document: Seq<char>,
)
    requires
        call_ensures(form4_filings, (&doc, today, days), r),
        doc@.member("filings"@) matches Some(f) && f.member("recent"@) == Some(recent),
        recent.member("form"@) == Some(forms),
        recent.member("filingDate"@) == Some(days_filed),
        recent.member("accessionNumber"@) == Some(accessions),
        recent.member("primaryDocument"@) == Some(documents),
        holds_text(forms, i, "4"@),
        holds_text(days_filed, i, day),
        holds_text(accessions, i, accession),
        holds_text(documents, i, document),
        accession.len() > 0,
        document.len() > 0,
        calendar::parsed_day(day, "%Y-%m-%d"@) matches Some(d) && today.days - d <= days,
    ensures
        r matches Ok(fs) && exists|k: int|
            0 <= k < fs@.len() && (#[trigger] fs@[k]).accession@ == accession && fs@[k].document@
                == document && calendar::parsed_day(day, "%Y-%m-%d"@) == Some(
                fs@[k].filing_date.days as int,
            ),
{
    let s = submissions(doc@)->Ok_0;
    let n = s.forms.len() as int;
    let cutoff = today.days - days;
    let idx = lemma_form4s(s, n, cutoff);
    let fs = r->Ok_0@;
    let seen = fs.map_values(|f: Filing| filing_view(f));
    assert(seen == form4s(s, n, cutoff));
    assert(seen.len() == fs.len());
    assert(form4_at(s, i, cutoff) is Some);
    let k = choose|k: int| 0 <= k < idx.len() && #[trigger] idx[k] == i;
    assert(form4_at(s, idx[k], cutoff) == Some(seen[k]));
    assert(seen[k] == filing_view(fs[k]));
}

/// The insider's name is what stands under its tag within the reporting owner; where either is
/// missing the name is unknown.
pub proof fn the_name_is_that_of_the_reporting_owner(
    xml_text: &str,
    r: (String, String),
    owner_part: Option<String>,
    part: &str,
    name: Option<String>,
)
    requires
        call_ensures(extract_insider_info, (xml_text,), r),
        call_ensures(xml::xml_section, (xml_text, "reportingOwner"), owner_part),
        owner_part matches Some(o) ==> part@ == o@,
        call_ensures(xml::xml_val, (part, "rptOwnerName"), name),
    ensures
        owner_part is Some && name is Some ==> r.0@ == name->0@,
        owner_part is Some && name is None ==> r.0@ == "Unknown"@,
{
}

/// The role comes from the title first: chief executives, then chief financial officers, then
/// presidents who are no vice presidents, then chief operating officers. Without such a title an
/// insider is an officer where the filing says so, else a director where it says that.
pub proof fn the_title_decides_over_the_role(
    xml_text: &str,
    r: (String, String),
    owner_part: Option<String>,
    part: &str,
    title: Option<String>,
    officer: Option<String>,
    director: Option<String>,
    upper: Seq<char>,
)
    requires
        call_ensures(extract_insider_info, (xml_text,), r),
        call_ensures(xml::xml_section, (xml_text, "reportingOwner"), owner_part),
        owner_part matches Some(o) && part@ == o@,
        call_ensures(xml::xml_val, (part, "officerTitle"), title),
        call_ensures(xml::xml_val, (part, "isOfficer"), officer),
        call_ensures(xml::xml_val, (part, "isDirector"), director),
        title matches Some(t) && upper == text::upper_text(t@),
    ensures
        ({
            let chief = text::occurs(upper, "CEO"@) || text::occurs(upper, "CHIEF EXECUTIVE"@);
            let finance = text::occurs(upper, "CFO"@) || text::occurs(upper, "CHIEF FINANCIAL"@);
            let president = text::occurs(upper, "PRESIDENT"@) && !text::occurs(upper, "VICE"@);
            let operations = text::occurs(upper, "COO"@) || text::occurs(
                upper,
                "CHIEF OPERATING"@,
            );
            let untitled = !chief && !finance && !president && !operations;
            let is_officer = officer is Some && text::trimmed(officer->0@) == "1"@;
            let is_director = director is Some && text::trimmed(director->0@) == "1"@;
            &&& chief ==> r.1@ == "CEO"@
            &&& !chief && finance ==> r.1@ == "CFO"@
            &&& !chief && !finance && president ==> r.1@ == "President"@
            &&& !chief && !finance && !president && operations ==> r.1@ == "COO"@
            &&& untitled && is_officer ==> r.1@ == "Officer"@
            &&& untitled && !is_officer && is_director ==> r.1@ == "Director"@
            &&& untitled && !is_officer && !is_director ==> r.1@ == "Other"@
        }),
{
}

/// Each trade of a form takes its day, its number of shares and its direction from one transaction
/// of the form, whose code is that of a purchase or a sale on the open market, and its insider from
/// the form as a whole.
pub proof fn trades_are_read_from_their_transaction(
    ticker: &str,
    filed: Date,
    xml_text: &str,
    r: Vec<Form4Trade>,
    info: (String, String),
    blocks: Vec<String>,
    i: int,
)
    requires
        call_ensures(parse_form4_xml, (ticker, filed, xml_text), r),
        call_ensures(extract_insider_info, (xml_text,), info),
        call_ensures(xml::xml_all_sections, (xml_text, "nonDerivativeTransaction"), blocks),
        0 <= i < r@.len(),
    ensures
        r@[i].ticker@ == ticker@,
        r@[i].filing_date == filed,
        r@[i].insider_name@ == info.0@,
        r@[i].insider_role@ == info.1@,
        exists|k: int|
            0 <= k < blocks@.len() && reads_as(#[trigger] blocks@[k]@, r@[i]),
{
    let texts = text::texts(blocks@);
    let trades = r@.map_values(|t: Form4Trade| t@);
    let name = insider_name(xml_text@);
    let role = insider_role(xml_text@);
    assert(trades == block_trades(texts, ticker@, filed, name, role));
    assert(trades.len() == r@.len());
    only_open_market_trades_are_kept(texts, ticker@, filed, name, role, i);
    let k = choose|k: int|
        0 <= k < texts.len() && open_market(xml::value(#[trigger] texts[k], "transactionCode"@))
            && block_trade(texts[k], ticker@, filed, name, role) == Some(trades[i]);
    assert(trades[i] == r@[i]@);
    assert(texts[k] == blocks@[k]@);
    assert(reads_as(blocks@[k]@, r@[i]));
}

/// Whether a trade says what a transaction does: its day, its number of shares and its direction,
/// each as it stands under its own tag, and the transaction is a purchase or a sale.
pub open spec fn reads_as(block: Seq<char>, t: Form4Trade) -> bool {
    &&& xml::nested_value(block, "transactionDate"@, "value"@) matches Some(d)
        && calendar::parsed_day(d, "%Y-%m-%d"@) == Some(t.trade_date.days as int)
    &&& xml::nested_value(block, "transactionShares"@, "value"@) == Some(t.shares@)
    &&& xml::nested_value(block, "transactionAcquiredDisposedCode"@, "value"@) == Some(
        t.transaction_type@,
    )
    &&& xml::value(block, "transactionCode"@) == Some("P"@) || xml::value(
        block,
        "transactionCode"@,
    ) == Some("S"@)
}

proof fn lemma_block_trades_keep(
    blocks: Seq<Seq<char>>,
    ticker: Seq<char>,
    filed: Date,
    name: Seq<char>,
    role: Seq<char>,
    k: int,
)
    requires
        0 <= k < blocks.len(),
        block_trade(blocks[k], ticker, filed, name, role) is Some,
    ensures
        block_trades(blocks, ticker, filed, name, role).contains(
            block_trade(blocks[k], ticker, filed, name, role)->0,
        ),
    decreases blocks.len(),
{
    let all = block_trades(blocks, ticker, filed, name, role);
    let rest = block_trades(blocks.drop_last(), ticker, filed, name, role);
    if k < blocks.len() - 1 {
        lemma_block_trades_keep(blocks.drop_last(), ticker, filed, name, role, k);
        let t = block_trade(blocks[k], ticker, filed, name, role)->0;
        let i = choose|i: int| 0 <= i < rest.len() && rest[i] == t;
        assert(all[i] == t);
    } else {
        assert(all[rest.len() as int] == block_trade(blocks[k], ticker, filed, name, role)->0);
    }
}

/// A purchase or sale on the open market that gives its day, shares and direction is not left out.
pub proof fn no_open_market_trade_is_missed(
    ticker: &str,
    filed: Date,
    xml_text: &str,
    r: Vec<Form4Trade>,
    blocks: Vec<String>,
    k: int,
)
    requires
        call_ensures(parse_form4_xml, (ticker, filed, xml_text), r),
        call_ensures(xml::xml_all_sections, (xml_text, "nonDerivativeTransaction"), blocks),
        0 <= k < blocks@.len(),
        xml::value(blocks@[k]@, "transactionCode"@) == Some("P"@) || xml::value(
            blocks@[k]@,
            "transactionCode"@,
        ) == Some("S"@),
        xml::nested_value(blocks@[k]@, "transactionDate"@, "value"@) matches Some(d)
            && calendar::parsed_day(d, "%Y-%m-%d"@) is Some,
        xml::nested_value(blocks@[k]@, "transactionShares"@, "value"@) is Some,
        xml::nested_value(blocks@[k]@, "transactionAcquiredDisposedCode"@, "value"@) is Some,
    ensures
        exists|i: int| 0 <= i < r@.len() && reads_as(blocks@[k]@, #[trigger] r@[i]),
{
    let texts = text::texts(blocks@);
    let trades = r@.map_values(|t: Form4Trade| t@);
    let name = insider_name(xml_text@);
    let role = insider_role(xml_text@);
    assert(trades == block_trades(texts, ticker@, filed, name, role));
    assert(trades.len() == r@.len());
    assert(texts[k] == blocks@[k]@);
    lemma_block_trades_keep(texts, ticker@, filed, name, role, k);
    let t = block_trade(texts[k], ticker@, filed, name, role)->0;
    let i = choose|i: int| 0 <= i < trades.len() && trades[i] == t;
    assert(trades[i] == r@[i]@);
    assert(reads_as(blocks@[k]@, r@[i]));
}

proof fn lemma_with_numbers(s: Seq<Form4Trade>, shares: Seq<Option<Number>>) -> (idx: Seq<int>)
    requires
        s.len() <= shares.len(),
    ensures
        idx.len() == with_numbers(s, shares).len(),
        forall|k: int|
            0 <= k < idx.len() ==> 0 <= (#[trigger] idx[k]) < s.len() && shares[idx[k]] == Some(
                with_numbers(s, shares)[k].1,
            ) && with_numbers(s, shares)[k].0 == s[idx[k]]@,
        forall|j: int, k: int| 0 <= j < k < idx.len() ==> (#[trigger] idx[j]) < (#[trigger] idx[k]),
        forall|i: int|
            0 <= i < s.len() && (#[trigger] shares[i]) is Some ==> exists|k: int|
                0 <= k < idx.len() && #[trigger] idx[k] == i,
    decreases s.len(),
{
    if s.len() == 0 {
        seq![]
    } else {
        let init = s.drop_last();
        let before = lemma_with_numbers(init, shares);
        assert forall|k: int| 0 <= k < before.len() implies s[#[trigger] before[k]]
            == init[before[k]] by {}
        if shares[s.len() - 1] is Some {
            let idx = before.push(s.len() - 1);
            assert forall|i: int| 0 <= i < s.len() && (#[trigger] shares[i]) is Some implies exists|
                k: int,
            |
                0 <= k < idx.len() && #[trigger] idx[k] == i by {
                if i == s.len() - 1 {
                    assert(idx[before.len() as int] == i);
                } else {
                    let k = choose|k: int| 0 <= k < before.len() && #[trigger] before[k] == i;
                    assert(idx[k] == i);
                }
            }
            idx
        } else {
            before
        }
    }
}

/// Each insider trade is a trade of the form with the number that its own text reads as; trades
/// keep their order, and one is dropped only where its text is no number.
pub proof fn trades_keep_their_own_shares(
    trades: Vec<Form4Trade>,
    shares: Vec<Option<Number>>,
    r: Vec<InsiderTrade>,
) -> (idx: Seq<int>)
    requires
        shares@.len() == trades@.len(),
        call_ensures(insider_trades, (&trades, &shares), r),
    ensures
        idx.len() == r@.len(),
        forall|k: int|
            0 <= k < idx.len() ==> {
                let t = trades@[#[trigger] idx[k]];
                &&& 0 <= idx[k] < trades@.len()
                &&& shares@[idx[k]] == Some(r@[k].shares)
                &&& r@[k].ticker@ == t.ticker@
                &&& r@[k].filing_date == t.filing_date
                &&& r@[k].trade_date == t.trade_date
                &&& r@[k].insider_name@ == t.insider_name@
                &&& r@[k].insider_role@ == t.insider_role@
                &&& r@[k].transaction_type@ == t.transaction_type@
            },
        forall|j: int, k: int| 0 <= j < k < idx.len() ==> (#[trigger] idx[j]) < (#[trigger] idx[k]),
        forall|i: int|
            0 <= i < trades@.len() && (#[trigger] shares@[i]) is Some ==> exists|k: int|
                0 <= k < idx.len() && #[trigger] idx[k] == i,
{
    let idx = lemma_with_numbers(trades@, shares@);
    assert forall|k: int| 0 <= k < idx.len() implies {
        let t = trades@[#[trigger] idx[k]];
        &&& 0 <= idx[k] < trades@.len()
        &&& shares@[idx[k]] == Some(r@[k].shares)
        &&& r@[k].ticker@ == t.ticker@
        &&& r@[k].filing_date == t.filing_date
        &&& r@[k].trade_date == t.trade_date
        &&& r@[k].insider_name@ == t.insider_name@
        &&& r@[k].insider_role@ == t.insider_role@
        &&& r@[k].transaction_type@ == t.transaction_type@
    } by {
        let args = (&trades, &shares);
        assert(says(r@[k], with_numbers(args.0@, args.1@)[k].0));
    }
    idx
}

/// The raw document of a form is named by what stands behind the last stroke of its path.
pub proof fn the_file_name_stands_behind_the_last_stroke(
    path: &str,
    r: String,
    directories: Seq<char>,
    name: Seq<char>,
)
    requires
        call_ensures(raw_form4_filename, (path,), r),
        !name.contains('/'),
        path@ == name || path@ == directories.push('/') + name,
    ensures
        r@ == name,
{
    lemma_file_name(if path@ == name {
        seq![]
    } else {
        directories.push('/')
    }, name);
    if path@ == name {
        assert(Seq::<char>::empty() + name =~= name);
    }
}

proof fn lemma_file_name(front: Seq<char>, name: Seq<char>)
    requires
        !name.contains('/'),
        front.len() == 0 || front.last() == '/',
    ensures
        file_name(front + name) == name,
    decreases name.len(),
{
    let s = front + name;
    if name.len() > 0 {
        let init = name.drop_last();
        assert forall|i: int| 0 <= i < init.len() implies init[i] != '/' by {
            assert(name.contains(name[i]));
        }
        assert(name.contains(name.last()));
        lemma_file_name(front, init);
        assert(s.drop_last() =~= front + init);
        assert(s.last() == name.last());
        assert(init.push(name.last()) =~= name);
    } else {
        assert(s =~= front);
    }
}

/// Waits before attempts grow by half a second, from 150 milliseconds on, and there are as many
/// attempts as were asked for, one at least.
pub proof fn waits_grow_with_the_attempts(
    fresh: Attempts,
    asked: u32,
    a: &mut Attempts,
    b: &mut Attempts,
    first: Option<u64>,
    second: Option<u64>,
)
    requires
        call_ensures(Attempts::new, (asked,), fresh),
        *old(a) == fresh,
        call_ensures(Attempts::next_delay, (a,), first),
        *old(b) == *final(a),
        call_ensures(Attempts::next_delay, (b,), second),
    ensures
        first == Some(150u64),
        asked >= 2 ==> second == Some(650u64),
        asked < 2 ==> second is None,
{
}

/// A company number as the archive writes it is ten digits long and has the number's value.
pub proof fn padded_numbers_have_ten_digits(cik: u64, r: String)
    requires
        call_ensures(padded_cik, (cik,), r),
        text::decimal(cik as nat).len() <= 10,
    ensures
        r@.len() == 10,
        text::decimal(cik as nat).is_suffix_of(r@),
        forall|i: int|
            0 <= i < 10 - text::decimal(cik as nat).len() ==> (#[trigger] r@[i]) == '0',
{
    let d = text::decimal(cik as nat);
    assert(r@.skip(r@.len() - d.len()) =~= d);
}

} // verus!
