//! Fundamentals as they were known on a date, from the company facts that the
//! SEC publishes.
//!
//! Every value carries the date on which it was filed. What was known on a date
//! are the facts filed by it; where a period was restated, the figure first
//! reported stands until the restatement is filed.

use vstd::prelude::*;

use crate::calendar;
use crate::calendar::Date;
use crate::data::json;
use crate::data::json::{Json, JsonView};
use crate::data::types::PitFact;
use crate::number::Number;
use crate::text;

verus! {

/// Days after which reported data counts as stale.
pub const MAX_STALENESS_DAYS: i64 = 550;

/// Days in three years, on average.
pub const THREE_YEARS_DAYS: i64 = 1095;

// ── Reading company facts ────────────────────────────────────────────────────

/// Where a concept is found in a document.
#[derive(Clone, Copy, Debug)]
pub struct Mapping {
    pub taxonomy: &'static str,
    pub tag: &'static str,
    pub concept: &'static str,
    pub unit: &'static str,
}

/// What a mapping says.
pub open spec fn mapping_view(m: Mapping) -> (Seq<char>, Seq<char>, Seq<char>, Seq<char>) {
    (m.taxonomy@, m.tag@, m.concept@, m.unit@)
}

/// The tags that are read, each with the concept it reports. An earlier one counts where two
/// report the same period.
pub open spec fn mappings() -> Seq<(Seq<char>, Seq<char>, Seq<char>, Seq<char>)> {
    seq![
        ("us-gaap"@, "Revenues"@, "revenue"@, "USD"@),
        (
            "us-gaap"@,
            "RevenueFromContractWithCustomerExcludingAssessedTax"@,
            "revenue"@,
            "USD"@,
        ),
        (
            "us-gaap"@,
            "RevenueFromContractWithCustomerIncludingAssessedTax"@,
            "revenue"@,
            "USD"@,
        ),
        ("us-gaap"@, "SalesRevenueNet"@, "revenue"@, "USD"@),
        ("us-gaap"@, "SalesRevenueGoodsNet"@, "revenue"@, "USD"@),
        ("us-gaap"@, "NetIncomeLoss"@, "net_income"@, "USD"@),
        ("us-gaap"@, "GrossProfit"@, "gross_profit"@, "USD"@),
        (
            "us-gaap"@,
            "NetCashProvidedByUsedInOperatingActivities"@,
            "operating_cash_flow"@,
            "USD"@,
        ),
        ("us-gaap"@, "Assets"@, "assets"@, "USD"@),
        ("us-gaap"@, "StockholdersEquity"@, "equity"@, "USD"@),
        (
            "us-gaap"@,
            "StockholdersEquityIncludingPortionAttributableToNoncontrollingInterest"@,
            "equity"@,
            "USD"@,
        ),
        ("us-gaap"@, "LongTermDebtNoncurrent"@, "long_term_debt"@, "USD"@),
        ("us-gaap"@, "LongTermDebt"@, "long_term_debt"@, "USD"@),
        ("us-gaap"@, "LongTermDebtCurrent"@, "short_term_debt"@, "USD"@),
        ("us-gaap"@, "DebtCurrent"@, "short_term_debt"@, "USD"@),
        ("dei"@, "EntityCommonStockSharesOutstanding"@, "shares_outstanding"@, "shares"@),
    ]
}

/// A mapping.
fn maps(
    taxonomy: &'static str,
    tag: &'static str,
    concept: &'static str,
    unit: &'static str,
) -> (r: Mapping)
    ensures
        mapping_view(r) == (taxonomy@, tag@, concept@, unit@),
{
    Mapping { taxonomy, tag, concept, unit }
}

/// The tags that are read.
pub fn mapping() -> (r: Vec<Mapping>)
    ensures
        r@.map_values(|m: Mapping| mapping_view(m)) == mappings(),
{
    let mut v: Vec<Mapping> = Vec::new();
    v.push(maps("us-gaap", "Revenues", "revenue", "USD"));
    v.push(
        maps(
            "us-gaap",
            "RevenueFromContractWithCustomerExcludingAssessedTax",
            "revenue",
            "USD",
        ),
    );
    v.push(
        maps(
            "us-gaap",
            "RevenueFromContractWithCustomerIncludingAssessedTax",
            "revenue",
            "USD",
        ),
    );
    v.push(maps("us-gaap", "SalesRevenueNet", "revenue", "USD"));
    v.push(maps("us-gaap", "SalesRevenueGoodsNet", "revenue", "USD"));
    v.push(maps("us-gaap", "NetIncomeLoss", "net_income", "USD"));
    v.push(maps("us-gaap", "GrossProfit", "gross_profit", "USD"));
    v.push(
        maps(
            "us-gaap",
            "NetCashProvidedByUsedInOperatingActivities",
            "operating_cash_flow",
            "USD",
        ),
    );
    v.push(maps("us-gaap", "Assets", "assets", "USD"));
    v.push(maps("us-gaap", "StockholdersEquity", "equity", "USD"));
    v.push(
        maps(
            "us-gaap",
            "StockholdersEquityIncludingPortionAttributableToNoncontrollingInterest",
            "equity",
            "USD",
        ),
    );
    v.push(maps("us-gaap", "LongTermDebtNoncurrent", "long_term_debt", "USD"));
    v.push(maps("us-gaap", "LongTermDebt", "long_term_debt", "USD"));
    v.push(maps("us-gaap", "LongTermDebtCurrent", "short_term_debt", "USD"));
    v.push(maps("us-gaap", "DebtCurrent", "short_term_debt", "USD"));
    v.push(
        maps("dei", "EntityCommonStockSharesOutstanding", "shares_outstanding", "shares"),
    );
    proof {
        assert(v@.map_values(|m: Mapping| mapping_view(m)) =~= mappings());
    }
    v
}

/// Whether facts of a filing are used: those of annual and quarterly reports are.
pub open spec fn accepted_form(form: Seq<char>) -> bool {
    form == "10-K"@ || form == "10-K/A"@ || form == "10-Q"@ || form == "10-Q/A"@
}

/// What a fact says.
pub struct FactView {
    pub concept: Seq<char>,
    pub start: Option<int>,
    pub end: int,
    pub value: Number,
    pub filed: int,
    pub form: Seq<char>,
}

impl View for PitFact {
    type V = FactView;

    open spec fn view(&self) -> FactView {
        FactView {
            concept: self.concept@,
            start: match self.start {
                Some(d) => Some(d.days as int),
                None => None,
            },
            end: self.end.days as int,
            value: self.value,
            filed: self.filed.days as int,
            form: self.form@,
        }
    }
}

/// What facts say.
pub open spec fn views(s: Seq<PitFact>) -> Seq<FactView> {
    s.map_values(|f: PitFact| f@)
}

/// The day that a member holds.
pub open spec fn day_of(v: JsonView, name: Seq<char>) -> Option<int> {
    match v.member(name) {
        Some(x) => match x.text() {
            Some(s) => calendar::parsed_day(s, "%Y-%m-%d"@),
            None => None,
        },
        None => None,
    }
}

/// The fact that an element holds, where it comes from a report and gives a period's end, a filing
/// date and a value.
pub open spec fn fact_of(v: JsonView, concept: Seq<char>) -> Option<FactView> {
    let form = v.text_of("form"@);
    let val = match v.member("val"@) {
        Some(x) => x.number(),
        None => None,
    };
    if accepted_form(form) && day_of(v, "end"@) is Some && day_of(v, "filed"@) is Some && val is Some {
        Some(
            FactView {
                concept,
                start: day_of(v, "start"@),
                end: day_of(v, "end"@)->0,
                value: val->0,
                filed: day_of(v, "filed"@)->0,
                form,
            },
        )
    } else {
        None
    }
}

/// A member of a value that may be missing.
pub open spec fn then_member(v: Option<JsonView>, name: Seq<char>) -> Option<JsonView> {
    match v {
        Some(x) => x.member(name),
        None => None,
    }
}

/// The elements that a document has for a mapping.
pub open spec fn elements(
    doc: JsonView,
    m: (Seq<char>, Seq<char>, Seq<char>, Seq<char>),
) -> Seq<JsonView> {
    let facts = then_member(then_member(doc.member("facts"@), m.0), m.1);
    match then_member(then_member(facts, "units"@), m.3) {
        Some(v) => match v.list() {
            Some(s) => s,
            None => seq![],
        },
        None => seq![],
    }
}

/// Whether two facts report the same concept and period in filings of the same day.
pub open spec fn same_report(a: FactView, b: FactView) -> bool {
    a.concept == b.concept && a.start == b.start && a.end == b.end && a.filed == b.filed
}

/// Adds a fact unless one that reports the same is there.
pub open spec fn added(s: Seq<FactView>, f: FactView) -> Seq<FactView> {
    if exists|k: int| 0 <= k < s.len() && same_report(#[trigger] s[k], f) {
        s
    } else {
        s.push(f)
    }
}

/// Adds the facts of elements.
pub open spec fn added_all(s: Seq<FactView>, e: Seq<JsonView>, concept: Seq<char>) -> Seq<FactView>
    decreases e.len(),
{
    if e.len() == 0 {
        s
    } else {
        let rest = added_all(s, e.drop_last(), concept);
        match fact_of(e.last(), concept) {
            Some(f) => added(rest, f),
            None => rest,
        }
    }
}

/// The facts of a document by the first `n` mappings.
pub open spec fn company_facts(doc: JsonView, n: int) -> Seq<FactView>
    decreases n,
{
    if n <= 0 {
        seq![]
    } else {
        added_all(
            company_facts(doc, n - 1),
            elements(doc, mappings()[n - 1]),
            mappings()[n - 1].2,
        )
    }
}

/// The day that a member holds.
fn read_day(v: &Json, name: &str) -> (r: Option<Date>)
    ensures
        match r {
            Some(d) => day_of(v@, name@) == Some(d.days as int),
            None => day_of(v@, name@) is None,
        },
{
    match v.member(name) {
        Some(x) => match x.as_text() {
            Some(s) => Date::parse(s, "%Y-%m-%d"),
            None => None,
        },
        None => None,
    }
}

/// Whether facts of a filing are used.
fn is_accepted(form: &str) -> (r: bool)
    ensures
        r == accepted_form(form@),
{
    text::same_text(form, "10-K") || text::same_text(form, "10-K/A") || text::same_text(
        form,
        "10-Q",
    ) || text::same_text(form, "10-Q/A")
}

/// The fact that an element holds.
fn read_fact(v: &Json, concept: &str) -> (r: Option<PitFact>)
    ensures
        match r {
            Some(f) => fact_of(v@, concept@) == Some(f@),
            None => fact_of(v@, concept@) is None,
        },
{
    let form: String = v.text_of("form");
    if !is_accepted(form.as_str()) {
        return None;
    }
    let value: Option<Number> = match v.member("val") {
        Some(x) => x.as_number(),
        None => None,
    };
    match (read_day(v, "end"), read_day(v, "filed"), value) {
        (Some(end), Some(filed), Some(value)) => Some(
            PitFact {
                concept: concept.to_owned(),
                start: read_day(v, "start"),
                end,
                value,
                filed,
                form,
            },
        ),
        _ => None,
    }
}

/// Whether two dates that may be missing are the same.
fn same_start(a: Option<Date>, b: Option<Date>) -> (r: bool)
    ensures
        r == (a == b),
{
    match (a, b) {
        (Some(x), Some(y)) => x.days == y.days,
        (None, None) => true,
        _ => false,
    }
}

/// Whether two facts report the same.
fn reports_same(a: &PitFact, b: &PitFact) -> (r: bool)
    ensures
        r == same_report(a@, b@),
{
    text::same_text(a.concept.as_str(), b.concept.as_str()) && same_start(a.start, b.start)
        && a.end.days == b.end.days && a.filed.days == b.filed.days
}

/// Adds a fact unless one that reports the same is there.
fn add_fact(out: &mut Vec<PitFact>, f: PitFact)
    ensures
        views(final(out)@) == added(views(old(out)@), f@),
{
    let ghost before = views(out@);
    let mut i: usize = 0;
    while i < out.len()
        invariant
            i <= out@.len(),
            before == views(out@),
            out@ == old(out)@,
            forall|k: int| 0 <= k < i ==> !same_report(#[trigger] before[k], f@),
        decreases out@.len() - i,
    {
        proof {
            assert(before[i as int] == out@[i as int]@);
        }
        if reports_same(&out[i], &f) {
            proof {
                assert(same_report(before[i as int], f@));
            }
            return ;
        }
        i = i + 1;
    }
    out.push(f);
    proof {
        assert(views(out@) =~= before.push(f@));
    }
}

/// The elements that a document has for a mapping, where it has them.
fn find_elements<'a>(doc: &'a Json, m: &Mapping) -> (r: Option<&'a Vec<Json>>)
    ensures
        match r {
            Some(v) => elements(doc@, mapping_view(*m)) == json::views(v@),
            None => elements(doc@, mapping_view(*m)) == Seq::<JsonView>::empty(),
        },
{
    let facts: &Json = match doc.member("facts") {
        Some(j) => j,
        None => {
            return None;
        },
    };
    let taxonomy: &Json = match facts.member(m.taxonomy) {
        Some(j) => j,
        None => {
            return None;
        },
    };
    let tag: &Json = match taxonomy.member(m.tag) {
        Some(j) => j,
        None => {
            return None;
        },
    };
    let units: &Json = match tag.member("units") {
        Some(j) => j,
        None => {
            return None;
        },
    };
    match units.member(m.unit) {
        Some(j) => j.as_list(),
        None => None,
    }
}

/// The facts that a company-facts document holds. Facts of other filings than annual and quarterly
/// reports are left out, and of two that report the same the first counts.
pub fn parse_companyfacts(doc: &Json) -> (r: Vec<PitFact>)
    ensures
        views(r@) == company_facts(doc@, mappings().len() as int),
{
    let rows: Vec<Mapping> = mapping();
    let ghost see = |m: Mapping| mapping_view(m);
    let mut out: Vec<PitFact> = Vec::new();
    let mut n: usize = 0;
    proof {
        assert(views(out@) =~= company_facts(doc@, 0));
    }
    while n < rows.len()
        invariant
            n <= rows@.len(),
            see == (|m: Mapping| mapping_view(m)),
            rows@.map_values(see) == mappings(),
            views(out@) == company_facts(doc@, n as int),
        decreases rows@.len() - n,
    {
        let row: Mapping = rows[n];
        let ghost start = views(out@);
        proof {
            assert(mapping_view(row) == mappings()[n as int]);
        }
        match find_elements(doc, &row) {
            Some(v) => {
                let ghost all = json::views(v@);
                let mut i: usize = 0;
                proof {
                    assert(all.take(0) =~= seq![]);
                }
                while i < v.len()
                    invariant
                        i <= v@.len(),
                        all == json::views(v@),
                        views(out@) == added_all(start, all.take(i as int), row.concept@),
                    decreases v@.len() - i,
                {
                    proof {
                        assert(all.take(i + 1).drop_last() =~= all.take(i as int));
                        assert(all.take(i + 1).last() == v@[i as int]@);
                    }
                    match read_fact(&v[i], row.concept) {
                        Some(f) => {
                            add_fact(&mut out, f);
                        },
                        None => {},
                    }
                    i = i + 1;
                }
                proof {
                    assert(all.take(v@.len() as int) =~= all);
                }
            },
            None => {},
        }
        n = n + 1;
    }
    proof {
        assert(rows@.map_values(see).len() == rows@.len());
    }
    out
}

// ── What was known ───────────────────────────────────────────────────────────

/// Whether a fact reports a concept and was filed by a day.
pub open spec fn relevant(f: FactView, concept: Seq<char>, day: int) -> bool {
    f.concept == concept && f.filed <= day
}

/// Whether two facts cover the same period.
pub open spec fn same_period(a: FactView, b: FactView) -> bool {
    a.start == b.start && a.end == b.end
}

/// Whether the fact at position `i` is what was known of its period on a day: it comes from the
/// latest filing that was public by then, and is the first of several filed that day.
pub open spec fn known(s: Seq<FactView>, concept: Seq<char>, day: int, i: int) -> bool {
    &&& 0 <= i < s.len()
    &&& relevant(s[i], concept, day)
    &&& forall|j: int|
        0 <= j < s.len() && relevant(#[trigger] s[j], concept, day) && same_period(s[j], s[i])
            ==> s[j].filed < s[i].filed || (s[j].filed == s[i].filed && i <= j)
}

/// Whether the fact at position `i` is what was known.
fn is_known(facts: &Vec<PitFact>, concept: &str, as_of: Date, i: usize) -> (r: bool)
    requires
        i < facts@.len(),
    ensures
        r == known(views(facts@), concept@, as_of.days as int, i as int),
{
    let ghost s = views(facts@);
    proof {
        assert(s[i as int] == facts@[i as int]@);
    }
    if !text::same_text(facts[i].concept.as_str(), concept) || facts[i].filed.days > as_of.days {
        return false;
    }
    let mut j: usize = 0;
    while j < facts.len()
        invariant
            j <= facts@.len(),
            i < facts@.len(),
            s == views(facts@),
            s[i as int] == facts@[i as int]@,
            forall|k: int|
                0 <= k < j && relevant(#[trigger] s[k], concept@, as_of.days as int) && same_period(
                    s[k],
                    s[i as int],
                ) ==> s[k].filed < s[i as int].filed || (s[k].filed == s[i as int].filed && i <= k),
        decreases facts@.len() - j,
    {
        proof {
            assert(s[j as int] == facts@[j as int]@);
        }
        let f: &PitFact = &facts[j];
        if text::same_text(f.concept.as_str(), concept) && f.filed.days <= as_of.days && same_start(
            f.start,
            facts[i].start,
        ) && f.end.days == facts[i].end.days && (f.filed.days > facts[i].filed.days || (f.filed.days
            == facts[i].filed.days && j < i)) {
            proof {
                assert(relevant(s[j as int], concept@, as_of.days as int));
            }
            return false;
        }
        j = j + 1;
    }
    true
}

/// The positions of what was known of a concept on a date, in increasing order.
pub fn latest_known(facts: &Vec<PitFact>, concept: &str, as_of: Date) -> (r: Vec<usize>)
    ensures
        forall|i: int, j: int| 0 <= i < j < r@.len() ==> (#[trigger] r@[i]) < (#[trigger] r@[j]),
        forall|i: int|
            0 <= i < r@.len() ==> known(
                views(facts@),
                concept@,
                as_of.days as int,
                #[trigger] r@[i] as int,
            ),
        forall|k: int| #[trigger]
            known(views(facts@), concept@, as_of.days as int, k) ==> exists|i: int|
                0 <= i < r@.len() && #[trigger] r@[i] == k,
{
    let mut out: Vec<usize> = Vec::new();
    let mut i: usize = 0;
    while i < facts.len()
        invariant
            i <= facts@.len(),
            forall|a: int, b: int|
                0 <= a < b < out@.len() ==> (#[trigger] out@[a]) < (#[trigger] out@[b]),
            forall|a: int|
                0 <= a < out@.len() ==> (#[trigger] out@[a]) < i && known(
                    views(facts@),
                    concept@,
                    as_of.days as int,
                    out@[a] as int,
                ),
            forall|k: int|
                0 <= k < i && #[trigger] known(views(facts@), concept@, as_of.days as int, k)
                    ==> exists|a: int| 0 <= a < out@.len() && #[trigger] out@[a] == k,
        decreases facts@.len() - i,
    {
        let ghost before = out@;
        if is_known(facts, concept, as_of, i) {
            out.push(i);
        }
        proof {
            assert forall|k: int|
                0 <= k < i + 1 && #[trigger] known(
                    views(facts@),
                    concept@,
                    as_of.days as int,
                    k,
                ) implies exists|a: int| 0 <= a < out@.len() && #[trigger] out@[a] == k by {
                if k < i {
                    let a = choose|a: int| 0 <= a < before.len() && #[trigger] before[a] == k;
                    assert(out@[a] == k);
                } else {
                    assert(out@[before.len() as int] == k);
                }
            }
        }
        i = i + 1;
    }
    out
}

/// A restatement does not change what was known before it was filed: facts filed after a day have
/// no part in what was known on it.
pub proof fn later_filings_do_not_matter(
    s: Seq<FactView>,
    f: FactView,
    concept: Seq<char>,
    day: int,
    i: int,
)
    requires
        f.filed > day,
        0 <= i < s.len(),
    ensures
        known(s.push(f), concept, day, i) == known(s, concept, day, i),
        !known(s.push(f), concept, day, s.len() as int),
{
    let t = s.push(f);
    if known(t, concept, day, i) {
        assert forall|j: int|
            0 <= j < s.len() && relevant(#[trigger] s[j], concept, day) && same_period(
                s[j],
                s[i],
            ) implies s[j].filed < s[i].filed || (s[j].filed == s[i].filed && i <= j) by {
            assert(t[j] == s[j]);
        }
    }
    if known(s, concept, day, i) {
        assert forall|j: int|
            0 <= j < t.len() && relevant(#[trigger] t[j], concept, day) && same_period(
                t[j],
                t[i],
            ) implies t[j].filed < t[i].filed || (t[j].filed == t[i].filed && i <= j) by {
            assert(j < s.len());
            assert(t[j] == s[j]);
        }
    }
}

/// Of one period one fact at most is known.
pub proof fn one_fact_is_known_of_a_period(
    s: Seq<FactView>,
    concept: Seq<char>,
    day: int,
    i: int,
    j: int,
)
    requires
        known(s, concept, day, i),
        known(s, concept, day, j),
        same_period(s[i], s[j]),
    ensures
        i == j,
{
    assert(relevant(s[i], concept, day));
    assert(relevant(s[j], concept, day));
}

// ── Periods ──────────────────────────────────────────────────────────────────

/// A flow over a year: its period is 350 to 380 days long.
pub open spec fn annual(f: FactView) -> bool {
    f.start is Some && 350 <= f.end - f.start->0 <= 380
}

/// A cumulative period that starts right after a year's end and ends after it.
pub open spec fn year_to_date(f: FactView, year_end: int) -> bool {
    &&& f.start is Some
    &&& 1 <= f.start->0 - year_end <= 7
    &&& 80 <= f.end - f.start->0 <= 290
    &&& f.end > year_end
}

/// Within ten days of a year.
pub open spec fn about_a_year(days: int) -> bool {
    355 <= days <= 375
}

/// The same cumulative period a year earlier, give or take ten days at either end.
pub open spec fn year_before(f: FactView, start: int, end: int) -> bool {
    f.start is Some && about_a_year(start - f.start->0) && about_a_year(end - f.end)
}

/// A balance-sheet value, which has no start.
pub open spec fn instant(f: FactView) -> bool {
    f.start is None
}

/// The kinds of period that are looked for.
#[derive(Clone, Copy, Debug, PartialEq, Eq, Structural)]
pub enum Kind {
    Annual,
    /// After the year that ends on the date.
    YearToDate(Date),
    /// A year before the period from the first date to the second.
    YearBefore(Date, Date),
    Instant,
    /// A year that ends within thirty days of the day.
    AnnualAround(i64),
}

/// Whether a fact's period is of a kind.
pub open spec fn of_kind(f: FactView, kind: Kind) -> bool {
    match kind {
        Kind::Annual => annual(f),
        Kind::YearToDate(end) => year_to_date(f, end.days as int),
        Kind::YearBefore(start, end) => year_before(f, start.days as int, end.days as int),
        Kind::Instant => instant(f),
        Kind::AnnualAround(day) => annual(f) && -30 <= f.end - day <= 30,
    }
}

/// Whether a fact's period is of a kind.
fn is_of_kind(f: &PitFact, kind: Kind) -> (r: bool)
    ensures
        r == of_kind(f@, kind),
{
    match kind {
        Kind::Instant => f.start.is_none(),
        Kind::Annual => match f.start {
            Some(s) => {
                let n: i64 = f.end.days_since(s);
                350 <= n && n <= 380
            },
            None => false,
        },
        Kind::AnnualAround(day) => match f.start {
            Some(s) => {
                let n: i64 = f.end.days_since(s);
                let end: i128 = f.end.days as i128 - day as i128;
                350 <= n && n <= 380 && -30 <= end && end <= 30
            },
            None => false,
        },
        Kind::YearToDate(year_end) => match f.start {
            Some(s) => {
                let gap: i64 = s.days_since(year_end);
                let n: i64 = f.end.days_since(s);
                1 <= gap && gap <= 7 && 80 <= n && n <= 290 && f.end.days > year_end.days
            },
            None => false,
        },
        Kind::YearBefore(start, end) => match f.start {
            Some(s) => {
                let a: i64 = start.days_since(s);
                let b: i64 = end.days_since(f.end);
                355 <= a && a <= 375 && 355 <= b && b <= 375
            },
            None => false,
        },
    }
}

/// The place of a start among others: none comes first.
pub open spec fn start_key(f: FactView) -> int {
    match f.start {
        Some(d) => d,
        None => i32::MIN - 1,
    }
}

/// Whether a period ends no later than another, or with it and starts no later.
pub open spec fn ends_by(a: FactView, b: FactView) -> bool {
    a.end < b.end || (a.end == b.end && start_key(a) <= start_key(b))
}

/// Whether a period starts no later than another, or with it and ends no later.
pub open spec fn starts_by(a: FactView, b: FactView) -> bool {
    start_key(a) < start_key(b) || (start_key(a) == start_key(b) && a.end <= b.end)
}

/// Whether a fact was known and is of a kind.
pub open spec fn candidate(
    s: Seq<FactView>,
    concept: Seq<char>,
    day: int,
    kind: Kind,
    i: int,
) -> bool {
    known(s, concept, day, i) && of_kind(s[i], kind)
}

/// `i` is the latest of what was known of a kind.
pub open spec fn latest_of(
    s: Seq<FactView>,
    concept: Seq<char>,
    day: int,
    kind: Kind,
    i: int,
) -> bool {
    candidate(s, concept, day, kind, i) && forall|j: int| #[trigger]
        candidate(s, concept, day, kind, j) ==> ends_by(s[j], s[i])
}

/// `i` is the first of what was known of a kind.
pub open spec fn first_of(
    s: Seq<FactView>,
    concept: Seq<char>,
    day: int,
    kind: Kind,
    i: int,
) -> bool {
    candidate(s, concept, day, kind, i) && forall|j: int| #[trigger]
        candidate(s, concept, day, kind, j) ==> starts_by(s[i], s[j])
}

/// Nothing of a kind was known.
pub open spec fn none_of(s: Seq<FactView>, concept: Seq<char>, day: int, kind: Kind) -> bool {
    forall|j: int| !#[trigger] candidate(s, concept, day, kind, j)
}

/// The place of a start among others.
fn key_of_start(start: Option<Date>) -> (r: i64)
    ensures
        r == (match start {
            Some(d) => d.days as int,
            None => i32::MIN - 1,
        }),
{
    match start {
        Some(d) => d.days as i64,
        None => i32::MIN as i64 - 1,
    }
}

/// The latest of what was known of a kind.
fn find_latest(facts: &Vec<PitFact>, concept: &str, as_of: Date, kind: Kind) -> (r: Option<usize>)
    ensures
        match r {
            Some(i) => latest_of(views(facts@), concept@, as_of.days as int, kind, i as int),
            None => none_of(views(facts@), concept@, as_of.days as int, kind),
        },
{
    let ghost s = views(facts@);
    let ghost day = as_of.days as int;
    let mut best: Option<usize> = None;
    let mut i: usize = 0;
    while i < facts.len()
        invariant
            i <= facts@.len(),
            s == views(facts@),
            day == as_of.days,
            match best {
                Some(b) => b < i && candidate(s, concept@, day, kind, b as int) && forall|j: int|
                    j < i && #[trigger] candidate(s, concept@, day, kind, j) ==> ends_by(
                        s[j],
                        s[b as int],
                    ),
                None => forall|j: int| j < i ==> !#[trigger] candidate(s, concept@, day, kind, j),
            },
        decreases facts@.len() - i,
    {
        proof {
            assert(s[i as int] == facts@[i as int]@);
        }
        if is_of_kind(&facts[i], kind) && is_known(facts, concept, as_of, i) {
            match best {
                Some(b) => {
                    proof {
                        assert(s[b as int] == facts@[b as int]@);
                    }
                    let f: &PitFact = &facts[i];
                    let g: &PitFact = &facts[b];
                    if g.end.days < f.end.days || (g.end.days == f.end.days && key_of_start(g.start)
                        <= key_of_start(f.start)) {
                        best = Some(i);
                    }
                },
                None => {
                    best = Some(i);
                },
            }
        }
        i = i + 1;
    }
    best
}

/// The first of what was known of a kind.
fn find_first(facts: &Vec<PitFact>, concept: &str, as_of: Date, kind: Kind) -> (r: Option<usize>)
    ensures
        match r {
            Some(i) => first_of(views(facts@), concept@, as_of.days as int, kind, i as int),
            None => none_of(views(facts@), concept@, as_of.days as int, kind),
        },
{
    let ghost s = views(facts@);
    let ghost day = as_of.days as int;
    let mut best: Option<usize> = None;
    let mut i: usize = 0;
    while i < facts.len()
        invariant
            i <= facts@.len(),
            s == views(facts@),
            day == as_of.days,
            match best {
                Some(b) => b < i && candidate(s, concept@, day, kind, b as int) && forall|j: int|
                    j < i && #[trigger] candidate(s, concept@, day, kind, j) ==> starts_by(
                        s[b as int],
                        s[j],
                    ),
                None => forall|j: int| j < i ==> !#[trigger] candidate(s, concept@, day, kind, j),
            },
        decreases facts@.len() - i,
    {
        proof {
            assert(s[i as int] == facts@[i as int]@);
        }
        if is_of_kind(&facts[i], kind) && is_known(facts, concept, as_of, i) {
            match best {
                Some(b) => {
                    proof {
                        assert(s[b as int] == facts@[b as int]@);
                    }
                    let f: &PitFact = &facts[i];
                    let g: &PitFact = &facts[b];
                    let kf: i64 = key_of_start(f.start);
                    let kg: i64 = key_of_start(g.start);
                    if kf < kg || (kf == kg && f.end.days < g.end.days) {
                        best = Some(i);
                    }
                },
                None => {
                    best = Some(i);
                },
            }
        }
        i = i + 1;
    }
    best
}

// ── Trailing figures ─────────────────────────────────────────────────────────

/// A flow over the last twelve months: the year, or the year plus the months since and less the
/// same months of the year before.
#[derive(Clone, Copy, Debug, PartialEq, Eq)]
pub struct Ttm {
    pub annual: Number,
    /// The months since the year and the same months a year earlier.
    pub year_to_date: Option<(Number, Number)>,
}

/// Whether a period's end is too long ago.
pub open spec fn stale(end: int, day: int) -> bool {
    day - end > MAX_STALENESS_DAYS
}

/// The periods a year before that of the fact at position `y`.
pub open spec fn before_period(s: Seq<FactView>, y: int) -> Kind {
    Kind::YearBefore(Date { days: s[y].start->0 as i32 }, Date { days: s[y].end as i32 })
}

/// Whether a value is what was known of the period a year before that of the fact at position `y`.
pub open spec fn value_a_year_before(
    s: Seq<FactView>,
    concept: Seq<char>,
    day: int,
    y: int,
    value: Number,
) -> bool {
    exists|p: int| #[trigger]
        first_of(s, concept, day, before_period(s, y), p) && s[p].value == value
}

/// Whether `t` is the flow of a concept over the twelve months that were known last on a day, the
/// year being the fact at position `a`.
pub open spec fn is_ttm(s: Seq<FactView>, concept: Seq<char>, day: int, a: int, t: Ttm) -> bool {
    let since = Kind::YearToDate(Date { days: s[a].end as i32 });
    &&& t.annual == s[a].value
    &&& match t.year_to_date {
        Some((current, prior)) => exists|y: int| #[trigger]
            latest_of(s, concept, day, since, y) && s[y].value == current && value_a_year_before(
                s,
                concept,
                day,
                y,
                prior,
            ),
        None => none_of(s, concept, day, since) || exists|y: int| #[trigger]
            latest_of(s, concept, day, since, y) && none_of(s, concept, day, before_period(s, y)),
    }
}

/// Whether `r` is the flow of a concept over the twelve months that were known last on a day:
/// nothing where no year was known or the latest is stale.
pub open spec fn ttm_is(s: Seq<FactView>, concept: Seq<char>, day: int, r: Option<Ttm>) -> bool {
    match r {
        Some(t) => exists|a: int| #[trigger]
            latest_of(s, concept, day, Kind::Annual, a) && !stale(s[a].end, day) && is_ttm(
                s,
                concept,
                day,
                a,
                t,
            ),
        None => none_of(s, concept, day, Kind::Annual) || exists|a: int| #[trigger]
            latest_of(s, concept, day, Kind::Annual, a) && stale(s[a].end, day),
    }
}

/// The flow of a concept over the twelve months that were known last on a date.
pub fn ttm(facts: &Vec<PitFact>, concept: &str, as_of: Date) -> (r: Option<Ttm>)
    ensures
        ttm_is(views(facts@), concept@, as_of.days as int, r),
{
    let ghost s = views(facts@);
    let ghost day = as_of.days as int;
    let a: usize = match find_latest(facts, concept, as_of, Kind::Annual) {
        Some(i) => i,
        None => {
            return None;
        },
    };
    proof {
        assert(s[a as int] == facts@[a as int]@);
        assert(latest_of(s, concept@, day, Kind::Annual, a as int));
    }
    let year: &PitFact = &facts[a];
    if as_of.days_since(year.end) > MAX_STALENESS_DAYS {
        return None;
    }
    let since: Kind = Kind::YearToDate(year.end);
    let y: usize = match find_latest(facts, concept, as_of, since) {
        Some(i) => i,
        None => {
            let t: Ttm = Ttm { annual: year.value, year_to_date: None };
            proof {
                assert(is_ttm(s, concept@, day, a as int, t));
            }
            return Some(t);
        },
    };
    proof {
        assert(s[y as int] == facts@[y as int]@);
        assert(latest_of(s, concept@, day, since, y as int));
    }
    let ytd: &PitFact = &facts[y];
    let start: Date = match ytd.start {
        Some(d) => d,
        None => {
            proof {
                assert(year_to_date(s[y as int], year.end.days as int));
            }
            ytd.end
        },
    };
    let before: Kind = Kind::YearBefore(start, ytd.end);
    match find_first(facts, concept, as_of, before) {
        Some(p) => {
            let t: Ttm = Ttm {
                annual: year.value,
                year_to_date: Some((ytd.value, facts[p].value)),
            };
            proof {
                assert(s[p as int] == facts@[p as int]@);
                assert(first_of(s, concept@, day, before_period(s, y as int), p as int));
                assert(value_a_year_before(s, concept@, day, y as int, s[p as int].value));
                assert(since == Kind::YearToDate(Date { days: s[a as int].end as i32 }));
                assert(t.annual == s[a as int].value);
                assert(t.year_to_date == Some((s[y as int].value, s[p as int].value)));
                assert(is_ttm(s, concept@, day, a as int, t));
            }
            Some(t)
        },
        None => {
            let t: Ttm = Ttm { annual: year.value, year_to_date: None };
            proof {
                assert(is_ttm(s, concept@, day, a as int, t));
            }
            Some(t)
        },
    }
}

/// Whether `r` is the latest balance-sheet value that was known on a day and is not stale.
pub open spec fn instant_is(
    s: Seq<FactView>,
    concept: Seq<char>,
    day: int,
    r: Option<Number>,
) -> bool {
    match r {
        Some(x) => exists|i: int| #[trigger]
            latest_of(s, concept, day, Kind::Instant, i) && !stale(s[i].end, day) && x
                == s[i].value,
        None => none_of(s, concept, day, Kind::Instant) || exists|i: int| #[trigger]
            latest_of(s, concept, day, Kind::Instant, i) && stale(s[i].end, day),
    }
}

/// The latest balance-sheet value that was known on a date and is not stale.
pub fn latest_instant(facts: &Vec<PitFact>, concept: &str, as_of: Date) -> (r: Option<Number>)
    ensures
        instant_is(views(facts@), concept@, as_of.days as int, r),
{
    match find_latest(facts, concept, as_of, Kind::Instant) {
        Some(i) => {
            proof {
                assert(views(facts@)[i as int] == facts@[i as int]@);
                assert(latest_of(
                    views(facts@),
                    concept@,
                    as_of.days as int,
                    Kind::Instant,
                    i as int,
                ));
            }
            if as_of.days_since(facts[i].end) <= MAX_STALENESS_DAYS {
                Some(facts[i].value)
            } else {
                None
            }
        },
        None => None,
    }
}


/// How far a period's end lies from a day.
pub open spec fn distance(f: FactView, day: int) -> int {
    if f.end >= day {
        f.end - day
    } else {
        day - f.end
    }
}

/// `i` is the year whose end lies closest to a day, and the first of several.
pub open spec fn closest_year(
    s: Seq<FactView>,
    concept: Seq<char>,
    day: int,
    target: i64,
    i: int,
) -> bool {
    candidate(s, concept, day, Kind::AnnualAround(target), i) && forall|j: int| #[trigger]
        candidate(s, concept, day, Kind::AnnualAround(target), j) ==> distance(s[i], target as int)
            < distance(s[j], target as int) || (distance(s[i], target as int) == distance(
            s[j],
            target as int,
        ) && starts_by(s[i], s[j]))
}

/// The year whose end lies closest to a day.
fn find_closest(facts: &Vec<PitFact>, concept: &str, as_of: Date, target: i64) -> (r: Option<usize>)
    requires
        -0x1_0000_0000 <= target <= 0x1_0000_0000,
    ensures
        match r {
            Some(i) => closest_year(
                views(facts@),
                concept@,
                as_of.days as int,
                target,
                i as int,
            ),
            None => none_of(
                views(facts@),
                concept@,
                as_of.days as int,
                Kind::AnnualAround(target),
            ),
        },
{
    let ghost s = views(facts@);
    let ghost day = as_of.days as int;
    let kind: Kind = Kind::AnnualAround(target);
    let mut best: Option<usize> = None;
    let mut i: usize = 0;
    while i < facts.len()
        invariant
            i <= facts@.len(),
            s == views(facts@),
            day == as_of.days,
            kind == Kind::AnnualAround(target),
            -0x1_0000_0000 <= target <= 0x1_0000_0000,
            match best {
                Some(b) => b < i && candidate(s, concept@, day, kind, b as int) && forall|j: int|
                    j < i && #[trigger] candidate(s, concept@, day, kind, j) ==> distance(
                        s[b as int],
                        target as int,
                    ) < distance(s[j], target as int) || (distance(s[b as int], target as int)
                        == distance(s[j], target as int) && starts_by(s[b as int], s[j])),
                None => forall|j: int| j < i ==> !#[trigger] candidate(s, concept@, day, kind, j),
            },
        decreases facts@.len() - i,
    {
        proof {
            assert(s[i as int] == facts@[i as int]@);
        }
        if is_of_kind(&facts[i], kind) && is_known(facts, concept, as_of, i) {
            match best {
                Some(b) => {
                    proof {
                        assert(s[b as int] == facts@[b as int]@);
                    }
                    let f: &PitFact = &facts[i];
                    let g: &PitFact = &facts[b];
                    let a: i64 = f.end.days as i64 - target;
                    let c: i64 = g.end.days as i64 - target;
                    let df: i64 = if a >= 0 {
                        a
                    } else {
                        -a
                    };
                    let dg: i64 = if c >= 0 {
                        c
                    } else {
                        -c
                    };
                    let kf: i64 = key_of_start(f.start);
                    let kg: i64 = key_of_start(g.start);
                    if df < dg || (df == dg && (kf < kg || (kf == kg && f.end.days < g.end.days))) {
                        best = Some(i);
                    }
                },
                None => {
                    best = Some(i);
                },
            }
        }
        i = i + 1;
    }
    best
}

/// Whether two revenues are those that growth over three years is read from: that of the latest
/// year known, `a`, and that of the year that ended closest to three years before.
pub open spec fn growth_ends(s: Seq<FactView>, day: int, a: int, ends: (Number, Number)) -> bool {
    ends.1 == s[a].value && exists|b: int| #[trigger]
        closest_year(s, "revenue"@, day, (s[a].end - THREE_YEARS_DAYS) as i64, b) && ends.0
            == s[b].value
}

/// Whether the revenues of the latest year known, `a`, and of three years before are known, and
/// neither is zero or less.
pub open spec fn has_growth(s: Seq<FactView>, day: int, a: int) -> bool {
    !s[a].value.le(Number { bits: 0 }) && exists|b: int| #[trigger]
        closest_year(s, "revenue"@, day, (s[a].end - THREE_YEARS_DAYS) as i64, b)
            && !s[b].value.le(Number { bits: 0 })
}

/// Whether `r` are the revenues, three years apart, that growth is computed from: nothing where no
/// year was known on the day, the latest is stale, none ended about three years before, or one of
/// the two is not positive.
pub open spec fn growth_is(s: Seq<FactView>, day: int, r: Option<(Number, Number)>) -> bool {
    match r {
        Some(ends) => exists|a: int| #[trigger]
            latest_of(s, "revenue"@, day, Kind::Annual, a) && !stale(s[a].end, day) && has_growth(
                s,
                day,
                a,
            ) && growth_ends(s, day, a, ends),
        None => none_of(s, "revenue"@, day, Kind::Annual) || exists|a: int| #[trigger]
            latest_of(s, "revenue"@, day, Kind::Annual, a) && (stale(s[a].end, day) || !has_growth(
                s,
                day,
                a,
            )),
    }
}

/// The revenues, three years apart, that growth is computed from.
pub fn revenue_cagr_3yr(facts: &Vec<PitFact>, as_of: Date) -> (r: Option<(Number, Number)>)
    ensures
        growth_is(views(facts@), as_of.days as int, r),
{
    let ghost s = views(facts@);
    let ghost day = as_of.days as int;
    let a: usize = match find_latest(facts, "revenue", as_of, Kind::Annual) {
        Some(i) => i,
        None => {
            return None;
        },
    };
    proof {
        assert(s[a as int] == facts@[a as int]@);
        assert(latest_of(s, "revenue"@, day, Kind::Annual, a as int));
    }
    if as_of.days_since(facts[a].end) > MAX_STALENESS_DAYS {
        return None;
    }
    let target: i64 = facts[a].end.days as i64 - THREE_YEARS_DAYS;
    let b: usize = match find_closest(facts, "revenue", as_of, target) {
        Some(i) => i,
        None => {
            proof {
                assert forall|q: int| !#[trigger] closest_year(s, "revenue"@, day, target, q) by {
                    assert(!candidate(s, "revenue"@, day, Kind::AnnualAround(target), q));
                }
                assert(!has_growth(s, day, a as int));
            }
            return None;
        },
    };
    proof {
        assert(s[b as int] == facts@[b as int]@);
        assert(closest_year(s, "revenue"@, day, target, b as int));
    }
    let latest: Number = facts[a].value;
    let base: Number = facts[b].value;
    if base.is_le(Number::zero()) || latest.is_le(Number::zero()) {
        proof {
            assert forall|q: int| #[trigger]
                closest_year(s, "revenue"@, day, target, q) implies q == b by {
                assert(candidate(s, "revenue"@, day, Kind::AnnualAround(target), q));
                assert(candidate(s, "revenue"@, day, Kind::AnnualAround(target), b as int));
                one_fact_is_known_of_a_period(s, "revenue"@, day, q, b as int);
            }
            assert(!has_growth(s, day, a as int));
        }
        return None;
    }
    proof {
        assert(growth_ends(s, day, a as int, (base, latest)));
        assert(has_growth(s, day, a as int));
    }
    Some((base, latest))
}

// ── Snapshot ─────────────────────────────────────────────────────────────────

/// What was known of a company on a date.
#[derive(Clone, Copy, Debug, PartialEq, Eq)]
pub struct SnapshotSources {
    pub revenue: Option<Ttm>,
    pub net_income: Option<Ttm>,
    pub gross_profit: Option<Ttm>,
    pub operating_cash_flow: Option<Ttm>,
    pub assets: Option<Number>,
    pub equity: Option<Number>,
    pub shares: Option<Number>,
    pub long_term_debt: Option<Number>,
    pub short_term_debt: Option<Number>,
    /// Revenue three years before the latest year, and in it.
    pub growth: Option<(Number, Number)>,
}

/// Whether `r` is what was known of a company on a day.
pub open spec fn are_sources(s: Seq<FactView>, day: int, r: SnapshotSources) -> bool {
    &&& ttm_is(s, "revenue"@, day, r.revenue)
    &&& ttm_is(s, "net_income"@, day, r.net_income)
    &&& ttm_is(s, "gross_profit"@, day, r.gross_profit)
    &&& ttm_is(s, "operating_cash_flow"@, day, r.operating_cash_flow)
    &&& instant_is(s, "assets"@, day, r.assets)
    &&& instant_is(s, "equity"@, day, r.equity)
    &&& instant_is(s, "shares_outstanding"@, day, r.shares)
    &&& instant_is(s, "long_term_debt"@, day, r.long_term_debt)
    &&& instant_is(s, "short_term_debt"@, day, r.short_term_debt)
    &&& growth_is(s, day, r.growth)
}

/// What was known of a company on a date.
pub fn snapshot_sources(facts: &Vec<PitFact>, as_of: Date) -> (r: SnapshotSources)
    ensures
        are_sources(views(facts@), as_of.days as int, r),
{
    SnapshotSources {
        revenue: ttm(facts, "revenue", as_of),
        net_income: ttm(facts, "net_income", as_of),
        gross_profit: ttm(facts, "gross_profit", as_of),
        operating_cash_flow: ttm(facts, "operating_cash_flow", as_of),
        assets: latest_instant(facts, "assets", as_of),
        equity: latest_instant(facts, "equity", as_of),
        shares: latest_instant(facts, "shares_outstanding", as_of),
        long_term_debt: latest_instant(facts, "long_term_debt", as_of),
        short_term_debt: latest_instant(facts, "short_term_debt", as_of),
        growth: revenue_cagr_3yr(facts, as_of),
    }
}

/// What a snapshot is computed from.
#[derive(Clone, Copy, Debug, PartialEq, Eq, Structural)]
pub struct SnapshotInputs {
    pub revenue: Option<Number>,
    pub net_income: Option<Number>,
    pub gross_profit: Option<Number>,
    pub assets: Option<Number>,
    pub equity: Option<Number>,
    pub shares: Option<Number>,
    /// Long-term debt plus current debt, where at least one is known.
    pub debt: Option<Number>,
    /// The close on or before the date, not adjusted.
    pub price: Option<Number>,
}

/// Which ratios a snapshot has: for each the values it is the quotient of.
#[derive(Clone, Copy, Debug, PartialEq, Eq)]
pub struct SnapshotRatios {
    pub revenue_ttm: Option<Number>,
    /// Net income and revenue.
    pub net_margin: Option<(Number, Number)>,
    /// Gross profit and revenue.
    pub gross_margin: Option<(Number, Number)>,
    /// Net income and assets.
    pub return_on_assets: Option<(Number, Number)>,
    /// Debt and equity.
    pub debt_to_equity: Option<(Number, Number)>,
    /// Price, shares and equity.
    pub price_to_book: Option<(Number, Number, Number)>,
}

/// A value that is greater than zero.
pub open spec fn above_zero(x: Option<Number>) -> Option<Number> {
    match x {
        Some(v) => if (Number { bits: 0 }).lt(v) {
            Some(v)
        } else {
            None
        },
        None => None,
    }
}

/// Two values that are both known.
pub open spec fn both(a: Option<Number>, b: Option<Number>) -> Option<(Number, Number)> {
    match (a, b) {
        (Some(x), Some(y)) => Some((x, y)),
        _ => None,
    }
}

/// The ratios that can be computed: revenue, assets and shares must be greater than zero, and so
/// must equity where it divides and the price; leverage with no or negative equity is unknown.
pub open spec fn ratios(x: SnapshotInputs) -> SnapshotRatios {
    let revenue = above_zero(x.revenue);
    let equity = above_zero(x.equity);
    SnapshotRatios {
        revenue_ttm: revenue,
        net_margin: both(x.net_income, revenue),
        gross_margin: both(x.gross_profit, revenue),
        return_on_assets: both(x.net_income, above_zero(x.assets)),
        debt_to_equity: both(x.debt, equity),
        price_to_book: match (above_zero(x.price), above_zero(x.shares), equity) {
            (Some(p), Some(n), Some(e)) => Some((p, n, e)),
            _ => None,
        },
    }
}

/// Whether ratios say anything that is worth a snapshot.
pub open spec fn meaningful(r: SnapshotRatios) -> bool {
    r.revenue_ttm is Some || r.net_margin is Some || r.return_on_assets is Some
        || r.debt_to_equity is Some || r.price_to_book is Some
}

/// A value that is greater than zero.
fn keep_positive(x: Option<Number>) -> (r: Option<Number>)
    ensures
        r == above_zero(x),
{
    match x {
        Some(v) => if Number::zero().is_lt(v) {
            Some(v)
        } else {
            None
        },
        None => None,
    }
}

/// Two values that are both known.
fn pair(a: Option<Number>, b: Option<Number>) -> (r: Option<(Number, Number)>)
    ensures
        r == both(a, b),
{
    match (a, b) {
        (Some(x), Some(y)) => Some((x, y)),
        _ => None,
    }
}

/// The ratios of a snapshot, or nothing where none is worth one.
pub fn build_snapshot(x: SnapshotInputs) -> (r: Option<SnapshotRatios>)
    ensures
        r == (if meaningful(ratios(x)) {
            Some(ratios(x))
        } else {
            None
        }),
{
    let revenue: Option<Number> = keep_positive(x.revenue);
    let equity: Option<Number> = keep_positive(x.equity);
    let out: SnapshotRatios = SnapshotRatios {
        revenue_ttm: revenue,
        net_margin: pair(x.net_income, revenue),
        gross_margin: pair(x.gross_profit, revenue),
        return_on_assets: pair(x.net_income, keep_positive(x.assets)),
        debt_to_equity: pair(x.debt, equity),
        price_to_book: match (keep_positive(x.price), keep_positive(x.shares), equity) {
            (Some(p), Some(n), Some(e)) => Some((p, n, e)),
            _ => None,
        },
    };
    if out.revenue_ttm.is_some() || out.net_margin.is_some() || out.return_on_assets.is_some()
        || out.debt_to_equity.is_some() || out.price_to_book.is_some() {
        Some(out)
    } else {
        None
    }
}

// ── What later filings cannot change ─────────────────────────────────────────

/// The facts that were filed by a day.
pub open spec fn public_by(s: Seq<FactView>, day: int) -> Seq<FactView> {
    s.filter(|f: FactView| f.filed <= day)
}

/// Where the facts filed by a day stand in a list.
proof fn lemma_places(s: Seq<FactView>, day: int) -> (e: Seq<int>)
    ensures
        e.len() == public_by(s, day).len(),
        forall|k: int|
            0 <= k < e.len() ==> 0 <= (#[trigger] e[k]) < s.len() && s[e[k]] == public_by(
                s,
                day,
            )[k] && s[e[k]].filed <= day,
        forall|k: int, l: int| 0 <= k < l < e.len() ==> (#[trigger] e[k]) < (#[trigger] e[l]),
        forall|i: int|
            0 <= i < s.len() && (#[trigger] s[i]).filed <= day ==> exists|k: int|
                0 <= k < e.len() && #[trigger] e[k] == i,
    decreases s.len(),
{
    reveal(Seq::filter);
    if s.len() == 0 {
        seq![]
    } else {
        let init = s.drop_last();
        let before = lemma_places(init, day);
        let e = if s.last().filed <= day {
            before.push(s.len() - 1)
        } else {
            before
        };
        assert forall|k: int| 0 <= k < e.len() implies 0 <= (#[trigger] e[k]) < s.len() && s[e[k]]
            == public_by(s, day)[k] && s[e[k]].filed <= day by {
            if k < before.len() {
                assert(e[k] == before[k]);
                assert(init[before[k]] == s[before[k]]);
            }
        }
        assert forall|i: int| 0 <= i < s.len() && (#[trigger] s[i]).filed
            <= day implies exists|k: int| 0 <= k < e.len() && #[trigger] e[k] == i by {
            if i < init.len() {
                assert(init[i] == s[i]);
                let k = choose|k: int| 0 <= k < before.len() && #[trigger] before[k] == i;
                assert(e[k] == i);
            } else {
                assert(e[before.len() as int] == i);
            }
        }
        e
    }
}

/// Whether a fact is what was known of a concept and its period on a day.
pub open spec fn known_as(s: Seq<FactView>, concept: Seq<char>, day: int, f: FactView) -> bool {
    exists|i: int| #[trigger] known(s, concept, day, i) && s[i] == f
}

/// What was known on a day depends on what had been filed by it alone.
proof fn lemma_public_part(s: Seq<FactView>, concept: Seq<char>, day: int, f: FactView)
    ensures
        known_as(s, concept, day, f) == known_as(public_by(s, day), concept, day, f),
{
    let v = public_by(s, day);
    let e = lemma_places(s, day);
    if known_as(s, concept, day, f) {
        let i = choose|i: int| #[trigger] known(s, concept, day, i) && s[i] == f;
        let k = choose|k: int| 0 <= k < e.len() && #[trigger] e[k] == i;
        assert forall|j: int|
            0 <= j < v.len() && relevant(#[trigger] v[j], concept, day) && same_period(
                v[j],
                v[k],
            ) implies v[j].filed < v[k].filed || (v[j].filed == v[k].filed && k <= j) by {
            assert(s[e[j]] == v[j]);
            if j < k {
                assert(e[j] < e[k]);
            }
        }
        assert(known(v, concept, day, k));
    }
    if known_as(v, concept, day, f) {
        let k = choose|k: int| #[trigger] known(v, concept, day, k) && v[k] == f;
        let i = e[k];
        assert forall|j: int|
            0 <= j < s.len() && relevant(#[trigger] s[j], concept, day) && same_period(
                s[j],
                s[i],
            ) implies s[j].filed < s[i].filed || (s[j].filed == s[i].filed && i <= j) by {
            let l = choose|l: int| 0 <= l < e.len() && #[trigger] e[l] == j;
            assert(s[e[l]] == v[l]);
            if k < l {
                assert(e[k] < e[l]);
            }
        }
        assert(known(s, concept, day, i));
    }
}

/// The same was known of every concept from two lists.
spec fn same_known(s: Seq<FactView>, t: Seq<FactView>, day: int) -> bool {
    forall|concept: Seq<char>, f: FactView|
        #![trigger known_as(s, concept, day, f)]
        #![trigger known_as(t, concept, day, f)]
        known_as(s, concept, day, f) == known_as(t, concept, day, f)
}

/// Starts are dates.
spec fn starts_are_dates(s: Seq<FactView>) -> bool {
    forall|i: int| 0 <= i < s.len() ==> start_key(#[trigger] s[i]) >= i32::MIN - 1 && (
    s[i].start is Some ==> start_key(s[i]) >= i32::MIN)
}

/// The fact known from one list is found in the other.
proof fn lemma_counterpart(
    s: Seq<FactView>,
    t: Seq<FactView>,
    concept: Seq<char>,
    day: int,
    kind: Kind,
    i: int,
) -> (k: int)
    requires
        same_known(s, t, day),
        candidate(s, concept, day, kind, i),
    ensures
        candidate(t, concept, day, kind, k),
        t[k] == s[i],
{
    assert(known_as(s, concept, day, s[i]));
    assert(known_as(t, concept, day, s[i]));
    let k = choose|k: int| #[trigger] known(t, concept, day, k) && t[k] == s[i];
    k
}

proof fn lemma_swapped_known(s: Seq<FactView>, t: Seq<FactView>, day: int)
    requires
        same_known(s, t, day),
    ensures
        same_known(t, s, day),
{
}

proof fn lemma_same_none(
    s: Seq<FactView>,
    t: Seq<FactView>,
    concept: Seq<char>,
    day: int,
    kind: Kind,
)
    requires
        same_known(s, t, day),
        none_of(s, concept, day, kind),
    ensures
        none_of(t, concept, day, kind),
{
    lemma_swapped_known(s, t, day);
    assert forall|j: int| !#[trigger] candidate(t, concept, day, kind, j) by {
        if candidate(t, concept, day, kind, j) {
            let k = lemma_counterpart(t, s, concept, day, kind, j);
        }
    }
}

/// Two candidates of the same period are the same fact.
proof fn lemma_same_fact(
    s: Seq<FactView>,
    t: Seq<FactView>,
    concept: Seq<char>,
    day: int,
    kind: Kind,
    i: int,
    j: int,
)
    requires
        same_known(s, t, day),
        starts_are_dates(s),
        starts_are_dates(t),
        candidate(s, concept, day, kind, i),
        candidate(t, concept, day, kind, j),
        start_key(s[i]) == start_key(t[j]),
        s[i].end == t[j].end,
    ensures
        s[i] == t[j],
{
    let k = lemma_counterpart(s, t, concept, day, kind, i);
    assert(same_period(t[k], t[j]));
    one_fact_is_known_of_a_period(t, concept, day, k, j);
}

proof fn lemma_same_latest(
    s: Seq<FactView>,
    t: Seq<FactView>,
    concept: Seq<char>,
    day: int,
    kind: Kind,
    i: int,
    j: int,
)
    requires
        same_known(s, t, day),
        starts_are_dates(s),
        starts_are_dates(t),
        latest_of(s, concept, day, kind, i),
        latest_of(t, concept, day, kind, j),
    ensures
        s[i] == t[j],
{
    lemma_swapped_known(s, t, day);
    let k = lemma_counterpart(s, t, concept, day, kind, i);
    let l = lemma_counterpart(t, s, concept, day, kind, j);
    assert(ends_by(t[k], t[j]));
    assert(ends_by(s[l], s[i]));
    lemma_same_fact(s, t, concept, day, kind, i, j);
}

proof fn lemma_same_first(
    s: Seq<FactView>,
    t: Seq<FactView>,
    concept: Seq<char>,
    day: int,
    kind: Kind,
    i: int,
    j: int,
)
    requires
        same_known(s, t, day),
        starts_are_dates(s),
        starts_are_dates(t),
        first_of(s, concept, day, kind, i),
        first_of(t, concept, day, kind, j),
    ensures
        s[i] == t[j],
{
    lemma_swapped_known(s, t, day);
    let k = lemma_counterpart(s, t, concept, day, kind, i);
    let l = lemma_counterpart(t, s, concept, day, kind, j);
    assert(starts_by(t[j], t[k]));
    assert(starts_by(s[i], s[l]));
    lemma_same_fact(s, t, concept, day, kind, i, j);
}

proof fn lemma_same_closest(
    s: Seq<FactView>,
    t: Seq<FactView>,
    concept: Seq<char>,
    day: int,
    target: i64,
    i: int,
    j: int,
)
    requires
        same_known(s, t, day),
        starts_are_dates(s),
        starts_are_dates(t),
        closest_year(s, concept, day, target, i),
        closest_year(t, concept, day, target, j),
    ensures
        s[i] == t[j],
{
    let kind = Kind::AnnualAround(target);
    lemma_swapped_known(s, t, day);
    let k = lemma_counterpart(s, t, concept, day, kind, i);
    let l = lemma_counterpart(t, s, concept, day, kind, j);
    assert(candidate(t, concept, day, kind, k));
    assert(candidate(s, concept, day, kind, l));
    assert(starts_by(t[j], t[k]));
    assert(starts_by(s[i], s[l]));
    lemma_same_fact(s, t, concept, day, kind, i, j);
}

proof fn lemma_same_instant(
    s: Seq<FactView>,
    t: Seq<FactView>,
    concept: Seq<char>,
    day: int,
    a: Option<Number>,
    b: Option<Number>,
)
    requires
        same_known(s, t, day),
        starts_are_dates(s),
        starts_are_dates(t),
        instant_is(s, concept, day, a),
        instant_is(t, concept, day, b),
    ensures
        a == b,
{
    let kind = Kind::Instant;
    lemma_swapped_known(s, t, day);
    if none_of(s, concept, day, kind) {
        lemma_same_none(s, t, concept, day, kind);
    } else if none_of(t, concept, day, kind) {
        lemma_same_none(t, s, concept, day, kind);
    } else {
        let i = choose|i: int| #[trigger]
            latest_of(s, concept, day, kind, i) && match a {
                Some(x) => !stale(s[i].end, day) && x == s[i].value,
                None => stale(s[i].end, day),
            };
        let j = choose|j: int| #[trigger]
            latest_of(t, concept, day, kind, j) && match b {
                Some(x) => !stale(t[j].end, day) && x == t[j].value,
                None => stale(t[j].end, day),
            };
        lemma_same_latest(s, t, concept, day, kind, i, j);
    }
}

proof fn lemma_same_year_to_date(
    s: Seq<FactView>,
    t: Seq<FactView>,
    concept: Seq<char>,
    day: int,
    i: int,
    j: int,
    a: Ttm,
    b: Ttm,
)
    requires
        same_known(s, t, day),
        starts_are_dates(s),
        starts_are_dates(t),
        s[i] == t[j],
        is_ttm(s, concept, day, i, a),
        is_ttm(t, concept, day, j, b),
        a.year_to_date is Some,
    ensures
        a == b,
{
    let since = Kind::YearToDate(Date { days: s[i].end as i32 });
    lemma_swapped_known(s, t, day);
    let (current, prior) = a.year_to_date->0;
    let y = choose|y: int| #[trigger]
        latest_of(s, concept, day, since, y) && s[y].value == current && value_a_year_before(
            s,
            concept,
            day,
            y,
            prior,
        );
    let p = choose|p: int| #[trigger]
        first_of(s, concept, day, before_period(s, y), p) && s[p].value == prior;
    if none_of(t, concept, day, since) {
        lemma_same_none(t, s, concept, day, since);
        assert(candidate(s, concept, day, since, y));
    }
    match b.year_to_date {
        Some((current2, prior2)) => {
            let z = choose|z: int| #[trigger]
                latest_of(t, concept, day, since, z) && t[z].value == current2
                    && value_a_year_before(t, concept, day, z, prior2);
            lemma_same_latest(s, t, concept, day, since, y, z);
            let q = choose|q: int| #[trigger]
                first_of(t, concept, day, before_period(t, z), q) && t[q].value == prior2;
            lemma_same_first(s, t, concept, day, before_period(s, y), p, q);
        },
        None => {
            let z = choose|z: int| #[trigger]
                latest_of(t, concept, day, since, z) && none_of(
                    t,
                    concept,
                    day,
                    before_period(t, z),
                );
            lemma_same_latest(s, t, concept, day, since, y, z);
            lemma_same_none(t, s, concept, day, before_period(t, z));
            assert(candidate(s, concept, day, before_period(s, y), p));
        },
    }
}

proof fn lemma_same_ttm(
    s: Seq<FactView>,
    t: Seq<FactView>,
    concept: Seq<char>,
    day: int,
    a: Option<Ttm>,
    b: Option<Ttm>,
)
    requires
        same_known(s, t, day),
        starts_are_dates(s),
        starts_are_dates(t),
        ttm_is(s, concept, day, a),
        ttm_is(t, concept, day, b),
    ensures
        a == b,
{
    let kind = Kind::Annual;
    lemma_swapped_known(s, t, day);
    if none_of(s, concept, day, kind) {
        lemma_same_none(s, t, concept, day, kind);
    } else if none_of(t, concept, day, kind) {
        lemma_same_none(t, s, concept, day, kind);
    } else {
        let i = choose|i: int| #[trigger]
            latest_of(s, concept, day, kind, i) && match a {
                Some(x) => !stale(s[i].end, day) && is_ttm(s, concept, day, i, x),
                None => stale(s[i].end, day),
            };
        let j = choose|j: int| #[trigger]
            latest_of(t, concept, day, kind, j) && match b {
                Some(x) => !stale(t[j].end, day) && is_ttm(t, concept, day, j, x),
                None => stale(t[j].end, day),
            };
        lemma_same_latest(s, t, concept, day, kind, i, j);
        if a is Some && b is Some {
            if a->0.year_to_date is Some {
                lemma_same_year_to_date(s, t, concept, day, i, j, a->0, b->0);
            } else if b->0.year_to_date is Some {
                lemma_same_year_to_date(t, s, concept, day, j, i, b->0, a->0);
            }
        }
    }
}

proof fn lemma_same_growth(
    s: Seq<FactView>,
    t: Seq<FactView>,
    day: int,
    a: Option<(Number, Number)>,
    b: Option<(Number, Number)>,
)
    requires
        same_known(s, t, day),
        starts_are_dates(s),
        starts_are_dates(t),
        growth_is(s, day, a),
        growth_is(t, day, b),
        a is Some,
    ensures
        a == b,
{
    let concept = "revenue"@;
    let ends = a->0;
    lemma_swapped_known(s, t, day);
    let i = choose|i: int| #[trigger]
        latest_of(s, concept, day, Kind::Annual, i) && !stale(s[i].end, day) && has_growth(
            s,
            day,
            i,
        ) && growth_ends(s, day, i, ends);
    let target = (s[i].end - THREE_YEARS_DAYS) as i64;
    let m = choose|m: int| #[trigger]
        closest_year(s, concept, day, target, m) && ends.0 == s[m].value;
    let m2 = choose|m: int| #[trigger]
        closest_year(s, concept, day, target, m) && !s[m].value.le(Number { bits: 0 });
    assert(same_known(s, s, day));
    lemma_same_closest(s, s, concept, day, target, m, m2);
    if none_of(t, concept, day, Kind::Annual) {
        lemma_same_none(t, s, concept, day, Kind::Annual);
        assert(candidate(s, concept, day, Kind::Annual, i));
    }
    match b {
        Some(ends2) => {
            let j = choose|j: int| #[trigger]
                latest_of(t, concept, day, Kind::Annual, j) && !stale(t[j].end, day) && has_growth(
                    t,
                    day,
                    j,
                ) && growth_ends(t, day, j, ends2);
            lemma_same_latest(s, t, concept, day, Kind::Annual, i, j);
            let n = choose|n: int| #[trigger]
                closest_year(t, concept, day, target, n) && ends2.0 == t[n].value;
            lemma_same_closest(s, t, concept, day, target, m, n);
        },
        None => {
            let j = choose|j: int| #[trigger]
                latest_of(t, concept, day, Kind::Annual, j) && (stale(t[j].end, day)
                    || !has_growth(t, day, j));
            lemma_same_latest(s, t, concept, day, Kind::Annual, i, j);
            let kind = Kind::AnnualAround(target);
            let n = lemma_counterpart(s, t, concept, day, kind, m);
            assert forall|l: int| #[trigger] candidate(t, concept, day, kind, l) implies distance(
                t[n],
                target as int,
            ) < distance(t[l], target as int) || (distance(t[n], target as int) == distance(
                t[l],
                target as int,
            ) && starts_by(t[n], t[l])) by {
                let o = lemma_counterpart(t, s, concept, day, kind, l);
                assert(candidate(s, concept, day, kind, o));
            }
            assert(closest_year(t, concept, day, target, n));
            assert(has_growth(t, day, j));
        },
    }
}

/// A snapshot is made of what had been filed by its day: two lists of facts that agree on that give
/// the same figures, whatever was filed, restated or left out later. What is computed from the
/// figures and the price of the day is then the same too.
pub proof fn snapshots_depend_on_public_facts(
    s: Seq<PitFact>,
    t: Seq<PitFact>,
    day: int,
    a: SnapshotSources,
    b: SnapshotSources,
)
    requires
        public_by(views(s), day) == public_by(views(t), day),
        are_sources(views(s), day, a),
        are_sources(views(t), day, b),
    ensures
        a == b,
{
    let x = views(s);
    let y = views(t);
    assert forall|concept: Seq<char>, f: FactView| known_as(x, concept, day, f) == known_as(
        y,
        concept,
        day,
        f,
    ) by {
        lemma_public_part(x, concept, day, f);
        lemma_public_part(y, concept, day, f);
    }
    assert(same_known(x, y, day));
    lemma_swapped_known(x, y, day);
    assert forall|i: int| 0 <= i < x.len() implies start_key(#[trigger] x[i]) >= i32::MIN - 1 && (
    x[i].start is Some ==> start_key(x[i]) >= i32::MIN) by {
        assert(x[i] == s[i]@);
    }
    assert forall|i: int| 0 <= i < y.len() implies start_key(#[trigger] y[i]) >= i32::MIN - 1 && (
    y[i].start is Some ==> start_key(y[i]) >= i32::MIN) by {
        assert(y[i] == t[i]@);
    }
    lemma_same_ttm(x, y, "revenue"@, day, a.revenue, b.revenue);
    lemma_same_ttm(x, y, "net_income"@, day, a.net_income, b.net_income);
    lemma_same_ttm(x, y, "gross_profit"@, day, a.gross_profit, b.gross_profit);
    lemma_same_ttm(
        x,
        y,
        "operating_cash_flow"@,
        day,
        a.operating_cash_flow,
        b.operating_cash_flow,
    );
    lemma_same_instant(x, y, "assets"@, day, a.assets, b.assets);
    lemma_same_instant(x, y, "equity"@, day, a.equity, b.equity);
    lemma_same_instant(x, y, "shares_outstanding"@, day, a.shares, b.shares);
    lemma_same_instant(x, y, "long_term_debt"@, day, a.long_term_debt, b.long_term_debt);
    lemma_same_instant(x, y, "short_term_debt"@, day, a.short_term_debt, b.short_term_debt);
    if a.growth is Some {
        lemma_same_growth(x, y, day, a.growth, b.growth);
    } else if b.growth is Some {
        lemma_same_growth(y, x, day, b.growth, a.growth);
    }
}

// ── What the figures mean ────────────────────────────────────────────────────

/// A margin is the net income over the revenue: the quotient is known where the net income is and
/// the revenue is above zero, and neither gross profit nor anything else enters it.
pub proof fn net_margin_is_income_over_revenue(
    x: SnapshotInputs,
    y: SnapshotInputs,
    a: SnapshotRatios,
    b: SnapshotRatios,
)
    requires
        call_ensures(build_snapshot, (x,), Some(a)),
        call_ensures(build_snapshot, (y,), Some(b)),
    ensures
        a.net_margin matches Some((n, d)) ==> x.net_income == Some(n) && x.revenue == Some(d),
        x.net_income matches Some(n) ==> x.revenue matches Some(d) ==> 0 < d.bits
            <= 0x7FF0_0000_0000_0000 ==> a.net_margin == Some((n, d)),
        x.net_income is None ==> a.net_margin is None,
        x.net_income == y.net_income && x.revenue == y.revenue ==> a.net_margin == b.net_margin,
{
}

/// The gross margin is the gross profit over the revenue, whatever was earned in the end.
pub proof fn gross_margin_is_gross_profit_over_revenue(
    x: SnapshotInputs,
    y: SnapshotInputs,
    a: SnapshotRatios,
    b: SnapshotRatios,
)
    requires
        call_ensures(build_snapshot, (x,), Some(a)),
        call_ensures(build_snapshot, (y,), Some(b)),
    ensures
        a.gross_margin matches Some((n, d)) ==> x.gross_profit == Some(n) && x.revenue == Some(d),
        x.gross_profit matches Some(n) ==> x.revenue matches Some(d) ==> 0 < d.bits
            <= 0x7FF0_0000_0000_0000 ==> a.gross_margin == Some((n, d)),
        x.gross_profit is None ==> a.gross_margin is None,
        x.gross_profit == y.gross_profit && x.revenue == y.revenue ==> a.gross_margin
            == b.gross_margin,
{
}

/// The return on assets is the net income over the assets, and the leverage is the debt over the
/// equity; where what divides is not above zero the quotient is unknown.
pub proof fn returns_and_leverage_divide_by_the_balance_sheet(x: SnapshotInputs, r: SnapshotRatios)
    requires
        call_ensures(build_snapshot, (x,), Some(r)),
    ensures
        r.return_on_assets matches Some((n, d)) ==> x.net_income == Some(n) && x.assets == Some(d),
        x.net_income matches Some(n) ==> x.assets matches Some(d) ==> 0 < d.bits
            <= 0x7FF0_0000_0000_0000 ==> r.return_on_assets == Some((n, d)),
        r.debt_to_equity matches Some((n, d)) ==> x.debt == Some(n) && x.equity == Some(d),
        x.debt matches Some(n) ==> x.equity matches Some(d) ==> 0 < d.bits
            <= 0x7FF0_0000_0000_0000 ==> r.debt_to_equity == Some((n, d)),
        (x.assets matches Some(d) && !(0 < d.bits <= 0x7FF0_0000_0000_0000))
            ==> r.return_on_assets is None,
        (x.equity matches Some(d) && !(0 < d.bits <= 0x7FF0_0000_0000_0000))
            ==> r.debt_to_equity is None && r.price_to_book is None,
        (x.revenue matches Some(d) && !(0 < d.bits <= 0x7FF0_0000_0000_0000))
            ==> r.net_margin is None && r.gross_margin is None && r.revenue_ttm is None,
        r.revenue_ttm matches Some(d) ==> x.revenue == Some(d),
{
}

/// Price to book is the price times the shares over the equity, each of them above zero; no flow of
/// the year enters it.
pub proof fn price_to_book_is_market_over_equity(
    x: SnapshotInputs,
    y: SnapshotInputs,
    a: SnapshotRatios,
    b: SnapshotRatios,
)
    requires
        call_ensures(build_snapshot, (x,), Some(a)),
        call_ensures(build_snapshot, (y,), Some(b)),
    ensures
        a.price_to_book matches Some((p, n, e)) ==> x.price == Some(p) && x.shares == Some(n)
            && x.equity == Some(e) && 0 < p.bits <= 0x7FF0_0000_0000_0000 && 0 < n.bits
            <= 0x7FF0_0000_0000_0000 && 0 < e.bits <= 0x7FF0_0000_0000_0000,
        x.price matches Some(p) ==> x.shares matches Some(n) ==> x.equity matches Some(e) ==> 0
            < p.bits <= 0x7FF0_0000_0000_0000 && 0 < n.bits <= 0x7FF0_0000_0000_0000 && 0 < e.bits
            <= 0x7FF0_0000_0000_0000 ==> a.price_to_book == Some((p, n, e)),
        x.price == y.price && x.shares == y.shares && x.equity == y.equity ==> a.price_to_book
            == b.price_to_book,
{
}

/// There is a snapshot as soon as there is a revenue, a return on assets, a leverage or a price to
/// book, and none of gross profit alone.
pub proof fn a_snapshot_needs_a_figure(x: SnapshotInputs, r: Option<SnapshotRatios>)
    requires
        call_ensures(build_snapshot, (x,), r),
    ensures
        (x.revenue matches Some(v) && 0 < v.bits <= 0x7FF0_0000_0000_0000) ==> r is Some,
        x.net_income is Some && (x.assets matches Some(v) && 0 < v.bits <= 0x7FF0_0000_0000_0000)
            ==> r is Some,
        x.debt is Some && (x.equity matches Some(v) && 0 < v.bits <= 0x7FF0_0000_0000_0000) ==> r
            is Some,
        x.revenue is None && x.net_income is None && x.debt is None && x.price is None ==> r
            is None,
        x.revenue is None && x.assets is None && x.equity is None ==> r is None,
{
}

/// Of every period that was reported by a day something is known: the figure filed last.
proof fn lemma_something_is_known(s: Seq<FactView>, concept: Seq<char>, day: int, j: int, n: int) -> (i:
    int)
    requires
        0 <= j < n <= s.len(),
        relevant(s[j], concept, day),
    ensures
        0 <= i < n,
        relevant(s[i], concept, day),
        same_period(s[i], s[j]),
        forall|k: int|
            0 <= k < n && relevant(#[trigger] s[k], concept, day) && same_period(s[k], s[j])
                ==> s[k].filed < s[i].filed || (s[k].filed == s[i].filed && i <= k),
    decreases n,
{
    if n == 1 {
        j
    } else if j == n - 1 {
        if exists|k: int| 0 <= k < j && relevant(#[trigger] s[k], concept, day) && same_period(s[k], s[j]) {
            let k = choose|k: int|
                0 <= k < j && relevant(#[trigger] s[k], concept, day) && same_period(s[k], s[j]);
            let i = lemma_something_is_known(s, concept, day, k, n - 1);
            if s[i].filed < s[j].filed {
                j
            } else {
                i
            }
        } else {
            j
        }
    } else {
        let i = lemma_something_is_known(s, concept, day, j, n - 1);
        let last = n - 1;
        if relevant(s[last], concept, day) && same_period(s[last], s[j]) && s[i].filed
            < s[last].filed {
            last
        } else {
            i
        }
    }
}

/// A figure over a year that was public on a day: its period is about a year long.
pub open spec fn public_year(f: PitFact, concept: Seq<char>, day: int) -> bool {
    f.concept@ == concept && f.filed.days <= day && (f.start matches Some(b) && 350 <= f.end.days
        - b.days <= 380)
}

/// A balance-sheet figure that was public on a day.
pub open spec fn public_balance(f: PitFact, concept: Seq<char>, day: int) -> bool {
    f.concept@ == concept && f.filed.days <= day && f.start is None
}

/// Figures of the same period.
pub open spec fn of_one_period(f: PitFact, g: PitFact) -> bool {
    f.start == g.start && f.end == g.end
}

/// The figure at position `a` is that of the latest year public on a day, and no later filing by
/// then says otherwise.
pub open spec fn latest_year(s: Seq<PitFact>, concept: Seq<char>, day: int, a: int) -> bool {
    &&& 0 <= a < s.len()
    &&& public_year(s[a], concept, day)
    &&& forall|j: int|
        0 <= j < s.len() && public_year(#[trigger] s[j], concept, day) ==> s[j].end.days
            <= s[a].end.days && (of_one_period(s[j], s[a]) ==> s[j].filed.days <= s[a].filed.days)
}

proof fn lemma_latest_year(s: Seq<PitFact>, concept: Seq<char>, day: int, a: int)
    requires
        latest_of(views(s), concept, day, Kind::Annual, a),
    ensures
        latest_year(s, concept, day, a),
{
    let v = views(s);
    assert(v[a] == s[a]@);
    assert forall|j: int|
        0 <= j < s.len() && public_year(#[trigger] s[j], concept, day) implies s[j].end.days
        <= s[a].end.days && (of_one_period(s[j], s[a]) ==> s[j].filed.days <= s[a].filed.days) by {
        assert(v[j] == s[j]@);
        assert(relevant(v[j], concept, day));
        let i = lemma_something_is_known(v, concept, day, j, v.len() as int);
        assert(known(v, concept, day, i));
        assert(candidate(v, concept, day, Kind::Annual, i));
        assert(v[i] == s[i]@);
        if of_one_period(s[j], s[a]) {
            assert(same_period(v[j], v[a]));
        }
    }
}

/// A flow over twelve months starts from the latest year of its own concept that had been filed by
/// the day and had ended within 550 days of it, as last restated by then; there is none exactly
/// where no such year had been filed, or only older ones.
pub proof fn trailing_flows_start_from_the_latest_filed_year(
    facts: Vec<PitFact>,
    concept: &str,
    as_of: Date,
    r: Option<Ttm>,
)
    requires
        call_ensures(ttm, (&facts, concept, as_of), r),
    ensures
        r matches Some(t) ==> exists|a: int| #[trigger]
            latest_year(facts@, concept@, as_of.days as int, a) && as_of.days - facts@[a].end.days
                <= 550 && t.annual == facts@[a].value,
        r is None ==> forall|j: int|
            0 <= j < facts@.len() && public_year(#[trigger] facts@[j], concept@, as_of.days as int)
                ==> as_of.days - facts@[j].end.days > 550,
{
    let v = views(facts@);
    let day = as_of.days as int;
    if let Some(t) = r {
        let a = choose|a: int| #[trigger]
            latest_of(v, concept@, day, Kind::Annual, a) && !stale(v[a].end, day) && is_ttm(
                v,
                concept@,
                day,
                a,
                t,
            );
        lemma_latest_year(facts@, concept@, day, a);
        assert(v[a] == facts@[a]@);
    } else {
        assert forall|j: int|
            0 <= j < facts@.len() && public_year(#[trigger] facts@[j], concept@, day) implies day
            - facts@[j].end.days > 550 by {
            assert(v[j] == facts@[j]@);
            assert(relevant(v[j], concept@, day));
            let i = lemma_something_is_known(v, concept@, day, j, v.len() as int);
            assert(known(v, concept@, day, i));
            assert(candidate(v, concept@, day, Kind::Annual, i));
            let a = choose|a: int| #[trigger]
                latest_of(v, concept@, day, Kind::Annual, a) && stale(v[a].end, day);
            assert(ends_by(v[i], v[a]));
        }
    }
}

/// What is added to the year are the months since it, and what is taken off are the same months a
/// year earlier, both as filed by the day: the first period starts within a week after a year that
/// was public and ends later, and the second lies about a year before the first.
pub proof fn the_months_since_replace_those_a_year_before(
    facts: Vec<PitFact>,
    concept: &str,
    as_of: Date,
    r: Option<Ttm>,
)
    requires
        call_ensures(ttm, (&facts, concept, as_of), r),
    ensures
        r matches Some(t) ==> t.year_to_date matches Some((current, prior)) ==> exists|
            a: int,
            y: int,
            p: int,
        |
            #![trigger facts@[a], facts@[y], facts@[p]]
            0 <= a < facts@.len() && 0 <= y < facts@.len() && 0 <= p < facts@.len() && {
                let (f, g, h) = (facts@[a], facts@[y], facts@[p]);
                &&& f.concept@ == concept@ && g.concept@ == concept@ && h.concept@ == concept@
                &&& f.filed.days <= as_of.days && g.filed.days <= as_of.days && h.filed.days
                    <= as_of.days
                &&& t.annual == f.value && current == g.value && prior == h.value
                &&& g.start is Some && h.start is Some
                &&& 1 <= g.start->0.days - f.end.days <= 7
                &&& 80 <= g.end.days - g.start->0.days <= 290
                &&& 355 <= g.end.days - h.end.days <= 375
                &&& 355 <= g.start->0.days - h.start->0.days <= 375
            },
{
    let v = views(facts@);
    let day = as_of.days as int;
    if let Some(t) = r {
        if let Some((current, prior)) = t.year_to_date {
            let a = choose|a: int| #[trigger]
                latest_of(v, concept@, day, Kind::Annual, a) && !stale(v[a].end, day) && is_ttm(
                    v,
                    concept@,
                    day,
                    a,
                    t,
                );
            assert(v[a] == facts@[a]@);
            let since = Kind::YearToDate(Date { days: v[a].end as i32 });
            let y = choose|y: int| #[trigger]
                latest_of(v, concept@, day, since, y) && v[y].value == current
                    && value_a_year_before(v, concept@, day, y, prior);
            assert(v[y] == facts@[y]@);
            let p = choose|p: int| #[trigger]
                first_of(v, concept@, day, before_period(v, y), p) && v[p].value == prior;
            assert(v[p] == facts@[p]@);
            assert(0 <= a < facts@.len() && 0 <= y < facts@.len() && 0 <= p < facts@.len());
        }
    }
}

/// A balance-sheet figure is the latest of its concept that had been filed by the day, as last
/// restated by then, and its date lies within 550 days of the day; there is none exactly where no
/// such figure had been filed, or only older ones.
pub proof fn balances_are_the_latest_filed(
    facts: Vec<PitFact>,
    concept: &str,
    as_of: Date,
    r: Option<Number>,
)
    requires
        call_ensures(latest_instant, (&facts, concept, as_of), r),
    ensures
        r matches Some(x) ==> exists|a: int|
            0 <= a < facts@.len() && public_balance(
                #[trigger] facts@[a],
                concept@,
                as_of.days as int,
            ) && x == facts@[a].value && as_of.days - facts@[a].end.days <= 550 && forall|j: int|
                0 <= j < facts@.len() && public_balance(
                    #[trigger] facts@[j],
                    concept@,
                    as_of.days as int,
                ) ==> facts@[j].end.days < facts@[a].end.days || (facts@[j].end == facts@[a].end
                    && facts@[j].filed.days <= facts@[a].filed.days),
        r is None ==> forall|j: int|
            0 <= j < facts@.len() && public_balance(
                #[trigger] facts@[j],
                concept@,
                as_of.days as int,
            ) ==> as_of.days - facts@[j].end.days > 550,
{
    let v = views(facts@);
    let day = as_of.days as int;
    let kind = Kind::Instant;
    assert forall|j: int| 0 <= j < facts@.len() && public_balance(
        #[trigger] facts@[j],
        concept@,
        day,
    ) implies exists|i: int| #[trigger]
        candidate(v, concept@, day, kind, i) && same_period(v[i], facts@[j]@) && facts@[j].filed.days
            <= v[i].filed by {
        assert(v[j] == facts@[j]@);
        assert(relevant(v[j], concept@, day));
        let i = lemma_something_is_known(v, concept@, day, j, v.len() as int);
        assert(known(v, concept@, day, i));
        assert(candidate(v, concept@, day, kind, i));
    }
    if let Some(x) = r {
        let a = choose|a: int| #[trigger]
            latest_of(v, concept@, day, kind, a) && !stale(v[a].end, day) && x == v[a].value;
        assert(v[a] == facts@[a]@);
        assert forall|j: int| 0 <= j < facts@.len() && public_balance(
            #[trigger] facts@[j],
            concept@,
            day,
        ) implies facts@[j].end.days < facts@[a].end.days || (facts@[j].end == facts@[a].end
            && facts@[j].filed.days <= facts@[a].filed.days) by {
            let i = choose|i: int| #[trigger]
                candidate(v, concept@, day, kind, i) && same_period(v[i], facts@[j]@)
                    && facts@[j].filed.days <= v[i].filed;
            assert(ends_by(v[i], v[a]));
            if v[i].end == v[a].end {
                one_fact_is_known_of_a_period(v, concept@, day, i, a);
            }
        }
        assert(public_balance(facts@[a], concept@, day));
    } else {
        assert forall|j: int| 0 <= j < facts@.len() && public_balance(
            #[trigger] facts@[j],
            concept@,
            day,
        ) implies day - facts@[j].end.days > 550 by {
            let i = choose|i: int| #[trigger]
                candidate(v, concept@, day, kind, i) && same_period(v[i], facts@[j]@)
                    && facts@[j].filed.days <= v[i].filed;
            let a = choose|a: int| #[trigger]
                latest_of(v, concept@, day, kind, a) && stale(v[a].end, day);
            assert(ends_by(v[i], v[a]));
        }
    }
}

/// Growth runs from the revenue of a year that ended about three years before the latest one to the
/// revenue of the latest, both filed by the day and neither zero or less.
pub proof fn growth_spans_three_years(
    facts: Vec<PitFact>,
    as_of: Date,
    r: Option<(Number, Number)>,
)
    requires
        call_ensures(revenue_cagr_3yr, (&facts, as_of), r),
    ensures
        r matches Some((base, latest)) ==> exists|a: int, b: int|
            #![trigger facts@[a], facts@[b]]
            0 <= b < facts@.len() && latest_year(facts@, "revenue"@, as_of.days as int, a)
                && public_year(facts@[b], "revenue"@, as_of.days as int) && as_of.days
                - facts@[a].end.days <= 550 && 1065 <= facts@[a].end.days - facts@[b].end.days
                <= 1125 && base == facts@[b].value && latest == facts@[a].value && !base.le(
                Number { bits: 0 },
            ) && !latest.le(Number { bits: 0 }),
{
    let v = views(facts@);
    let day = as_of.days as int;
    if let Some(ends) = r {
        let a = choose|a: int| #[trigger]
            latest_of(v, "revenue"@, day, Kind::Annual, a) && !stale(v[a].end, day) && has_growth(
                v,
                day,
                a,
            ) && growth_ends(v, day, a, ends);
        assert(v[a] == facts@[a]@);
        let target = (v[a].end - THREE_YEARS_DAYS) as i64;
        let b = choose|b: int| #[trigger]
            closest_year(v, "revenue"@, day, target, b) && ends.0 == v[b].value;
        assert(v[b] == facts@[b]@);
        let c = choose|c: int| #[trigger]
            closest_year(v, "revenue"@, day, target, c) && !v[c].value.le(Number { bits: 0 });
        assert(v[c] == facts@[c]@);
        assert(candidate(v, "revenue"@, day, Kind::AnnualAround(target), b));
        assert(candidate(v, "revenue"@, day, Kind::AnnualAround(target), c));
        assert(same_period(v[b], v[c]));
        one_fact_is_known_of_a_period(v, "revenue"@, day, b, c);
        lemma_latest_year(facts@, "revenue"@, day, a);
        assert(facts@[a].value == ends.1 && facts@[b].value == ends.0);
    }
}

/// Every figure of a snapshot comes from a fact of the concept that it is named after, filed by the
/// day.
pub proof fn figures_come_from_their_own_concept(facts: Vec<PitFact>, as_of: Date, r: SnapshotSources)
    requires
        call_ensures(snapshot_sources, (&facts, as_of), r),
    ensures
        r.revenue matches Some(t) ==> comes_from(facts@, "revenue"@, as_of, t.annual),
        r.net_income matches Some(t) ==> comes_from(facts@, "net_income"@, as_of, t.annual),
        r.gross_profit matches Some(t) ==> comes_from(facts@, "gross_profit"@, as_of, t.annual),
        r.operating_cash_flow matches Some(t) ==> comes_from(
            facts@,
            "operating_cash_flow"@,
            as_of,
            t.annual,
        ),
        r.assets matches Some(x) ==> comes_from(facts@, "assets"@, as_of, x),
        r.equity matches Some(x) ==> comes_from(facts@, "equity"@, as_of, x),
        r.shares matches Some(x) ==> comes_from(facts@, "shares_outstanding"@, as_of, x),
        r.long_term_debt matches Some(x) ==> comes_from(facts@, "long_term_debt"@, as_of, x),
        r.short_term_debt matches Some(x) ==> comes_from(facts@, "short_term_debt"@, as_of, x),
        r.growth matches Some((a, b)) ==> comes_from(facts@, "revenue"@, as_of, a) && comes_from(
            facts@,
            "revenue"@,
            as_of,
            b,
        ),
{
    let v = views(facts@);
    assert forall|i: int| 0 <= i < facts@.len() implies #[trigger] v[i] == facts@[i]@ by {}
}

/// Whether a value is that of a fact of a concept filed by a day.
pub open spec fn comes_from(s: Seq<PitFact>, concept: Seq<char>, as_of: Date, x: Number) -> bool {
    exists|i: int|
        0 <= i < s.len() && (#[trigger] s[i]).concept@ == concept && s[i].filed.days <= as_of.days
            && s[i].value == x
}

/// The fact known of a period is the one filed last by the day, the first given where several were
/// filed on it: no fact of that concept and period was filed later and yet by that day.
pub proof fn the_last_filing_of_a_period_is_known(
    facts: Vec<PitFact>,
    concept: &str,
    as_of: Date,
    r: Vec<usize>,
    i: int,
    j: int,
)
    requires
        call_ensures(latest_known, (&facts, concept, as_of), r),
        0 <= i < r@.len(),
        0 <= j < facts@.len(),
    ensures
        r@[i] < facts@.len(),
        facts@[r@[i] as int].concept@ == concept@,
        facts@[r@[i] as int].filed.days <= as_of.days,
        facts@[j].concept@ == concept@ && facts@[j].filed.days <= as_of.days && facts@[j].end
            == facts@[r@[i] as int].end && facts@[j].start == facts@[r@[i] as int].start
            ==> facts@[j].filed.days <= facts@[r@[i] as int].filed.days,
{
    let s = views(facts@);
    let args = (&facts, concept, as_of);
    assert(known(views(args.0@), args.1@, args.2.days as int, r@[i] as int));
    assert(s[r@[i] as int] == facts@[r@[i] as int]@);
    assert(s[j] == facts@[j]@);
}

/// Every element of a filing is read under the concept of its tag: a fact of the result has the
/// value, the period and the filing day of such an element, and comes from an accepted form.
pub proof fn facts_are_read_from_their_tag(doc: Json, r: Vec<PitFact>, i: int) -> (at: (int, int))
    requires
        call_ensures(parse_companyfacts, (&doc,), r),
        0 <= i < r@.len(),
    ensures
        0 <= at.0 < mappings().len(),
        0 <= at.1 < elements(doc@, mappings()[at.0]).len(),
        r@[i].concept@ == mappings()[at.0].2,
        ({
            let e = elements(doc@, mappings()[at.0])[at.1];
            &&& e.member("val"@) matches Some(v) && v.number() == Some(r@[i].value)
            &&& day_of(e, "end"@) == Some(r@[i].end.days as int)
            &&& day_of(e, "filed"@) == Some(r@[i].filed.days as int)
            &&& r@[i].start matches Some(d) ==> day_of(e, "start"@) == Some(d.days as int)
            &&& r@[i].start is None ==> day_of(e, "start"@) is None
            &&& r@[i].form@ == e.text_of("form"@)
        }),
{
    let s = views(r@);
    let n = mappings().len() as int;
    assert(s == company_facts(doc@, n));
    assert(s[i] == r@[i]@);
    lemma_fact_has_an_element(doc@, n, i)
}

proof fn lemma_fact_has_an_element(doc: JsonView, n: int, i: int) -> (at: (int, int))
    requires
        0 <= n <= mappings().len(),
        0 <= i < company_facts(doc, n).len(),
    ensures
        0 <= at.0 < n,
        0 <= at.1 < elements(doc, mappings()[at.0]).len(),
        fact_of(elements(doc, mappings()[at.0])[at.1], mappings()[at.0].2) == Some(
            company_facts(doc, n)[i],
        ),
    decreases n,
{
    let rest = company_facts(doc, n - 1);
    let e = elements(doc, mappings()[n - 1]);
    let concept = mappings()[n - 1].2;
    lemma_added_all(rest, e, concept, i);
    if i < rest.len() {
        lemma_fact_has_an_element(doc, n - 1, i)
    } else {
        let k = choose|k: int|
            0 <= k < e.len() && fact_of(#[trigger] e[k], concept) == Some(
                added_all(rest, e, concept)[i],
            );
        (n - 1, k)
    }
}

proof fn lemma_added_all(s: Seq<FactView>, e: Seq<JsonView>, concept: Seq<char>, i: int)
    requires
        0 <= i < added_all(s, e, concept).len(),
    ensures
        s.len() <= added_all(s, e, concept).len(),
        i < s.len() ==> added_all(s, e, concept)[i] == s[i],
        i >= s.len() ==> exists|k: int|
            0 <= k < e.len() && fact_of(#[trigger] e[k], concept) == Some(
                added_all(s, e, concept)[i],
            ),
    decreases e.len(),
{
    if e.len() > 0 {
        let init = e.drop_last();
        let rest = added_all(s, init, concept);
        if i < rest.len() {
            lemma_added_all(s, init, concept, i);
            if i >= s.len() {
                let k = choose|k: int|
                    0 <= k < init.len() && fact_of(#[trigger] init[k], concept) == Some(rest[i]);
                assert(e[k] == init[k]);
            }
        } else {
            if rest.len() > 0 {
                lemma_added_all(s, init, concept, rest.len() - 1);
            } else {
                lemma_added_all_grows(s, init, concept);
            }
            assert(fact_of(e[e.len() - 1], concept) == Some(added_all(s, e, concept)[i]));
        }
    }
}

proof fn lemma_added_all_grows(s: Seq<FactView>, e: Seq<JsonView>, concept: Seq<char>)
    ensures
        s.len() <= added_all(s, e, concept).len(),
    decreases e.len(),
{
    if e.len() > 0 {
        lemma_added_all_grows(s, e.drop_last(), concept);
    }
}

/// Income, gross profit, operating cash flow and assets are each read from one tag, revenue from
/// five, equity and each kind of debt from two, all in dollars, and shares from one, in shares.
pub proof fn tags_are_read_as_their_concept(r: Vec<Mapping>, i: int)
    requires
        call_ensures(mapping, (), r),
        0 <= i < r@.len(),
    ensures
        r@.len() == 16,
        i < 5 ==> r@[i].concept@ == "revenue"@,
        i == 5 ==> r@[i].tag@ == "NetIncomeLoss"@ && r@[i].concept@ == "net_income"@,
        i == 6 ==> r@[i].tag@ == "GrossProfit"@ && r@[i].concept@ == "gross_profit"@,
        i == 7 ==> r@[i].tag@ == "NetCashProvidedByUsedInOperatingActivities"@ && r@[i].concept@
            == "operating_cash_flow"@,
        i == 8 ==> r@[i].tag@ == "Assets"@ && r@[i].concept@ == "assets"@,
        i == 9 ==> r@[i].tag@ == "StockholdersEquity"@ && r@[i].concept@ == "equity"@,
        i == 10 ==> r@[i].concept@ == "equity"@,
        i == 11 ==> r@[i].tag@ == "LongTermDebtNoncurrent"@ && r@[i].concept@ == "long_term_debt"@,
        i == 12 ==> r@[i].tag@ == "LongTermDebt"@ && r@[i].concept@ == "long_term_debt"@,
        i == 13 ==> r@[i].tag@ == "LongTermDebtCurrent"@ && r@[i].concept@ == "short_term_debt"@,
        i == 14 ==> r@[i].tag@ == "DebtCurrent"@ && r@[i].concept@ == "short_term_debt"@,
        i == 15 ==> r@[i].tag@ == "EntityCommonStockSharesOutstanding"@ && r@[i].concept@
            == "shares_outstanding"@ && r@[i].unit@ == "shares"@ && r@[i].taxonomy@ == "dei"@,
        i < 15 ==> r@[i].unit@ == "USD"@ && r@[i].taxonomy@ == "us-gaap"@,
{
    let seen = r@.map_values(|m: Mapping| mapping_view(m));
    assert(seen == mappings());
    assert(seen.len() == r@.len());
    assert(seen[i] == mapping_view(r@[i]));
    assert(mappings().len() == 16);
}

} // verus!
