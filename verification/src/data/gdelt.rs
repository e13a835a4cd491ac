//! News articles from GDELT.

use vstd::prelude::*;
use vstd::string::*;
use vstd::utf8::*;

use crate::calendar;
use crate::calendar::Date;
use crate::data::json;
use crate::data::json::{Json, JsonView};
use crate::data::types::NewsItem;
use crate::number::Number;
use crate::text;

verus! {

/// Why articles are not fetched: a list of articles carries no tone, and the service allows one
/// request every five seconds.
pub const NEWS_DISABLED_REASON: &'static str =
    "GDELT news sentiment is disabled: article-list mode has no tone and the API allows 1 request / 5 s";

/// Whether articles may be fetched: never, for the reason above.
pub const NEWS_FETCH_DISABLED: bool = true;

/// Hours for which articles are kept.
pub const NEWS_CACHE_HOURS: i64 = 6;

/// Most days that a request reaches back.
pub const MAX_TIMESPAN_DAYS: u32 = 90;

/// What a news item says.
pub struct NewsView {
    pub ticker: Seq<char>,
    pub day: int,
    pub tone: Number,
    pub headline: Seq<char>,
    pub source: Seq<char>,
}

impl View for NewsItem {
    type V = NewsView;

    open spec fn view(&self) -> NewsView {
        NewsView {
            ticker: self.ticker@,
            day: self.article_date.days as int,
            tone: self.tone,
            headline: self.headline@,
            source: self.source@,
        }
    }
}

/// Whether a date is written without hyphens, in eight bytes at least.
pub open spec fn compact(s: Seq<char>) -> bool {
    encode_utf8(s).len() >= 8 && !s.contains('-')
}

/// Whether a date can be cut where one without hyphens is: after eight bytes.
pub open spec fn can_cut(s: Seq<char>) -> bool {
    compact(s) ==> is_char_boundary(encode_utf8(s), 8)
}

/// The day of an article: what its first eight bytes say where there are so many and no hyphen, or
/// what stands before a `T`.
pub open spec fn article_day(s: Seq<char>) -> Option<int> {
    if compact(s) {
        calendar::parsed_day(decode_utf8(encode_utf8(s).subrange(0, 8)), "%Y%m%d"@)
    } else {
        calendar::parsed_day(s.take(text::next_char(s, 'T', 0)), "%Y-%m-%d"@)
    }
}

/// Whether a date is written without hyphens, in eight bytes at least.
fn is_compact(s: &str) -> (r: bool)
    ensures
        r == compact(s@),
{
    let v: Vec<char> = text::to_chars(s);
    let hyphen: usize = text::find_char(&v, '-', 0);
    proof {
        if hyphen < v@.len() {
            assert(v@[hyphen as int] == '-');
            assert(s@.contains('-'));
        } else {
            assert(!s@.contains('-'));
        }
    }
    s.as_bytes().len() >= 8 && hyphen == v.len()
}

/// The date of an article, written `20240115T120000Z` or `2024-01-15T12:00:00Z`.
pub fn parse_gdelt_date(s: &str) -> (r: Option<Date>)
    requires
        can_cut(s@),
    ensures
        match r {
            Some(d) => article_day(s@) == Some(d.days as int),
            None => article_day(s@) is None,
        },
{
    if is_compact(s) {
        let (day, _rest): (&str, &str) = s.split_at(8);
        proof {
            encode_utf8_decode_utf8(day@);
        }
        return Date::parse(day, "%Y%m%d");
    }
    let v: Vec<char> = text::to_chars(s);
    let t: usize = text::find_char(&v, 'T', 0);
    let day: String = text::from_chars(&v, 0, t);
    proof {
        assert(day@ =~= s@.take(t as int));
    }
    Date::parse(day.as_str(), "%Y-%m-%d")
}

/// The source of an article: its domain or, where it has none, its source.
pub open spec fn article_source(v: JsonView) -> Seq<char> {
    if v.member("domain"@) is Some {
        v.text_of("domain"@)
    } else {
        v.text_of("source"@)
    }
}

/// What an article says, where it has a tone: without one it carries no sentiment. An article
/// without a readable date counts as of `today`.
pub open spec fn article(v: JsonView, ticker: Seq<char>, today: int) -> Option<NewsView> {
    let tone = match v.member("tone"@) {
        Some(x) => x.number(),
        None => None,
    };
    match tone {
        Some(tone) => Some(
            NewsView {
                ticker,
                day: match article_day(v.text_of("seendate"@)) {
                    Some(d) => d,
                    None => today,
                },
                tone,
                headline: v.text_of("title"@),
                source: article_source(v),
            },
        ),
        None => None,
    }
}

/// What articles say.
pub open spec fn articles(s: Seq<JsonView>, ticker: Seq<char>, today: int) -> Seq<NewsView>
    decreases s.len(),
{
    if s.len() == 0 {
        seq![]
    } else {
        let rest = articles(s.drop_last(), ticker, today);
        match article(s.last(), ticker, today) {
            Some(a) => rest.push(a),
            None => rest,
        }
    }
}

/// The articles of a reply.
pub open spec fn reply_articles(v: JsonView, ticker: Seq<char>, today: int) -> Seq<NewsView> {
    match v.member("articles"@) {
        Some(x) => match x.list() {
            Some(s) => articles(s, ticker, today),
            None => seq![],
        },
        None => seq![],
    }
}

/// Whether the date of an article can be cut. One without a tone is not looked at.
pub open spec fn article_can_be_cut(v: JsonView) -> bool {
    (v.member("tone"@) matches Some(x) && x.number() is Some) ==> can_cut(v.text_of("seendate"@))
}

/// Whether the dates of articles can be cut.
pub open spec fn all_can_be_cut(s: Seq<JsonView>) -> bool {
    forall|i: int| 0 <= i < s.len() ==> article_can_be_cut(#[trigger] s[i])
}

/// Whether the dates of a reply can be cut.
pub open spec fn dates_can_be_cut(v: JsonView) -> bool {
    match v.member("articles"@) {
        Some(x) => match x.list() {
            Some(s) => all_can_be_cut(s),
            None => true,
        },
        None => true,
    }
}

/// The tone of an article.
fn tone_of(v: &Json) -> (r: Option<Number>)
    ensures
        r == match v@.member("tone"@) {
            Some(x) => x.number(),
            None => None,
        },
{
    match v.member("tone") {
        Some(x) => x.as_number(),
        None => None,
    }
}

/// Whether the dates of a reply can be cut.
fn are_dates_cuttable(reply: &Json) -> (r: bool)
    ensures
        r == dates_can_be_cut(reply@),
{
    let list: &Vec<Json> = match reply.member("articles") {
        Some(x) => match x.as_list() {
            Some(v) => v,
            None => {
                return true;
            },
        },
        None => {
            return true;
        },
    };
    let ghost all = json::views(list@);
    let mut i: usize = 0;
    while i < list.len()
        invariant
            i <= list@.len(),
            all == json::views(list@),
            dates_can_be_cut(reply@) == all_can_be_cut(all),
            forall|k: int| 0 <= k < i ==> article_can_be_cut(#[trigger] all[k]),
        decreases list@.len() - i,
    {
        proof {
            assert(all[i as int] == list@[i as int]@);
        }
        if tone_of(&list[i]).is_some() {
            let date: String = list[i].text_of("seendate");
            if is_compact(date.as_str()) && !date.as_str().is_char_boundary(8) {
                proof {
                    assert(!article_can_be_cut(all[i as int]));
                }
                return false;
            }
        }
        i = i + 1;
    }
    true
}

/// What an article says.
fn read_article(v: &Json, ticker: &str, today: Date) -> (r: Option<NewsItem>)
    requires
        article_can_be_cut(v@),
    ensures
        match r {
            Some(n) => article(v@, ticker@, today.days as int) == Some(n@),
            None => article(v@, ticker@, today.days as int) is None,
        },
{
    match tone_of(v) {
        Some(tone) => {
            let article_date: Date = match parse_gdelt_date(v.text_of("seendate").as_str()) {
                Some(d) => d,
                None => today,
            };
            let source: String = if v.member("domain").is_some() {
                v.text_of("domain")
            } else {
                v.text_of("source")
            };
            Some(
                NewsItem {
                    ticker: ticker.to_owned(),
                    article_date,
                    tone,
                    headline: v.text_of("title"),
                    source,
                },
            )
        },
        None => None,
    }
}

/// The articles of a reply.
pub fn news_of(reply: &Json, ticker: &str, today: Date) -> (r: Vec<NewsItem>)
    requires
        dates_can_be_cut(reply@),
    ensures
        r@.map_values(|n: NewsItem| n@) == reply_articles(reply@, ticker@, today.days as int),
{
    let ghost see = |n: NewsItem| n@;
    let mut out: Vec<NewsItem> = Vec::new();
    proof {
        assert(out@.map_values(see) =~= seq![]);
    }
    let list: &Vec<Json> = match reply.member("articles") {
        Some(x) => match x.as_list() {
            Some(v) => v,
            None => {
                return out;
            },
        },
        None => {
            return out;
        },
    };
    let ghost all = json::views(list@);
    let mut i: usize = 0;
    proof {
        assert(all.take(0) =~= seq![]);
    }
    while i < list.len()
        invariant
            i <= list@.len(),
            all == json::views(list@),
            see == (|n: NewsItem| n@),
            all_can_be_cut(all),
            out@.map_values(see) == articles(all.take(i as int), ticker@, today.days as int),
        decreases list@.len() - i,
    {
        let ghost before = out@;
        proof {
            assert(all.take(i + 1).drop_last() =~= all.take(i as int));
            assert(all.take(i + 1).last() == list@[i as int]@);
            assert(all[i as int] == list@[i as int]@);
        }
        match read_article(&list[i], ticker, today) {
            Some(n) => {
                out.push(n);
                proof {
                    assert(out@.map_values(see) =~= before.map_values(see).push(n@));
                }
            },
            None => {},
        }
        i = i + 1;
    }
    proof {
        assert(all.take(list@.len() as int) =~= all);
    }
    out
}

/// Why a reply is not read.
#[derive(Clone, Copy, Debug, PartialEq, Eq, Structural)]
pub enum ReplyError {
    /// It is no JSON.
    NotJson,
    /// A date without hyphens has a character across its eighth byte.
    SplitDate,
}

/// Whether a reply holds no document: it is blank or is markup.
pub open spec fn no_document(s: Seq<char>) -> bool {
    text::trimmed(s).len() == 0 || text::trimmed(s)[0] == '<'
}

/// The articles of a reply. A blank reply or one in markup has none. One with a date that cannot be
/// cut is refused.
pub fn parse_gdelt_response(ticker: &str, reply: &str, today: Date) -> (r: Result<
    Vec<NewsItem>,
    ReplyError,
>)
    ensures
        ({
            let doc = json::parsed_json(text::trimmed(reply@));
            match r {
                Ok(v) => if no_document(reply@) {
                    v@.len() == 0
                } else {
                    doc is Some && dates_can_be_cut(doc->0) && v@.map_values(|n: NewsItem| n@)
                        == reply_articles(doc->0, ticker@, today.days as int)
                },
                Err(ReplyError::NotJson) => !no_document(reply@) && doc is None,
                Err(ReplyError::SplitDate) => !no_document(reply@) && doc is Some
                    && !dates_can_be_cut(doc->0),
            }
        }),
{
    let cleaned: String = text::trim(reply);
    if cleaned.as_str().unicode_len() == 0 {
        return Ok(Vec::new());
    }
    if cleaned.as_str().get_char(0) == '<' {
        return Ok(Vec::new());
    }
    match json::parse(cleaned.as_str()) {
        Some(doc) => {
            if are_dates_cuttable(&doc) {
                Ok(news_of(&doc, ticker, today))
            } else {
                Err(ReplyError::SplitDate)
            }
        },
        None => Err(ReplyError::NotJson),
    }
}

// ── Requests ─────────────────────────────────────────────────────────────────

/// An upper-case hexadecimal digit.
pub open spec fn hex_digit(n: int) -> char {
    if n < 10 {
        (n + 48) as char
    } else {
        (n + 55) as char
    }
}

/// A number in upper-case hexadecimal digits, without leading zeros.
pub open spec fn hex(n: int) -> Seq<char>
    decreases n,
{
    if n < 16 {
        seq![hex_digit(n)]
    } else {
        hex(n / 16).push(hex_digit(n % 16))
    }
}

/// Whether a character stands for itself in a query.
pub open spec fn unreserved(c: char) -> bool {
    ('A' <= c <= 'Z') || ('a' <= c <= 'z') || ('0' <= c <= '9') || c == '-' || c == '_' || c == '.'
        || c == '~'
}

/// A character in a query: itself, a plus for a space, or a percent sign and at least two
/// hexadecimal digits.
pub open spec fn encoded_char(c: char) -> Seq<char> {
    if unreserved(c) {
        seq![c]
    } else if c == ' ' {
        seq!['+']
    } else if (c as u32) < 16 {
        seq!['%', '0'] + hex(c as u32 as int)
    } else {
        seq!['%'] + hex(c as u32 as int)
    }
}

/// A text in a query.
pub open spec fn encoded(s: Seq<char>) -> Seq<char>
    decreases s.len(),
{
    if s.len() == 0 {
        seq![]
    } else {
        encoded(s.drop_last()) + encoded_char(s.last())
    }
}

/// An upper-case hexadecimal digit.
fn hex_char(n: u32) -> (r: char)
    requires
        n < 16,
    ensures
        r == hex_digit(n as int),
{
    if n < 10 {
        (48u8 + n as u8) as char
    } else {
        (55u8 + n as u8) as char
    }
}

/// Adds a number in hexadecimal digits.
fn push_hex(out: &mut String, n: u32)
    ensures
        final(out)@ == old(out)@ + hex(n as int),
    decreases n,
{
    if n < 16 {
        out.push(hex_char(n));
        proof {
            assert(out@ =~= old(out)@ + hex(n as int));
        }
    } else {
        push_hex(out, n / 16);
        out.push(hex_char(n % 16));
        proof {
            assert(out@ =~= old(out)@ + hex(n as int));
        }
    }
}

/// A text as part of a query.
pub fn urlencoded(s: &str) -> (r: String)
    ensures
        r@ == encoded(s@),
{
    let v: Vec<char> = text::to_chars(s);
    let mut out: String = String::new();
    let mut i: usize = 0;
    proof {
        assert(v@.take(0) =~= seq![]);
        assert(out@ =~= encoded(v@.take(0)));
    }
    while i < v.len()
        invariant
            i <= v@.len(),
            out@ == encoded(v@.take(i as int)),
        decreases v@.len() - i,
    {
        let ghost before = out@;
        let c: char = v[i];
        proof {
            assert(v@.take(i + 1).drop_last() =~= v@.take(i as int));
            assert(v@.take(i + 1).last() == c);
        }
        if (c >= 'A' && c <= 'Z') || (c >= 'a' && c <= 'z') || (c >= '0' && c <= '9') || c == '-'
            || c == '_' || c == '.' || c == '~' {
            out.push(c);
        } else if c == ' ' {
            out.push('+');
        } else {
            out.push('%');
            let n: u32 = c as u32;
            if n < 16 {
                out.push('0');
                proof {
                    assert(out@ =~= before + seq!['%', '0']);
                }
            } else {
                proof {
                    assert(out@ =~= before + seq!['%']);
                }
            }
            push_hex(&mut out, n);
        }
        proof {
            assert(out@ =~= before + encoded_char(c));
        }
        i = i + 1;
    }
    proof {
        assert(v@.take(v@.len() as int) =~= v@);
    }
    out
}

/// The request for the articles on a ticker over the last `days` days, ninety at most.
pub fn request_url(ticker: &str, days: u32) -> (r: String)
    ensures
        r@ == "https://api.gdeltproject.org/api/v2/doc/doc?query="@ + encoded(
            "\""@ + ticker@ + "\" sourceCountry:US"@,
        ) + "&mode=ArtList&maxrecords=250&timespan="@ + text::decimal(
            (if days < MAX_TIMESPAN_DAYS {
                days
            } else {
                MAX_TIMESPAN_DAYS
            }) as nat,
        ) + "d&format=json"@,
{
    let mut query: String = "\"".to_owned();
    query.append(ticker);
    query.append("\" sourceCountry:US");
    let span: u32 = if days < MAX_TIMESPAN_DAYS {
        days
    } else {
        MAX_TIMESPAN_DAYS
    };
    let mut s: String = "https://api.gdeltproject.org/api/v2/doc/doc?query=".to_owned();
    s.append(urlencoded(query.as_str()).as_str());
    s.append("&mode=ArtList&maxrecords=250&timespan=");
    s.append(text::decimal_text(span as u64).as_str());
    s.append("d&format=json");
    s
}

// ── What articles and requests hold ──────────────────────────────────────────

proof fn lemma_articles(s: Seq<JsonView>, ticker: Seq<char>, today: int) -> (idx: Seq<int>)
    ensures
        idx.len() == articles(s, ticker, today).len(),
        forall|k: int|
            0 <= k < idx.len() ==> 0 <= (#[trigger] idx[k]) < s.len() && article(
                s[idx[k]],
                ticker,
                today,
            ) == Some(articles(s, ticker, today)[k]),
        forall|j: int, k: int| 0 <= j < k < idx.len() ==> (#[trigger] idx[j]) < (#[trigger] idx[k]),
        forall|i: int|
            0 <= i < s.len() && article(#[trigger] s[i], ticker, today) is Some ==> exists|k: int|
                0 <= k < idx.len() && #[trigger] idx[k] == i,
    decreases s.len(),
{
    if s.len() == 0 {
        seq![]
    } else {
        let init = s.drop_last();
        let before = lemma_articles(init, ticker, today);
        assert forall|k: int| 0 <= k < before.len() implies s[#[trigger] before[k]]
            == init[before[k]] by {}
        if article(s.last(), ticker, today) is Some {
            let idx = before.push(s.len() - 1);
            assert forall|i: int|
                0 <= i < s.len() && article(#[trigger] s[i], ticker, today) is Some implies exists|
                k: int,
            |
                0 <= k < idx.len() && #[trigger] idx[k] == i by {
                if i == s.len() - 1 {
                    assert(idx[before.len() as int] == i);
                } else {
                    assert(init[i] == s[i]);
                    let k = choose|k: int| 0 <= k < before.len() && #[trigger] before[k] == i;
                    assert(idx[k] == i);
                }
            }
            idx
        } else {
            assert forall|i: int|
                0 <= i < s.len() && article(#[trigger] s[i], ticker, today) is Some implies exists|
                k: int,
            |
                0 <= k < before.len() && #[trigger] before[k] == i by {
                assert(init[i] == s[i]);
            }
            before
        }
    }
}

/// Each news item is an article with a tone, and gives that tone, the article's title as headline
/// and its domain as source. Articles keep their order, and only those without a tone are left out.
pub proof fn items_say_what_their_article_says(
    reply: Json,
    ticker: &str,
    today: Date,
    list: JsonView,
    s: Seq<JsonView>,
    r: Vec<NewsItem>,
) -> (idx: Seq<int>)
    requires
        dates_can_be_cut(reply@),
        call_ensures(news_of, (&reply, ticker, today), r),
        reply@.member("articles"@) == Some(list),
        list.list() == Some(s),
    ensures
        idx.len() == r@.len(),
        forall|k: int|
            0 <= k < idx.len() ==> {
                let a = s[#[trigger] idx[k]];
                &&& 0 <= idx[k] < s.len()
                &&& r@[k].ticker@ == ticker@
                &&& a.member("tone"@) matches Some(t) && t.number() == Some(r@[k].tone)
                &&& r@[k].headline@ == a.text_of("title"@)
                &&& a.member("domain"@) is Some ==> r@[k].source@ == a.text_of("domain"@)
                &&& a.member("domain"@) is None ==> r@[k].source@ == a.text_of("source"@)
            },
        forall|j: int, k: int| 0 <= j < k < idx.len() ==> (#[trigger] idx[j]) < (#[trigger] idx[k]),
        forall|i: int|
            0 <= i < s.len() && ((#[trigger] s[i]).member("tone"@) matches Some(t) && t.number()
                is Some) ==> exists|k: int| 0 <= k < idx.len() && #[trigger] idx[k] == i,
{
    let day = today.days as int;
    let idx = lemma_articles(s, ticker@, day);
    let seen = r@.map_values(|n: NewsItem| n@);
    assert(seen == articles(s, ticker@, day));
    assert(seen.len() == r@.len());
    assert forall|k: int| 0 <= k < idx.len() implies {
        let a = s[#[trigger] idx[k]];
        &&& 0 <= idx[k] < s.len()
        &&& r@[k].ticker@ == ticker@
        &&& a.member("tone"@) matches Some(t) && t.number() == Some(r@[k].tone)
        &&& r@[k].headline@ == a.text_of("title"@)
        &&& a.member("domain"@) is Some ==> r@[k].source@ == a.text_of("domain"@)
        &&& a.member("domain"@) is None ==> r@[k].source@ == a.text_of("source"@)
    } by {
        assert(seen[k] == r@[k]@);
        assert(article(s[idx[k]], ticker@, day) == Some(seen[k]));
    }
    idx
}

/// An item is dated as its article says it was seen, or today where that cannot be read.
pub proof fn items_are_dated_as_seen(
    reply: Json,
    ticker: &str,
    today: Date,
    list: JsonView,
    a: JsonView,
    seen: &str,
    parsed: Option<Date>,
    r: Vec<NewsItem>,
)
    requires
        dates_can_be_cut(reply@),
        call_ensures(news_of, (&reply, ticker, today), r),
        reply@.member("articles"@) == Some(list),
        list.list() == Some(seq![a]),
        a.member("tone"@) matches Some(t) && t.number() is Some,
        seen@ == a.text_of("seendate"@),
        call_ensures(parse_gdelt_date, (seen,), parsed),
    ensures
        r@.len() == 1,
        parsed matches Some(d) ==> r@[0].article_date == d,
        parsed is None ==> r@[0].article_date == today,
{
    reveal_with_fuel(articles, 3);
    let views = r@.map_values(|n: NewsItem| n@);
    let day = today.days as int;
    assert(seq![a].drop_last() =~= seq![]);
    assert(views == articles(seq![a], ticker@, day));
    assert(views.len() == r@.len());
    assert(views[0] == r@[0]@);
}

/// A date without hyphens is read from its first eight bytes and one with hyphens from what stands
/// before its `T`, so what follows does not matter.
pub proof fn the_time_of_day_does_not_matter(
    a: &str,
    b: &str,
    day: Seq<char>,
    x: Option<Date>,
    y: Option<Date>,
)
    requires
        call_ensures(parse_gdelt_date, (a,), x),
        call_ensures(parse_gdelt_date, (b,), y),
        day.contains('-'),
        !day.contains('T'),
        day.push('T').is_prefix_of(a@),
        b@ == day,
    ensures
        x == y,
        x matches Some(d) ==> calendar::parsed_day(day, "%Y-%m-%d"@) == Some(d.days as int),
{
    let n = day.len() as int;
    let k = choose|k: int| 0 <= k < day.len() && day[k] == '-';
    assert(a@.take(n + 1) == day.push('T'));
    assert forall|i: int| 0 <= i < n implies a@[i] == day[i] by {
        assert(a@.take(n + 1)[i] == day.push('T')[i]);
    }
    assert(a@[n] == 'T') by {
        assert(a@.take(n + 1)[n] == day.push('T')[n]);
    }
    assert(a@[k] == '-');
    text::lemma_next_char(a@, 'T', 0);
    text::lemma_next_char(b@, 'T', 0);
    assert forall|i: int| 0 <= i < n implies day[i] != 'T' by {
        assert(day.contains(day[i]));
    }
    let m = text::next_char(a@, 'T', 0);
    if m < n {
        assert(a@[m] == day[m]);
    } else if n < m {
        assert(a@[n] == 'T');
    }
    assert(m == n);
    assert(text::next_char(b@, 'T', 0) == n);
    assert(a@.take(n) =~= day);
    assert(b@.take(n) =~= day);
}

proof fn lemma_encoded_concat(a: Seq<char>, b: Seq<char>)
    ensures
        encoded(a + b) == encoded(a) + encoded(b),
    decreases b.len(),
{
    if b.len() > 0 {
        lemma_encoded_concat(a, b.drop_last());
        assert((a + b).drop_last() =~= a + b.drop_last());
        assert((a + b).last() == b.last());
        assert(encoded(a) + encoded(b.drop_last()) + encoded_char(b.last()) =~= encoded(a) + (
        encoded(b.drop_last()) + encoded_char(b.last())));
    } else {
        assert(a + b =~= a);
        assert(encoded(a) + encoded(b) =~= encoded(a));
    }
}

/// A text is encoded character by character.
pub proof fn texts_are_encoded_piece_by_piece(
    a: &str,
    b: &str,
    both: &str,
    x: String,
    y: String,
    z: String,
)
    requires
        call_ensures(urlencoded, (a,), x),
        call_ensures(urlencoded, (b,), y),
        call_ensures(urlencoded, (both,), z),
        both@ == a@ + b@,
    ensures
        z@ == x@ + y@,
{
    lemma_encoded_concat(a@, b@);
}

/// The value of an upper-case hexadecimal digit.
pub open spec fn hex_value(c: char) -> int {
    if '0' <= c <= '9' {
        c as int - '0' as int
    } else {
        c as int - 'A' as int + 10
    }
}

/// Letters, digits and `-_.~` stand for themselves and a space becomes a plus; any other character
/// of one byte becomes a percent sign and the two hexadecimal digits of its number.
pub proof fn single_characters_are_encoded(s: &str, c: char, r: String)
    requires
        call_ensures(urlencoded, (s,), r),
        s@ == seq![c],
    ensures
        ('A' <= c <= 'Z' || 'a' <= c <= 'z' || '0' <= c <= '9' || c == '-' || c == '_' || c == '.'
            || c == '~') ==> r@ == seq![c],
        c == ' ' ==> r@ == seq!['+'],
        !('A' <= c <= 'Z' || 'a' <= c <= 'z' || '0' <= c <= '9' || c == '-' || c == '_' || c == '.'
            || c == '~') && c != ' ' && (c as int) < 128 ==> r@.len() == 3 && r@[0] == '%'
            && hex_value(r@[1]) * 16 + hex_value(r@[2]) == c as int,
{
    reveal_with_fuel(encoded, 2);
    reveal_with_fuel(hex, 3);
    assert(s@.drop_last() =~= seq![]);
    assert(r@ =~= encoded_char(c));
}

/// A request reaches back as many days as asked for, ninety at most.
pub proof fn requests_reach_back_ninety_days_at_most(ticker: &str, days: u32, r: String)
    requires
        call_ensures(request_url, (ticker, days), r),
    ensures
        days <= 90 ==> ("&mode=ArtList&maxrecords=250&timespan="@ + text::decimal(days as nat)
            + "d&format=json"@).is_suffix_of(r@),
        days > 90 ==> ("&mode=ArtList&maxrecords=250&timespan="@ + text::decimal(90)
            + "d&format=json"@).is_suffix_of(r@),
{
    let n = if days < 90 {
        days as nat
    } else {
        90
    };
    let front = "https://api.gdeltproject.org/api/v2/doc/doc?query="@ + encoded(
        "\""@ + ticker@ + "\" sourceCountry:US"@,
    );
    let back = "&mode=ArtList&maxrecords=250&timespan="@ + text::decimal(n) + "d&format=json"@;
    assert(r@ =~= front + back);
    assert(r@.skip(r@.len() - back.len()) =~= back);
}

} // verus!
