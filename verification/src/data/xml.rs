//! Reading of the predictable XML of insider filings, by searching for tags.

use vstd::prelude::*;
use vstd::string::*;

use crate::text;

verus! {

/// A tag that opens an element without attributes.
pub open spec fn opening(tag: Seq<char>) -> Seq<char> {
    "<"@ + tag + ">"@
}

/// The start of a tag that opens an element with attributes.
pub open spec fn opening_with_attributes(tag: Seq<char>) -> Seq<char> {
    "<"@ + tag + " "@
}

/// A tag that closes an element.
pub open spec fn closing(tag: Seq<char>) -> Seq<char> {
    "</"@ + tag + ">"@
}

/// The text of the first element with a tag and no attributes, without white space round it.
pub open spec fn value(s: Seq<char>, tag: Seq<char>) -> Option<Seq<char>> {
    match text::find_from(s, opening(tag), 0) {
        None => None,
        Some(p) => {
            let from = p + opening(tag).len();
            match text::find_from(s, closing(tag), from) {
                None => None,
                Some(to) => Some(text::trimmed(s.subrange(from, to))),
            }
        },
    }
}

/// Where the contents of the element whose tag starts at `start` begin and end: after the tag's
/// `>` and at the next closing tag.
pub open spec fn contents_at(s: Seq<char>, tag: Seq<char>, start: int) -> Option<(int, int)> {
    let gt = text::next_char(s, '>', start);
    if gt >= s.len() {
        None
    } else {
        match text::find_from(s, closing(tag), gt + 1) {
            None => None,
            Some(to) => Some((gt + 1, to)),
        }
    }
}

/// The contents of the first element with a tag: of the first without attributes or, where there
/// is none, of the first with.
pub open spec fn section(s: Seq<char>, tag: Seq<char>) -> Option<Seq<char>> {
    let start = match text::find_from(s, opening(tag), 0) {
        Some(p) => Some(p),
        None => text::find_from(s, opening_with_attributes(tag), 0),
    };
    match start {
        None => None,
        Some(p) => match contents_at(s, tag, p) {
            None => None,
            Some((from, to)) => Some(s.subrange(from, to)),
        },
    }
}

/// The text of an element within another.
pub open spec fn nested_value(s: Seq<char>, outer: Seq<char>, inner: Seq<char>) -> Option<
    Seq<char>,
> {
    match section(s, outer) {
        None => None,
        Some(t) => value(t, inner),
    }
}

/// Where the next element with a tag starts, with attributes or without.
pub open spec fn next_start(s: Seq<char>, tag: Seq<char>, pos: int) -> Option<int> {
    match (
        text::find_from(s, opening(tag), pos),
        text::find_from(s, opening_with_attributes(tag), pos),
    ) {
        (Some(x), Some(y)) => if x <= y {
            Some(x)
        } else {
            Some(y)
        },
        (Some(x), None) => Some(x),
        (None, Some(y)) => Some(y),
        (None, None) => None,
    }
}

/// The contents of all elements with a tag from a position on, one after the other.
pub open spec fn sections_from(s: Seq<char>, tag: Seq<char>, pos: int) -> Seq<Seq<char>>
    decreases s.len() - pos,
{
    if pos < 0 || pos > s.len() {
        seq![]
    } else {
        match next_start(s, tag, pos) {
            None => seq![],
            Some(p) => match contents_at(s, tag, p) {
                None => seq![],
                Some((from, to)) => {
                    let next = to + closing(tag).len();
                    if next <= pos || next > s.len() {
                        seq![]
                    } else {
                        seq![s.subrange(from, to)] + sections_from(s, tag, next)
                    }
                },
            },
        }
    }
}

/// The characters of a tag with what stands before and after it.
fn tag_chars(before: &str, tag: &str, after: &str) -> (r: Vec<char>)
    ensures
        r@ == before@ + tag@ + after@,
{
    let mut s: String = before.to_owned();
    s.append(tag);
    s.append(after);
    text::to_chars(s.as_str())
}

/// The text of the first element with a tag and no attributes.
pub fn xml_val(xml: &str, tag: &str) -> (r: Option<String>)
    ensures
        match r {
            Some(t) => value(xml@, tag@) == Some(t@),
            None => value(xml@, tag@) is None,
        },
{
    let v: Vec<char> = text::to_chars(xml);
    let open: Vec<char> = tag_chars("<", tag, ">");
    let close: Vec<char> = tag_chars("</", tag, ">");
    match text::find(&v, &open, 0) {
        None => None,
        Some(p) => {
            let from: usize = p + open.len();
            match text::find(&v, &close, from) {
                None => None,
                Some(to) => {
                    let inner: String = text::from_chars(&v, from, to);
                    Some(text::trim(inner.as_str()))
                },
            }
        },
    }
}

/// Where the contents of the element whose tag starts at `start` begin and end.
fn contents(v: &Vec<char>, close: &Vec<char>, start: usize) -> (r: Option<(usize, usize)>)
    requires
        start <= v@.len(),
    ensures
        forall|tag: Seq<char>|
            close@ == #[trigger] closing(tag) ==> match r {
                Some(b) => contents_at(v@, tag, start as int) == Some((b.0 as int, b.1 as int)),
                None => contents_at(v@, tag, start as int) is None,
            },
        r matches Some(b) ==> start < b.0 <= b.1 && b.1 + close@.len() <= v@.len(),
{
    let gt: usize = text::find_char(v, '>', start);
    if gt >= v.len() {
        return None;
    }
    match text::find(v, close, gt + 1) {
        Some(to) => Some((gt + 1, to)),
        None => None,
    }
}

/// The contents of the first element with a tag, with attributes or without.
pub fn xml_section(xml: &str, tag: &str) -> (r: Option<String>)
    ensures
        match r {
            Some(t) => section(xml@, tag@) == Some(t@),
            None => section(xml@, tag@) is None,
        },
{
    let v: Vec<char> = text::to_chars(xml);
    let bare: Vec<char> = tag_chars("<", tag, ">");
    let attr: Vec<char> = tag_chars("<", tag, " ");
    let close: Vec<char> = tag_chars("</", tag, ">");
    proof {
        assert(close@ == closing(tag@));
    }
    let start: Option<usize> = match text::find(&v, &bare, 0) {
        Some(p) => Some(p),
        None => text::find(&v, &attr, 0),
    };
    match start {
        None => None,
        Some(p) => match contents(&v, &close, p) {
            None => None,
            Some((from, to)) => Some(text::from_chars(&v, from, to)),
        },
    }
}

/// The text of an element within another.
pub fn xml_nested_val(xml: &str, outer: &str, inner: &str) -> (r: Option<String>)
    ensures
        match r {
            Some(t) => nested_value(xml@, outer@, inner@) == Some(t@),
            None => nested_value(xml@, outer@, inner@) is None,
        },
{
    match xml_section(xml, outer) {
        None => None,
        Some(t) => xml_val(t.as_str(), inner),
    }
}

/// The contents of all elements with a tag.
pub fn xml_all_sections(xml: &str, tag: &str) -> (r: Vec<String>)
    ensures
        text::texts(r@) == sections_from(xml@, tag@, 0),
{
    let v: Vec<char> = text::to_chars(xml);
    let bare: Vec<char> = tag_chars("<", tag, ">");
    let attr: Vec<char> = tag_chars("<", tag, " ");
    let close: Vec<char> = tag_chars("</", tag, ">");
    proof {
        assert(close@ == closing(tag@));
    }
    let mut out: Vec<String> = Vec::new();
    let mut pos: usize = 0;
    let mut done: bool = false;
    proof {
        assert(text::texts(out@) + sections_from(xml@, tag@, 0) =~= sections_from(xml@, tag@, 0));
    }
    while !done
        invariant
            v@ == xml@,
            bare@ == opening(tag@),
            attr@ == opening_with_attributes(tag@),
            close@ == closing(tag@),
            pos <= v@.len(),
            sections_from(xml@, tag@, 0) == text::texts(out@) + (if done {
                seq![]
            } else {
                sections_from(xml@, tag@, pos as int)
            }),
        decreases (if done {
            0int
        } else {
            v@.len() + 1 - pos
        }),
    {
        let ghost before = text::texts(out@);
        let a: Option<usize> = text::find(&v, &bare, pos);
        let b: Option<usize> = text::find(&v, &attr, pos);
        let start: Option<usize> = match (a, b) {
            (Some(x), Some(y)) => if x <= y {
                Some(x)
            } else {
                Some(y)
            },
            (Some(x), None) => Some(x),
            (None, Some(y)) => Some(y),
            (None, None) => None,
        };
        let found: Option<(usize, usize)> = match start {
            None => None,
            Some(p) => contents(&v, &close, p),
        };
        match found {
            None => {
                proof {
                    assert(sections_from(xml@, tag@, pos as int) =~= seq![]);
                }
                done = true;
            },
            Some((from, to)) => {
                out.push(text::from_chars(&v, from, to));
                proof {
                    let next = to + closing(tag@).len();
                    assert(text::texts(out@) =~= before.push(xml@.subrange(from as int, to as int)));
                    assert(before + (seq![xml@.subrange(from as int, to as int)] + sections_from(
                        xml@,
                        tag@,
                        next,
                    )) =~= text::texts(out@) + sections_from(xml@, tag@, next));
                }
                pos = to + close.len();
            },
        }
    }
    proof {
        assert(text::texts(out@) + seq![] =~= text::texts(out@));
    }
    out
}

// ── What was written is read ─────────────────────────────────────────────────

proof fn lemma_find_is(s: Seq<char>, t: Seq<char>, from: int, at: int)
    requires
        0 <= from <= at,
        text::matches_at(s, t, at),
        forall|p: int| from <= p < at ==> !text::matches_at(s, t, p),
    ensures
        text::find_from(s, t, from) == Some(at),
{
    text::lemma_find_from(s, t, from);
    if let Some(i) = text::find_from(s, t, from) {
        assert(i == at);
    }
}

/// What stands between the first opening tag and the next closing tag of its name is the text that
/// is read, without the white space round it.
pub proof fn the_text_between_the_tags_is_read(
    xml: &str,
    tag: &str,
    r: Option<String>,
    before: Seq<char>,
    inner: Seq<char>,
    after: Seq<char>,
)
    requires
        call_ensures(xml_val, (xml, tag), r),
        xml@ == before + ("<"@ + tag@ + ">"@) + inner + ("</"@ + tag@ + ">"@) + after,
        forall|p: int| 0 <= p < before.len() ==> !text::matches_at(xml@, "<"@ + tag@ + ">"@, p),
        forall|p: int|
            #![trigger inner[p]]
            0 <= p < inner.len() ==> !text::matches_at(
                xml@,
                "</"@ + tag@ + ">"@,
                before.len() + ("<"@ + tag@ + ">"@).len() + p,
            ),
    ensures
        r matches Some(t) && t@ == text::trimmed(inner),
{
    let open = "<"@ + tag@ + ">"@;
    let close = "</"@ + tag@ + ">"@;
    let s = xml@;
    let start = before.len() as int;
    let from = start + open.len();
    let to = from + inner.len();
    assert(s.subrange(start, from) =~= open);
    assert(s.subrange(to, to + close.len()) =~= close);
    assert(s.subrange(from, to) =~= inner);
    lemma_find_is(s, open, 0, start);
    assert forall|p: int| from <= p < to implies !text::matches_at(s, close, p) by {
        let q = p - from;
        assert(inner[q] == s[p]);
        assert(before.len() + open.len() + q == p);
        assert(!text::matches_at(s, close, before.len() + open.len() + q));
    }
    lemma_find_is(s, close, from, to);
}

/// A text in which the opening tag does not occur, or in which no closing tag follows the first
/// one, holds no such element.
pub proof fn nothing_is_read_without_both_tags(xml: &str, tag: &str, r: Option<String>)
    requires
        call_ensures(xml_val, (xml, tag), r),
        !text::occurs(xml@, "<"@ + tag@ + ">"@) || !text::occurs(xml@, "</"@ + tag@ + ">"@),
    ensures
        r is None,
{
    let open = "<"@ + tag@ + ">"@;
    let close = "</"@ + tag@ + ">"@;
    text::lemma_find_from(xml@, open, 0);
    if let Some(p) = text::find_from(xml@, open, 0) {
        text::lemma_find_from(xml@, close, p + open.len());
    }
}

/// The contents of an element run from the end of its opening tag, which may hold attributes, to
/// the next closing tag; white space is kept.
pub proof fn the_contents_of_an_element_are_read(
    xml: &str,
    tag: &str,
    r: Option<String>,
    before: Seq<char>,
    attributes: Seq<char>,
    inner: Seq<char>,
    after: Seq<char>,
)
    requires
        call_ensures(xml_section, (xml, tag), r),
        xml@ == before + ("<"@ + tag@ + " "@) + attributes + ">"@ + inner + ("</"@ + tag@ + ">"@)
            + after,
        !text::occurs(xml@, "<"@ + tag@ + ">"@),
        !tag@.contains('>'),
        !attributes.contains('>'),
        forall|p: int| 0 <= p < before.len() ==> !text::matches_at(xml@, "<"@ + tag@ + " "@, p),
        forall|p: int|
            #![trigger inner[p]]
            0 <= p < inner.len() ==> !text::matches_at(
                xml@,
                "</"@ + tag@ + ">"@,
                before.len() + ("<"@ + tag@ + " "@).len() + attributes.len() + 1 + p,
            ),
    ensures
        r matches Some(t) && t@ == inner,
{
    reveal_strlit("<");
    reveal_strlit(">");
    reveal_strlit(" ");
    let open = "<"@ + tag@ + " "@;
    let plain = "<"@ + tag@ + ">"@;
    let close = "</"@ + tag@ + ">"@;
    let s = xml@;
    let start = before.len() as int;
    let gt = start + open.len() + attributes.len();
    let from = gt + 1;
    let to = from + inner.len();
    assert(s.subrange(start, start + open.len()) =~= open);
    assert(s.subrange(to, to + close.len()) =~= close);
    assert(s.subrange(from, to) =~= inner);
    text::lemma_find_from(s, plain, 0);
    lemma_find_is(s, open, 0, start);
    assert(s[gt] == '>');
    assert forall|q: int| start <= q < gt implies s[q] != '>' by {
        if q < start + open.len() {
            assert(s[q] == open[q - start]);
            if 1 <= q - start <= tag@.len() {
                assert(open[q - start] == tag@[q - start - 1]);
            }
        } else {
            assert(s[q] == attributes[q - start - open.len()]);
        }
    }
    text::lemma_next_char(s, '>', start);
    assert(text::next_char(s, '>', start) == gt);
    assert forall|p: int| from <= p < to implies !text::matches_at(s, close, p) by {
        let q = p - from;
        assert(inner[q] == s[p]);
        assert(before.len() + open.len() + attributes.len() + 1 + q == p);
        assert(!text::matches_at(
            s,
            close,
            before.len() + open.len() + attributes.len() + 1 + q,
        ));
    }
    lemma_find_is(s, close, from, to);
}

/// A value within an element is the value within the contents of that element.
pub proof fn nested_values_are_read_in_two_steps(
    xml: &str,
    outer: &str,
    inner: &str,
    r: Option<String>,
    section: Option<String>,
    contents: &str,
    nested: Option<String>,
)
    requires
        call_ensures(xml_nested_val, (xml, outer, inner), r),
        call_ensures(xml_section, (xml, outer), section),
        section matches Some(t) ==> contents@ == t@,
        call_ensures(xml_val, (contents, inner), nested),
    ensures
        section is None ==> r is None,
        section is Some ==> (r is Some <==> nested is Some),
        section is Some && r is Some ==> r->0@ == nested->0@,
{
}

proof fn lemma_find_shift(x: Seq<char>, t: Seq<char>, pat: Seq<char>, k: int)
    requires
        0 <= k,
    ensures
        text::find_from(x + t, pat, x.len() + k) == (match text::find_from(t, pat, k) {
            Some(p) => Some(x.len() + p),
            None => None,
        }),
    decreases t.len() + 1 - k,
{
    if k + pat.len() <= t.len() {
        assert((x + t).subrange(x.len() + k, x.len() + k + pat.len()) =~= t.subrange(
            k,
            k + pat.len(),
        ));
        if !text::matches_at(t, pat, k) {
            lemma_find_shift(x, t, pat, k + 1);
        }
    }
}

proof fn lemma_next_char_shift(x: Seq<char>, t: Seq<char>, c: char, k: int)
    requires
        0 <= k,
    ensures
        text::next_char(x + t, c, x.len() + k) == x.len() + text::next_char(t, c, k) || (
        text::next_char(t, c, k) >= t.len() && text::next_char(x + t, c, x.len() + k) >= (x
            + t).len()),
    decreases t.len() - k,
{
    if k < t.len() && t[k] != c {
        lemma_next_char_shift(x, t, c, k + 1);
    }
}

proof fn lemma_sections_shift(x: Seq<char>, t: Seq<char>, tag: Seq<char>, k: int)
    requires
        0 <= k,
    ensures
        sections_from(x + t, tag, x.len() + k) == sections_from(t, tag, k),
    decreases t.len() - k,
{
    let s = x + t;
    let n = x.len() as int;
    lemma_find_shift(x, t, opening(tag), k);
    lemma_find_shift(x, t, opening_with_attributes(tag), k);
    if k <= t.len() {
        text::lemma_find_from(t, opening(tag), k);
        text::lemma_find_from(t, opening_with_attributes(tag), k);
        if let Some(p) = next_start(t, tag, k) {
            lemma_next_char_shift(x, t, '>', p);
            let gt = text::next_char(t, '>', p);
            if gt < t.len() {
                text::lemma_next_char(t, '>', p);
                lemma_find_shift(x, t, closing(tag), gt + 1);
                text::lemma_find_from(t, closing(tag), gt + 1);
                assert(text::next_char(s, '>', n + p) == n + gt);
                if let Some(to) = text::find_from(t, closing(tag), gt + 1) {
                    let next = to + closing(tag).len();
                    assert(contents_at(s, tag, n + p) == Some((n + gt + 1, n + to)));
                    assert(s.subrange(n + gt + 1, n + to) =~= t.subrange(gt + 1, to));
                    if next > k && next <= t.len() {
                        lemma_sections_shift(x, t, tag, next);
                    }
                }
            }
        }
    }
}

/// The elements of a text that starts with an element, after some text without one, are that
/// element and then those of the rest.
pub proof fn elements_are_read_one_after_the_other(
    xml: &str,
    rest: &str,
    tag: &str,
    all: Vec<String>,
    others: Vec<String>,
    before: Seq<char>,
    inner: Seq<char>,
)
    requires
        call_ensures(xml_all_sections, (xml, tag), all),
        call_ensures(xml_all_sections, (rest, tag), others),
        xml@ == before + ("<"@ + tag@ + ">"@) + inner + ("</"@ + tag@ + ">"@) + rest@,
        !tag@.contains('>'),
        forall|p: int|
            0 <= p < before.len() ==> !text::matches_at(xml@, "<"@ + tag@ + ">"@, p)
                && !text::matches_at(xml@, "<"@ + tag@ + " "@, p),
        forall|p: int|
            #![trigger inner[p]]
            0 <= p < inner.len() ==> !text::matches_at(
                xml@,
                "</"@ + tag@ + ">"@,
                before.len() + ("<"@ + tag@ + ">"@).len() + p,
            ),
    ensures
        text::texts(all@) == seq![inner] + text::texts(others@),
{
    reveal_strlit("<");
    reveal_strlit(">");
    reveal_strlit(" ");
    let open = "<"@ + tag@ + ">"@;
    let with = "<"@ + tag@ + " "@;
    let close = "</"@ + tag@ + ">"@;
    let s = xml@;
    let start = before.len() as int;
    let from = start + open.len();
    let to = from + inner.len();
    let x = before + open + inner + close;
    assert(s =~= x + rest@);
    assert(s.subrange(start, from) =~= open);
    assert(s.subrange(to, to + close.len()) =~= close);
    assert(s.subrange(from, to) =~= inner);
    lemma_find_is(s, open, 0, start);
    text::lemma_find_from(s, with, 0);
    assert(next_start(s, tag@, 0) == Some(start));
    let gt = from - 1;
    assert(s[gt] == '>') by {
        assert(s[gt] == open[open.len() - 1]);
    }
    assert forall|q: int| start <= q < gt implies s[q] != '>' by {
        assert(s[q] == open[q - start]);
        if q > start {
            assert(open[q - start] == tag@[q - start - 1]);
        }
    }
    text::lemma_next_char(s, '>', start);
    assert(text::next_char(s, '>', start) == gt);
    assert forall|p: int| from <= p < to implies !text::matches_at(s, close, p) by {
        let q = p - from;
        assert(inner[q] == s[p]);
        assert(before.len() + open.len() + q == p);
        assert(!text::matches_at(s, close, before.len() + open.len() + q));
    }
    lemma_find_is(s, close, from, to);
    lemma_sections_shift(x, rest@, tag@, 0);
    assert(to + close.len() == x.len());
}

} // verus!
