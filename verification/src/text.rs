//! Text as sequences of characters: trimming, searching, splitting and the
//! ordering of strings by code point.

use vstd::prelude::*;
use vstd::string::*;
use vstd::utf8::*;

verus! {

/// `String::push` appends one character at the end.
pub assume_specification[ String::push ](s: &mut String, c: char)
    ensures
        final(s)@ == old(s)@.push(c),
;

/// A capital letter of the Latin alphabet.
pub open spec fn capital(c: char) -> bool {
    'A' <= c <= 'Z'
}

/// An ASCII character in lower case.
pub open spec fn small(c: char) -> char {
    if capital(c) {
        (c as u32 + 32) as char
    } else {
        c
    }
}

/// An ASCII text in lower case.
pub open spec fn small_text(s: Seq<char>) -> Seq<char> {
    s.map_values(|c: char| small(c))
}

/// The text that `str::to_lowercase` makes of a text that is not all ASCII.
pub uninterp spec fn unicode_lower(s: Seq<char>) -> Seq<char>;

/// A text in lower case.
pub open spec fn lower_text(s: Seq<char>) -> Seq<char> {
    if is_ascii_chars(s) {
        small_text(s)
    } else {
        unicode_lower(s)
    }
}

/// The text that `str::to_uppercase` makes of `s`.
pub uninterp spec fn upper_text(s: Seq<char>) -> Seq<char>;

/// `str::to_lowercase`: the Unicode lower-case mapping, a function of the text alone. ASCII letters
/// are made small, so that none of the result is a capital; of an ASCII text nothing else changes.
/// Nothing is said of what other letters become, nor that lower-casing them twice is lower-casing
/// them once.
#[verifier::external_body]
pub(crate) fn to_lower(s: &str) -> (r: String)
    ensures
        is_ascii_chars(s@) ==> r@ == small_text(s@),
        !is_ascii_chars(s@) ==> r@ == unicode_lower(s@),
        forall|i: int| 0 <= i < r@.len() ==> !capital(#[trigger] r@[i]),
{
    s.to_lowercase()
}

/// `str::to_uppercase`: the Unicode upper-case mapping, a function of the text alone.
#[verifier::external_body]
pub(crate) fn to_upper(s: &str) -> (r: String)
    ensures
        r@ == upper_text(s@),
{
    s.to_uppercase()
}

// ── Views of lists of strings ────────────────────────────────────────────────

/// The texts held by a sequence of strings.
pub open spec fn texts(v: Seq<String>) -> Seq<Seq<char>> {
    v.map_values(|s: String| s@)
}

/// Equality of two string slices.
pub fn same_text(a: &str, b: &str) -> (r: bool)
    ensures
        r == (a@ == b@),
{
    let left: String = a.to_owned();
    let right: String = b.to_owned();
    left == right
}

/// Position of the first string equal to `t`.
pub fn position_of(v: &Vec<String>, t: &str) -> (r: Option<usize>)
    ensures
        match r {
            Some(i) => i < v.len() && v[i as int]@ == t@ && forall|j: int|
                0 <= j < i ==> (#[trigger] v[j])@ != t@,
            None => forall|j: int| 0 <= j < v.len() ==> (#[trigger] v[j])@ != t@,
        },
        r is Some <==> texts(v@).contains(t@),
{
    let mut i: usize = 0;
    while i < v.len()
        invariant
            i <= v.len(),
            forall|j: int| 0 <= j < i ==> (#[trigger] v[j])@ != t@,
        decreases v.len() - i,
    {
        if same_text(v[i].as_str(), t) {
            proof {
                assert(texts(v@)[i as int] == t@);
            }
            return Some(i);
        }
        i = i + 1;
    }
    proof {
        assert forall|j: int| 0 <= j < texts(v@).len() implies texts(v@)[j] != t@ by {
            assert(v[j]@ != t@);
        }
    }
    None
}

/// Whether some string of `v` equals `t`.
pub fn contains_text(v: &Vec<String>, t: &str) -> (r: bool)
    ensures
        r == texts(v@).contains(t@),
{
    position_of(v, t).is_some()
}

/// A copy of a list of strings.
pub fn clone_texts(v: &Vec<String>) -> (r: Vec<String>)
    ensures
        texts(r@) == texts(v@),
{
    let mut out: Vec<String> = Vec::new();
    let mut i: usize = 0;
    while i < v.len()
        invariant
            i <= v.len(),
            out.len() == i,
            forall|j: int| 0 <= j < i ==> (#[trigger] out[j])@ == v[j]@,
        decreases v.len() - i,
    {
        out.push(v[i].clone());
        i = i + 1;
    }
    proof {
        assert(texts(out@) =~= texts(v@));
    }
    out
}

// ── Characters ───────────────────────────────────────────────────────────────

/// The characters with Unicode's `White_Space` property.
pub open spec fn white(c: char) -> bool {
    let n = c as int;
    ||| 0x09 <= n <= 0x0D
    ||| n == 0x20
    ||| n == 0x85
    ||| n == 0xA0
    ||| n == 0x1680
    ||| 0x2000 <= n <= 0x200A
    ||| n == 0x2028
    ||| n == 0x2029
    ||| n == 0x202F
    ||| n == 0x205F
    ||| n == 0x3000
}

/// Whether `c` is white space.
pub fn is_white(c: char) -> (r: bool)
    ensures
        r == white(c),
{
    let n: u32 = c as u32;
    (0x09 <= n && n <= 0x0D) || n == 0x20 || n == 0x85 || n == 0xA0 || n == 0x1680 || (0x2000 <= n
        && n <= 0x200A) || n == 0x2028 || n == 0x2029 || n == 0x202F || n == 0x205F || n == 0x3000
}

/// The characters of a string, as a vector.
pub fn to_chars(s: &str) -> (r: Vec<char>)
    ensures
        r@ == s@,
{
    let mut out: Vec<char> = Vec::new();
    for c in it: s.chars()
        invariant
            out@ =~= s@.take(it.index()),
            it.seq() == s@,
    {
        out.push(c);
    }
    out
}

/// The string made of `v[from..to]`.
pub fn from_chars(v: &Vec<char>, from: usize, to: usize) -> (r: String)
    requires
        from <= to <= v.len(),
    ensures
        r@ == v@.subrange(from as int, to as int),
{
    let mut out: String = String::new();
    let mut i: usize = from;
    while i < to
        invariant
            from <= i <= to <= v.len(),
            out@ == v@.subrange(from as int, i as int),
        decreases to - i,
    {
        out.push(v[i]);
        proof {
            assert(v@.subrange(from as int, i as int).push(v[i as int]) =~= v@.subrange(
                from as int,
                i + 1,
            ));
        }
        i = i + 1;
    }
    out
}

// ── Trimming ─────────────────────────────────────────────────────────────────

/// `s` without its leading white space.
pub open spec fn trimmed_start(s: Seq<char>) -> Seq<char>
    decreases s.len(),
{
    if s.len() > 0 && white(s[0]) {
        trimmed_start(s.drop_first())
    } else {
        s
    }
}

/// `s` without its trailing white space.
pub open spec fn trimmed_end(s: Seq<char>) -> Seq<char>
    decreases s.len(),
{
    if s.len() > 0 && white(s.last()) {
        trimmed_end(s.drop_last())
    } else {
        s
    }
}

/// `s` without leading and trailing white space.
pub open spec fn trimmed(s: Seq<char>) -> Seq<char> {
    trimmed_end(trimmed_start(s))
}

/// The bounds of `v[from..to]` once white space is taken off both ends.
pub fn trim_bounds(v: &Vec<char>, from: usize, to: usize) -> (r: (usize, usize))
    requires
        from <= to <= v.len(),
    ensures
        from <= r.0 <= r.1 <= to,
        v@.subrange(r.0 as int, r.1 as int) == trimmed(v@.subrange(from as int, to as int)),
{
    let mut a: usize = from;
    while a < to && is_white(v[a])
        invariant
            from <= a <= to <= v.len(),
            trimmed_start(v@.subrange(from as int, to as int)) == trimmed_start(
                v@.subrange(a as int, to as int),
            ),
        decreases to - a,
    {
        proof {
            assert(v@.subrange(a as int, to as int).drop_first() =~= v@.subrange(a + 1, to as int));
        }
        a = a + 1;
    }
    proof {
        assert(trimmed_start(v@.subrange(a as int, to as int)) == v@.subrange(a as int, to as int));
    }
    let mut b: usize = to;
    while b > a && is_white(v[b - 1])
        invariant
            from <= a <= b <= to <= v.len(),
            trimmed_end(v@.subrange(a as int, to as int)) == trimmed_end(
                v@.subrange(a as int, b as int),
            ),
        decreases b,
    {
        proof {
            assert(v@.subrange(a as int, b as int).drop_last() =~= v@.subrange(a as int, b - 1));
        }
        b = b - 1;
    }
    (a, b)
}

/// `str::trim`: the text without leading and trailing white space.
pub fn trim(s: &str) -> (r: String)
    ensures
        r@ == trimmed(s@),
{
    let v: Vec<char> = to_chars(s);
    let (a, b): (usize, usize) = trim_bounds(&v, 0, v.len());
    proof {
        assert(v@.subrange(0, v.len() as int) =~= s@);
    }
    from_chars(&v, a, b)
}

/// White space and nothing else.
pub open spec fn blank(s: Seq<char>) -> bool {
    forall|i: int| 0 <= i < s.len() ==> white(#[trigger] s[i])
}

proof fn lemma_blank_in_front(a: Seq<char>, t: Seq<char>)
    requires
        blank(a),
    ensures
        trimmed_start(a + t) == trimmed_start(t),
    decreases a.len(),
{
    if a.len() == 0 {
        assert(a + t =~= t);
    } else {
        assert((a + t)[0] == a[0]);
        assert((a + t).drop_first() =~= a.drop_first() + t);
        assert(blank(a.drop_first())) by {
            assert forall|i: int| 0 <= i < a.drop_first().len() implies white(
                #[trigger] a.drop_first()[i],
            ) by {
                assert(white(a[i + 1]));
            }
        }
        lemma_blank_in_front(a.drop_first(), t);
    }
}

proof fn lemma_blank_behind(t: Seq<char>, b: Seq<char>)
    requires
        blank(b),
    ensures
        trimmed_end(t + b) == trimmed_end(t),
    decreases b.len(),
{
    if b.len() == 0 {
        assert(t + b =~= t);
    } else {
        assert((t + b).last() == b.last());
        assert(white(b[b.len() - 1]));
        assert((t + b).drop_last() =~= t + b.drop_last());
        assert(blank(b.drop_last())) by {
            assert forall|i: int| 0 <= i < b.drop_last().len() implies white(
                #[trigger] b.drop_last()[i],
            ) by {
                assert(white(b[i]));
            }
        }
        lemma_blank_behind(t, b.drop_last());
    }
}

proof fn lemma_start_of_both(t: Seq<char>, b: Seq<char>)
    requires
        blank(b),
    ensures
        trimmed_start(t + b) == (if trimmed_start(t).len() > 0 {
            trimmed_start(t) + b
        } else {
            seq![]
        }),
    decreases t.len(),
{
    if t.len() == 0 {
        lemma_blank_in_front(b, seq![]);
        assert(b + Seq::<char>::empty() =~= b);
        assert(t + b =~= b);
    } else {
        assert((t + b)[0] == t[0]);
        if white(t[0]) {
            assert((t + b).drop_first() =~= t.drop_first() + b);
            lemma_start_of_both(t.drop_first(), b);
        }
    }
}

/// Blanks around a text do not matter once it is trimmed.
pub proof fn blanks_around_do_not_matter(a: Seq<char>, t: Seq<char>, b: Seq<char>)
    requires
        blank(a),
        blank(b),
    ensures
        trimmed(a + t + b) == trimmed(t),
{
    assert(a + t + b =~= a + (t + b));
    lemma_blank_in_front(a, t + b);
    lemma_start_of_both(t, b);
    lemma_blank_behind(trimmed_start(t), b);
    if trimmed_start(t).len() == 0 {
        assert(trimmed_start(t) =~= seq![]);
    }
}

/// A blank text trimmed is empty.
pub proof fn blanks_trim_to_nothing(s: Seq<char>)
    requires
        blank(s),
    ensures
        trimmed(s).len() == 0,
{
    blanks_around_do_not_matter(s, seq![], seq![]);
    assert(s + seq![] + seq![] =~= s);
}

/// A property of every character of a text.
pub open spec fn all_are(s: Seq<char>, p: spec_fn(char) -> bool) -> bool {
    forall|i: int| 0 <= i < s.len() ==> p(#[trigger] s[i])
}

proof fn lemma_trimmed_start_is_part(s: Seq<char>, p: spec_fn(char) -> bool)
    requires
        all_are(s, p),
    ensures
        all_are(trimmed_start(s), p),
    decreases s.len(),
{
    if s.len() > 0 && white(s[0]) {
        assert(all_are(s.drop_first(), p)) by {
            assert forall|i: int| 0 <= i < s.drop_first().len() implies p(
                #[trigger] s.drop_first()[i],
            ) by {
                assert(p(s[i + 1]));
            }
        }
        lemma_trimmed_start_is_part(s.drop_first(), p);
    }
}

proof fn lemma_trimmed_end_is_part(s: Seq<char>, p: spec_fn(char) -> bool)
    requires
        all_are(s, p),
    ensures
        all_are(trimmed_end(s), p),
    decreases s.len(),
{
    if s.len() > 0 && white(s.last()) {
        assert(all_are(s.drop_last(), p)) by {
            assert forall|i: int| 0 <= i < s.drop_last().len() implies p(
                #[trigger] s.drop_last()[i],
            ) by {
                assert(p(s[i]));
            }
        }
        lemma_trimmed_end_is_part(s.drop_last(), p);
    }
}

/// Trimming adds no character.
pub proof fn trimming_adds_nothing(s: Seq<char>, p: spec_fn(char) -> bool)
    requires
        all_are(s, p),
    ensures
        all_are(trimmed(s), p),
{
    lemma_trimmed_start_is_part(s, p);
    lemma_trimmed_end_is_part(trimmed_start(s), p);
}

/// A text that neither begins nor ends with a blank stays as it is when it is trimmed.
pub proof fn trimming_keeps_solid_ends(t: Seq<char>)
    requires
        t.len() > 0 ==> !white(t[0]) && !white(t.last()),
    ensures
        trimmed(t) == t,
{
}

// ── Searching ────────────────────────────────────────────────────────────────

/// Whether `t` stands in `s` at position `i`.
pub open spec fn matches_at(s: Seq<char>, t: Seq<char>, i: int) -> bool {
    0 <= i && i + t.len() <= s.len() && s.subrange(i, i + t.len()) == t
}

/// The first position at or after `from` where `t` stands in `s`.
pub open spec fn find_from(s: Seq<char>, t: Seq<char>, from: int) -> Option<int>
    decreases s.len() + 1 - from,
{
    if from < 0 || from + t.len() > s.len() {
        None
    } else if matches_at(s, t, from) {
        Some(from)
    } else {
        find_from(s, t, from + 1)
    }
}

/// `find_from` gives the least match: none lies before it, and none at all where it finds none.
pub proof fn lemma_find_from(s: Seq<char>, t: Seq<char>, from: int)
    requires
        0 <= from,
    ensures
        match find_from(s, t, from) {
            Some(i) => from <= i && matches_at(s, t, i) && forall|j: int|
                from <= j < i ==> !matches_at(s, t, j),
            None => forall|j: int| from <= j ==> !matches_at(s, t, j),
        },
    decreases s.len() + 1 - from,
{
    if from + t.len() > s.len() {
    } else if matches_at(s, t, from) {
    } else {
        lemma_find_from(s, t, from + 1);
    }
}

/// Whether `t` stands in `v` at `i`.
pub fn stands_at(v: &Vec<char>, t: &Vec<char>, i: usize) -> (r: bool)
    requires
        i <= v.len(),
    ensures
        r == matches_at(v@, t@, i as int),
{
    if t.len() > v.len() - i {
        return false;
    }
    let mut k: usize = 0;
    while k < t.len()
        invariant
            k <= t.len(),
            i + t.len() <= v.len(),
            forall|j: int| 0 <= j < k ==> v[i + j] == #[trigger] t[j],
        decreases t.len() - k,
    {
        if v[i + k] != t[k] {
            proof {
                assert(v@.subrange(i as int, i + t.len())[k as int] == v[i + k]);
            }
            return false;
        }
        k = k + 1;
    }
    proof {
        assert(v@.subrange(i as int, i + t.len()) =~= t@);
    }
    true
}

/// The first position at or after `from` where `t` stands in `v`.
pub fn find(v: &Vec<char>, t: &Vec<char>, from: usize) -> (r: Option<usize>)
    requires
        from <= v.len(),
    ensures
        match r {
            Some(i) => find_from(v@, t@, from as int) == Some(i as int) && from <= i && i
                + t.len() <= v.len(),
            None => find_from(v@, t@, from as int) is None,
        },
{
    let mut i: usize = from;
    while i <= v.len() && t.len() <= v.len() - i
        invariant
            from <= i <= v.len() + 1,
            from <= v.len(),
            find_from(v@, t@, from as int) == find_from(v@, t@, i as int),
        decreases v.len() + 1 - i,
    {
        if stands_at(v, t, i) {
            return Some(i);
        }
        proof {
            if i == v.len() {
                assert(v@.subrange(i as int, i as int) =~= t@);
            }
        }
        i = i + 1;
    }
    None
}

/// Whether `t` occurs anywhere in `s`.
pub open spec fn occurs(s: Seq<char>, t: Seq<char>) -> bool {
    exists|i: int| matches_at(s, t, i)
}

/// `str::contains` for a string pattern.
pub fn contains(s: &str, t: &str) -> (r: bool)
    ensures
        r == occurs(s@, t@),
{
    let v: Vec<char> = to_chars(s);
    let w: Vec<char> = to_chars(t);
    let hit: Option<usize> = find(&v, &w, 0);
    proof {
        lemma_find_from(s@, t@, 0);
    }
    hit.is_some()
}

/// Whether `s` ends with `t`.
pub fn ends_with(s: &str, t: &str) -> (r: bool)
    ensures
        r == t@.is_suffix_of(s@),
{
    let v: Vec<char> = to_chars(s);
    let w: Vec<char> = to_chars(t);
    if w.len() > v.len() {
        return false;
    }
    stands_at(&v, &w, v.len() - w.len())
}

// ── Words ────────────────────────────────────────────────────────────────────

/// The first position at or after `from` whose character is white space, or is not, as `is` says;
/// the length of `s` where there is none.
pub open spec fn next_white(s: Seq<char>, is: bool, from: int) -> int
    decreases s.len() - from,
{
    if from < 0 || from >= s.len() {
        s.len() as int
    } else if white(s[from]) == is {
        from
    } else {
        next_white(s, is, from + 1)
    }
}

/// `next_white` stays within bounds.
pub proof fn lemma_next_white(s: Seq<char>, is: bool, from: int)
    requires
        0 <= from <= s.len(),
    ensures
        from <= next_white(s, is, from) <= s.len(),
        next_white(s, is, from) < s.len() ==> white(s[next_white(s, is, from)]) == is,
    decreases s.len() - from,
{
    if from < s.len() && white(s[from]) != is {
        lemma_next_white(s, is, from + 1);
    }
}

/// The first position at or after `from` whose character is white space, or is not.
fn find_white(v: &Vec<char>, is: bool, from: usize) -> (r: usize)
    requires
        from <= v.len(),
    ensures
        from <= r <= v.len(),
        r == next_white(v@, is, from as int),
        r < v.len() ==> white(v[r as int]) == is,
{
    let mut i: usize = from;
    while i < v.len() && is_white(v[i]) != is
        invariant
            from <= i <= v.len(),
            next_white(v@, is, from as int) == next_white(v@, is, i as int),
        decreases v.len() - i,
    {
        i = i + 1;
    }
    i
}

/// The words of `s[from..]`: its longest pieces without white space.
pub open spec fn words_from(s: Seq<char>, from: int) -> Seq<Seq<char>>
    decreases s.len() - from,
    when 0 <= from <= s.len()
    via words_from_decreases
{
    let a = next_white(s, false, from);
    if a >= s.len() {
        seq![]
    } else {
        let b = next_white(s, true, a);
        seq![s.subrange(a, b)] + words_from(s, b)
    }
}

/// A word: it is not empty and holds no white space.
pub open spec fn solid(w: Seq<char>) -> bool {
    w.len() > 0 && forall|i: int| 0 <= i < w.len() ==> !white(#[trigger] w[i])
}

proof fn lemma_up_to_white(s: Seq<char>, is: bool, from: int)
    requires
        0 <= from <= s.len(),
    ensures
        forall|k: int| from <= k < next_white(s, is, from) ==> white(#[trigger] s[k]) != is,
    decreases s.len() - from,
{
    if from < s.len() && white(s[from]) != is {
        lemma_up_to_white(s, is, from + 1);
    }
}

/// Words are not empty and hold no white space.
pub proof fn words_are_solid(s: Seq<char>, from: int)
    requires
        0 <= from <= s.len(),
    ensures
        forall|k: int| 0 <= k < words_from(s, from).len() ==> solid(#[trigger] words_from(s, from)[k]),
    decreases s.len() - from,
{
    lemma_next_white(s, false, from);
    let a = next_white(s, false, from);
    if a < s.len() {
        let b = next_white(s, true, a);
        lemma_next_white(s, true, a + 1);
        lemma_up_to_white(s, true, a);
        words_are_solid(s, b);
        let word = s.subrange(a, b);
        assert(solid(word)) by {
            assert forall|i: int| 0 <= i < word.len() implies !white(#[trigger] word[i]) by {
                assert(word[i] == s[a + i]);
            }
        }
        assert forall|k: int| 0 <= k < words_from(s, from).len() implies solid(
            #[trigger] words_from(s, from)[k],
        ) by {
            if k > 0 {
                assert(words_from(s, from)[k] == words_from(s, b)[k - 1]);
            }
        }
    }
}

/// Words hold no character that the text has not.
pub proof fn words_add_nothing(s: Seq<char>, from: int, p: spec_fn(char) -> bool)
    requires
        0 <= from <= s.len(),
        all_are(s, p),
    ensures
        forall|k: int|
            0 <= k < words_from(s, from).len() ==> all_are(#[trigger] words_from(s, from)[k], p),
    decreases s.len() - from,
{
    lemma_next_white(s, false, from);
    let a = next_white(s, false, from);
    if a < s.len() {
        let b = next_white(s, true, a);
        lemma_next_white(s, true, a + 1);
        words_add_nothing(s, b, p);
        let word = s.subrange(a, b);
        assert forall|i: int| 0 <= i < word.len() implies p(#[trigger] word[i]) by {
            assert(p(s[a + i]));
        }
        assert forall|k: int| 0 <= k < words_from(s, from).len() implies all_are(
            #[trigger] words_from(s, from)[k],
            p,
        ) by {
            if k > 0 {
                assert(words_from(s, from)[k] == words_from(s, b)[k - 1]);
            }
        }
    }
}

proof fn lemma_white_in_longer(x: Seq<char>, t: Seq<char>, is: bool, from: int)
    requires
        x.len() <= t.len(),
        t.take(x.len() as int) == x,
        0 <= from <= x.len(),
    ensures
        next_white(x, is, from) < x.len() ==> next_white(t, is, from) == next_white(x, is, from),
        next_white(x, is, from) >= x.len() ==> next_white(t, is, from) == next_white(
            t,
            is,
            x.len() as int,
        ),
    decreases x.len() - from,
{
    if from < x.len() {
        assert(t[from] == t.take(x.len() as int)[from]);
        if white(x[from]) != is {
            lemma_white_in_longer(x, t, is, from + 1);
        }
    }
}

proof fn lemma_solid_word(w: Seq<char>, t: Seq<char>, at: int)
    requires
        solid(w),
        0 <= at,
        t.len() == at + w.len(),
        t.skip(at) == w,
    ensures
        words_from(t, at) == seq![w],
{
    assert(t[at] == t.skip(at)[0]);
    assert(!white(w[0]));
    lemma_next_white(t, true, at);
    let b = next_white(t, true, at);
    if b < t.len() {
        assert(t[b] == t.skip(at)[b - at]);
        assert(!white(w[b - at]));
    }
    assert(t.subrange(at, b) =~= w);
    assert(words_from(t, b) =~= seq![]);
    assert(words_from(t, at) =~= seq![w]);
}

/// A blank and a word behind a text add that word.
pub proof fn a_further_word(x: Seq<char>, w: Seq<char>, from: int)
    requires
        solid(w),
        0 <= from <= x.len(),
    ensures
        words_from(x + seq![' '] + w, from) == words_from(x, from).push(w),
    decreases x.len() - from,
{
    let t = x + seq![' '] + w;
    let n = x.len() as int;
    assert(t.take(n) =~= x);
    assert(t[n] == ' ');
    lemma_next_white(x, false, from);
    lemma_white_in_longer(x, t, false, from);
    let a = next_white(x, false, from);
    if a < n {
        lemma_next_white(x, true, a);
        lemma_next_white(x, true, a + 1);
        lemma_white_in_longer(x, t, true, a);
        let b = next_white(x, true, a);
        assert(next_white(t, true, a) == b);
        assert(t.subrange(a, b) =~= x.subrange(a, b));
        a_further_word(x, w, b);
        assert(words_from(t, from) =~= words_from(x, from).push(w));
    } else {
        assert(t[n + 1] == w[0]);
        assert(!white(w[0]));
        assert(white(' '));
        assert(next_white(t, false, n + 1) == n + 1);
        assert(next_white(t, false, n) == next_white(t, false, n + 1));
        assert(t.skip(n + 1) =~= w);
        lemma_solid_word(w, t, n + 1);
        assert(words_from(t, from) =~= words_from(t, n + 1));
        assert(words_from(x, from) =~= seq![]);
        assert(words_from(t, from) =~= words_from(x, from).push(w));
    }
}

/// A word alone is its only word.
pub proof fn a_single_word(w: Seq<char>)
    requires
        solid(w),
    ensures
        words_from(w, 0) == seq![w],
{
    assert(w.skip(0) =~= w);
    lemma_solid_word(w, w, 0);
}

#[via_fn]
proof fn words_from_decreases(s: Seq<char>, from: int) {
    lemma_next_white(s, false, from);
    let a = next_white(s, false, from);
    if a < s.len() {
        lemma_next_white(s, true, a);
        assert(next_white(s, true, a) == next_white(s, true, a + 1));
        lemma_next_white(s, true, a + 1);
    }
}

/// `str::split_whitespace`.
pub fn words(s: &str) -> (r: Vec<String>)
    ensures
        texts(r@) == words_from(s@, 0),
{
    let v: Vec<char> = to_chars(s);
    let mut out: Vec<String> = Vec::new();
    let mut pos: usize = find_white(&v, false, 0);
    proof {
        assert(texts(out@) =~= seq![]);
        if pos < v@.len() {
            assert(next_white(v@, false, pos as int) == pos);
        }
        assert(texts(out@) + words_from(v@, pos as int) =~= words_from(v@, 0)) by {
            if pos < v@.len() {
                assert(words_from(v@, pos as int) =~= words_from(v@, 0));
            } else {
                assert(words_from(v@, pos as int) =~= seq![]);
                assert(words_from(v@, 0) =~= seq![]);
            }
        }
    }
    while pos < v.len()
        invariant
            pos <= v@.len(),
            v@ == s@,
            pos < v@.len() ==> next_white(v@, false, pos as int) == pos,
            texts(out@) + words_from(v@, pos as int) == words_from(s@, 0),
        decreases v@.len() - pos,
    {
        let ghost before = texts(out@);
        let end: usize = find_white(&v, true, pos);
        proof {
            assert(next_white(v@, false, pos as int) == pos);
            lemma_next_white(v@, false, pos as int);
            assert(end == next_white(v@, true, pos + 1));
            lemma_next_white(v@, true, pos + 1);
            assert(words_from(v@, pos as int) =~= seq![v@.subrange(pos as int, end as int)]
                + words_from(v@, end as int));
        }
        out.push(from_chars(&v, pos, end));
        let next: usize = find_white(&v, false, end);
        proof {
            assert(texts(out@) =~= before.push(v@.subrange(pos as int, end as int)));
            if next < v@.len() {
                assert(next_white(v@, false, next as int) == next);
                assert(words_from(v@, end as int) =~= words_from(v@, next as int));
            } else {
                assert(words_from(v@, end as int) =~= seq![]);
                assert(words_from(v@, next as int) =~= seq![]);
            }
            assert(before + (seq![v@.subrange(pos as int, end as int)] + words_from(
                v@,
                end as int,
            )) =~= texts(out@) + words_from(v@, next as int));
        }
        pos = next;
    }
    proof {
        assert(words_from(v@, pos as int) =~= seq![]);
        assert(texts(out@) + Seq::<Seq<char>>::empty() =~= texts(out@));
    }
    out
}

// ── Splitting ────────────────────────────────────────────────────────────────

/// The first position of `c` at or after `from`, or the length of `s`.
pub open spec fn next_char(s: Seq<char>, c: char, from: int) -> int
    decreases s.len() - from,
{
    if from < 0 || from >= s.len() {
        s.len() as int
    } else if s[from] == c {
        from
    } else {
        next_char(s, c, from + 1)
    }
}

/// The first position of `c` in `v` at or after `from`, or the length of `v`.
pub fn find_char(v: &Vec<char>, c: char, from: usize) -> (r: usize)
    requires
        from <= v.len(),
    ensures
        from <= r <= v.len(),
        r == next_char(v@, c, from as int),
        r < v.len() ==> v[r as int] == c,
        forall|j: int| from <= j < r ==> v[j] != c,
{
    let mut i: usize = from;
    while i < v.len() && v[i] != c
        invariant
            from <= i <= v.len(),
            next_char(v@, c, from as int) == next_char(v@, c, i as int),
            forall|j: int| from <= j < i ==> v[j] != c,
        decreases v.len() - i,
    {
        i = i + 1;
    }
    i
}

/// The pieces of `s[from..]` between occurrences of `c`; there is always at least one.
pub open spec fn split_from(s: Seq<char>, c: char, from: int) -> Seq<Seq<char>>
    decreases s.len() - from,
    when 0 <= from <= s.len()
    via split_from_decreases
{
    let i = next_char(s, c, from);
    if i >= s.len() {
        seq![s.subrange(from, s.len() as int)]
    } else {
        seq![s.subrange(from, i)] + split_from(s, c, i + 1)
    }
}

#[via_fn]
proof fn split_from_decreases(s: Seq<char>, c: char, from: int) {
    lemma_next_char(s, c, from);
}

/// `next_char` stays within bounds and stops at the character it seeks.
pub proof fn lemma_next_char(s: Seq<char>, c: char, from: int)
    requires
        0 <= from <= s.len(),
    ensures
        from <= next_char(s, c, from) <= s.len(),
        next_char(s, c, from) < s.len() ==> s[next_char(s, c, from)] == c,
        forall|j: int| from <= j < next_char(s, c, from) ==> s[j] != c,
    decreases s.len() - from,
{
    if from < s.len() && s[from] != c {
        lemma_next_char(s, c, from + 1);
    }
}

/// `str::split` by a character.
pub fn split(s: &str, c: char) -> (r: Vec<String>)
    ensures
        texts(r@) == split_from(s@, c, 0),
{
    let v: Vec<char> = to_chars(s);
    let mut out: Vec<String> = Vec::new();
    let mut pos: usize = 0;
    let mut done: bool = false;
    proof {
        assert(texts(out@) + split_from(v@, c, 0) =~= split_from(v@, c, 0));
    }
    while !done
        invariant
            pos <= v.len(),
            !done ==> texts(out@) + split_from(v@, c, pos as int) == split_from(v@, c, 0),
            done ==> texts(out@) == split_from(v@, c, 0),
        decreases v.len() - pos, (if done { 0int } else { 1int }),
    {
        let i: usize = find_char(&v, c, pos);
        let ghost before = out@;
        let piece: String = from_chars(&v, pos, i);
        out.push(piece);
        proof {
            assert(texts(out@) =~= texts(before) + seq![v@.subrange(pos as int, i as int)]);
        }
        if i < v.len() {
            proof {
                assert(texts(before) + (seq![v@.subrange(pos as int, i as int)] + split_from(
                    v@,
                    c,
                    i + 1,
                )) =~= texts(out@) + split_from(v@, c, i + 1));
            }
            pos = i + 1;
        } else {
            done = true;
        }
    }
    out
}

/// A line without the carriage return that ends it.
pub open spec fn without_cr(s: Seq<char>) -> Seq<char> {
    if s.len() > 0 && s.last() == '\r' {
        s.drop_last()
    } else {
        s
    }
}

/// The lines of `s[from..]`: each ends at a line feed, which is dropped together with a
/// carriage return right before it; what follows the last line feed is a line if not empty.
pub open spec fn lines_from(s: Seq<char>, from: int) -> Seq<Seq<char>>
    decreases s.len() - from,
    when 0 <= from <= s.len()
    via lines_from_decreases
{
    let i = next_char(s, '\n', from);
    if from == s.len() {
        seq![]
    } else if i >= s.len() {
        seq![s.subrange(from, s.len() as int)]
    } else {
        seq![without_cr(s.subrange(from, i))] + lines_from(s, i + 1)
    }
}

#[via_fn]
proof fn lines_from_decreases(s: Seq<char>, from: int) {
    lemma_next_char(s, '\n', from);
}

/// `str::lines`.
pub fn lines(s: &str) -> (r: Vec<String>)
    ensures
        texts(r@) == lines_from(s@, 0),
{
    let v: Vec<char> = to_chars(s);
    let mut out: Vec<String> = Vec::new();
    let mut pos: usize = 0;
    proof {
        assert(texts(out@) + lines_from(v@, 0) =~= lines_from(v@, 0));
    }
    while pos < v.len()
        invariant
            pos <= v.len(),
            texts(out@) + lines_from(v@, pos as int) == lines_from(v@, 0),
        decreases v.len() - pos,
    {
        let i: usize = find_char(&v, '\n', pos);
        let ghost before = out@;
        let mut end: usize = i;
        if i < v.len() && i > pos && v[i - 1] == '\r' {
            end = i - 1;
        }
        let piece: String = from_chars(&v, pos, end);
        let ghost text = piece@;
        out.push(piece);
        proof {
            let raw = v@.subrange(pos as int, i as int);
            if i < v.len() {
                if i > pos && v[i - 1] == '\r' {
                    assert(raw.drop_last() =~= text);
                } else {
                    assert(raw =~= text);
                }
                assert(text == without_cr(raw));
                assert(texts(out@) =~= texts(before) + seq![text]);
                assert(texts(before) + (seq![text] + lines_from(v@, i + 1)) =~= texts(out@)
                    + lines_from(v@, i + 1));
            } else {
                assert(lines_from(v@, v.len() as int) =~= seq![]);
                assert(texts(out@) =~= texts(before) + seq![text]);
                assert(texts(out@) + lines_from(v@, v.len() as int) =~= texts(out@));
            }
        }
        if i < v.len() {
            pos = i + 1;
        } else {
            pos = v.len();
        }
    }
    proof {
        assert(lines_from(v@, v.len() as int) =~= seq![]);
        assert(texts(out@) + lines_from(v@, v.len() as int) =~= texts(out@));
    }
    out
}

// ── Decimal numbers ──────────────────────────────────────────────────────────

/// Whether `c` is an ASCII digit.
pub open spec fn is_digit(c: char) -> bool {
    '0' <= c <= '9'
}

/// The value of a sequence of digits.
pub open spec fn digits_value(s: Seq<char>) -> int
    decreases s.len(),
{
    if s.len() == 0 {
        0
    } else {
        10 * digits_value(s.drop_last()) + (s.last() as int - '0' as int)
    }
}

/// Digits only.
pub open spec fn all_digits(s: Seq<char>) -> bool {
    forall|i: int| 0 <= i < s.len() ==> is_digit(#[trigger] s[i])
}

/// The part of a number's text after an optional plus sign.
pub open spec fn unsigned_part(s: Seq<char>) -> Seq<char> {
    if s.len() > 0 && s[0] == '+' {
        s.drop_first()
    } else {
        s
    }
}

/// Whether a text is an unsigned number: an optional plus sign and at least one digit, nothing
/// else, with a value of at most `max`.
pub open spec fn is_number_upto(s: Seq<char>, max: int) -> bool {
    let d = unsigned_part(s);
    d.len() > 0 && all_digits(d) && digits_value(d) <= max
}

proof fn lemma_digits_value_nonnegative(s: Seq<char>)
    requires
        all_digits(s),
    ensures
        digits_value(s) >= 0,
    decreases s.len(),
{
    if s.len() > 0 {
        assert(all_digits(s.drop_last())) by {
            assert forall|i: int| 0 <= i < s.drop_last().len() implies is_digit(
                #[trigger] s.drop_last()[i],
            ) by {
                assert(is_digit(s[i]));
            }
        }
        lemma_digits_value_nonnegative(s.drop_last());
        assert(is_digit(s[s.len() - 1]));
    }
}

/// More digits never make a number smaller.
proof fn lemma_digits_value_grows(s: Seq<char>, n: int)
    requires
        all_digits(s),
        0 <= n <= s.len(),
    ensures
        digits_value(s.take(n)) <= digits_value(s),
    decreases s.len() - n,
{
    if n < s.len() {
        lemma_digits_value_grows(s, n + 1);
        assert(s.take(n + 1).drop_last() =~= s.take(n));
        assert(all_digits(s.take(n))) by {
            assert forall|i: int| 0 <= i < n implies is_digit(#[trigger] s.take(n)[i]) by {
                assert(is_digit(s[i]));
            }
        }
        lemma_digits_value_nonnegative(s.take(n));
        assert(is_digit(s[n]));
        assert(s.take(n + 1).last() == s[n]);
    } else {
        assert(s.take(n) =~= s);
    }
}

/// `str::parse` for an unsigned number of at most `max`.
pub fn parse_upto(s: &str, max: u64) -> (r: Option<u64>)
    requires
        max <= 0xFFFF_FFFF_FFFF,
    ensures
        match r {
            Some(n) => is_number_upto(s@, max as int) && n == digits_value(unsigned_part(s@)),
            None => !is_number_upto(s@, max as int),
        },
{
    let v: Vec<char> = to_chars(s);
    let mut from: usize = 0;
    if v.len() > 0 && v[0] == '+' {
        from = 1;
    }
    let ghost d = unsigned_part(s@);
    proof {
        assert(d =~= v@.skip(from as int));
    }
    if from == v.len() {
        return None;
    }
    let mut i: usize = from;
    let mut n: u64 = 0;
    proof {
        assert(d.take(0) =~= seq![]);
    }
    while i < v.len()
        invariant
            max <= 0xFFFF_FFFF_FFFF,
            from <= i <= v.len(),
            v@ == s@,
            d == unsigned_part(s@),
            d == v@.skip(from as int),
            forall|k: int| 0 <= k < i - from ==> is_digit(#[trigger] d[k]),
            n == digits_value(d.take(i - from)),
            n <= max,
        decreases v.len() - i,
    {
        let c: char = v[i];
        proof {
            assert(d[i - from] == c);
        }
        if c < '0' || c > '9' {
            proof {
                assert(!is_digit(d[i - from]));
            }
            return None;
        }
        let digit: u64 = (c as u32 - '0' as u32) as u64;
        n = 10 * n + digit;
        proof {
            assert(d.take(i - from + 1).drop_last() =~= d.take(i - from));
            assert(d.take(i - from + 1).last() == c);
        }
        if n > max {
            proof {
                if all_digits(d) {
                    lemma_digits_value_grows(d, i - from + 1);
                }
            }
            return None;
        }
        i = i + 1;
    }
    proof {
        assert(d.take(v.len() - from) =~= d);
    }
    Some(n)
}

/// `str::parse` for a `u32`.
pub fn parse_u32(s: &str) -> (r: Option<u32>)
    ensures
        match r {
            Some(n) => is_number_upto(s@, u32::MAX as int) && n == digits_value(unsigned_part(s@)),
            None => !is_number_upto(s@, u32::MAX as int),
        },
{
    match parse_upto(s, 0xFFFF_FFFF) {
        Some(n) => {
            proof {
                assert(n <= 0xFFFF_FFFF);
            }
            Some(n as u32)
        },
        None => None,
    }
}

/// A number in decimal, without leading zeros.
pub open spec fn decimal(n: nat) -> Seq<char>
    decreases n,
{
    if n < 10 {
        seq![(n + 48) as char]
    } else {
        decimal(n / 10).push((n % 10 + 48) as char)
    }
}

/// A digit as a character.
fn digit_char(n: u64) -> (r: char)
    requires
        n < 10,
    ensures
        r == (n + 48) as char,
{
    if n == 0 {
        '0'
    } else if n == 1 {
        '1'
    } else if n == 2 {
        '2'
    } else if n == 3 {
        '3'
    } else if n == 4 {
        '4'
    } else if n == 5 {
        '5'
    } else if n == 6 {
        '6'
    } else if n == 7 {
        '7'
    } else if n == 8 {
        '8'
    } else {
        '9'
    }
}

/// A number as decimal text.
pub fn decimal_text(n: u64) -> (r: String)
    ensures
        r@ == decimal(n as nat),
    decreases n,
{
    if n < 10 {
        let mut out: String = String::new();
        out.push(digit_char(n));
        proof {
            assert(out@ =~= decimal(n as nat));
        }
        out
    } else {
        let mut out: String = decimal_text(n / 10);
        out.push(digit_char(n % 10));
        out
    }
}

/// Reading back a printed number gives the number.
pub proof fn decimal_round_trip(n: nat)
    ensures
        all_digits(decimal(n)),
        decimal(n).len() > 0,
        digits_value(decimal(n)) == n,
    decreases n,
{
    let c = (n % 10 + 48) as char;
    assert(c as int == n % 10 + 48);
    assert('0' as int == 48);
    assert(decimal(n).last() == c);
    if n < 10 {
        assert(decimal(n).drop_last() =~= seq![]);
        assert(digits_value(decimal(n).drop_last()) == 0);
    } else {
        decimal_round_trip(n / 10);
        assert(decimal(n).drop_last() =~= decimal(n / 10));
    }
}

/// A signed number as decimal text.
pub open spec fn signed_decimal(n: int) -> Seq<char> {
    if n < 0 {
        seq!['-'] + decimal((-n) as nat)
    } else {
        decimal(n as nat)
    }
}

/// A signed number as decimal text.
pub fn signed_text(n: i64) -> (r: String)
    ensures
        r@ == signed_decimal(n as int),
{
    if n < 0 {
        let mut out: String = String::new();
        out.push('-');
        let rest: String = decimal_text((-(n + 1)) as u64 + 1);
        out.append(rest.as_str());
        proof {
            assert(out@ =~= signed_decimal(n as int));
        }
        out
    } else {
        decimal_text(n as u64)
    }
}

// ── Padding ──────────────────────────────────────────────────────────────────

/// `n` times the character `c`.
pub open spec fn repeated(c: char, n: int) -> Seq<char> {
    Seq::new(
        if n < 0 {
            0
        } else {
            n as nat
        },
        |i: int| c,
    )
}

/// `s` at the right end of a column of `width` characters; longer text is not cut.
pub open spec fn right_aligned(s: Seq<char>, width: int) -> Seq<char> {
    repeated(' ', width - s.len()) + s
}

/// `s` at the left end of a column of `width` characters; longer text is not cut.
pub open spec fn left_aligned(s: Seq<char>, width: int) -> Seq<char> {
    s + repeated(' ', width - s.len())
}

/// `n` times the character `c`.
pub fn repeat_char(c: char, n: usize) -> (r: String)
    ensures
        r@ == repeated(c, n as int),
{
    let mut out: String = String::new();
    let mut i: usize = 0;
    while i < n
        invariant
            i <= n,
            out@ =~= repeated(c, i as int),
        decreases n - i,
    {
        out.push(c);
        i = i + 1;
    }
    out
}

/// Text at the right end of a column.
pub fn pad_left(s: &str, width: usize) -> (r: String)
    ensures
        r@ == right_aligned(s@, width as int),
{
    let n: usize = s.unicode_len();
    let gap: usize = if n < width {
        width - n
    } else {
        0
    };
    let mut out: String = repeat_char(' ', gap);
    out.append(s);
    proof {
        assert(out@ =~= right_aligned(s@, width as int));
    }
    out
}

/// Text at the left end of a column.
pub fn pad_right(s: &str, width: usize) -> (r: String)
    ensures
        r@ == left_aligned(s@, width as int),
{
    let n: usize = s.unicode_len();
    let gap: usize = if n < width {
        width - n
    } else {
        0
    };
    let mut out: String = s.to_owned();
    let blanks: String = repeat_char(' ', gap);
    out.append(blanks.as_str());
    proof {
        assert(out@ =~= left_aligned(s@, width as int));
    }
    out
}

// ── Colour codes ─────────────────────────────────────────────────────────────

/// `s` without escape sequences: each starts at an escape character and ends with the next `m`,
/// or with the text.
pub open spec fn plain(s: Seq<char>) -> Seq<char>
    decreases s.len(),
{
    if s.len() == 0 {
        seq![]
    } else if s[0] == '\x1b' {
        after_escape(s.drop_first())
    } else {
        seq![s[0]] + plain(s.drop_first())
    }
}

/// What is left of `s` once the escape sequence that has begun before it is dropped.
pub open spec fn after_escape(s: Seq<char>) -> Seq<char>
    decreases s.len(),
{
    if s.len() == 0 {
        seq![]
    } else if s[0] == 'm' {
        plain(s.drop_first())
    } else {
        after_escape(s.drop_first())
    }
}

/// The text without its colour codes.
pub fn strip_ansi(s: &str) -> (r: String)
    ensures
        r@ == plain(s@),
{
    let v: Vec<char> = to_chars(s);
    let mut out: String = String::new();
    let mut i: usize = 0;
    let mut escaped: bool = false;
    proof {
        assert(v@.skip(0) =~= v@);
        assert(out@ + plain(v@) =~= plain(v@));
    }
    while i < v.len()
        invariant
            i <= v.len(),
            v@ == s@,
            plain(s@) == out@ + if escaped {
                after_escape(v@.skip(i as int))
            } else {
                plain(v@.skip(i as int))
            },
        decreases v.len() - i,
    {
        let c: char = v[i];
        let ghost rest = v@.skip(i as int);
        let ghost before = out@;
        proof {
            assert(rest.drop_first() =~= v@.skip(i + 1));
            assert(rest[0] == c);
        }
        if escaped {
            if c == 'm' {
                escaped = false;
            }
        } else if c == '\x1b' {
            escaped = true;
        } else {
            out.push(c);
            proof {
                assert(before + (seq![c] + plain(v@.skip(i + 1))) =~= out@ + plain(v@.skip(i + 1)));
            }
        }
        i = i + 1;
    }
    proof {
        assert(v@.skip(v.len() as int) =~= seq![]);
        assert(out@ + seq![] =~= out@);
    }
    out
}

/// No escape character is left in plain text, and plain text has nothing to strip.
pub proof fn plain_text_stays(s: Seq<char>)
    ensures
        forall|i: int| 0 <= i < plain(s).len() ==> plain(s)[i] != '\x1b',
        forall|i: int| 0 <= i < after_escape(s).len() ==> after_escape(s)[i] != '\x1b',
        plain(plain(s)) == plain(s),
    decreases s.len(),
{
    if s.len() > 0 {
        let rest = s.drop_first();
        plain_text_stays(rest);
        if s[0] != '\x1b' {
            assert(plain(s) =~= seq![s[0]] + plain(rest));
            assert forall|i: int| 0 <= i < plain(s).len() implies plain(s)[i] != '\x1b' by {
                if i > 0 {
                    assert(plain(s)[i] == plain(rest)[i - 1]);
                }
            }
        } else {
            assert(plain(s) == after_escape(rest));
        }
        if s[0] == 'm' {
            assert(after_escape(s) == plain(rest));
        } else {
            assert(after_escape(s) == after_escape(rest));
        }
    }
    lemma_no_escapes(plain(s));
}

proof fn lemma_no_escapes(s: Seq<char>)
    requires
        forall|i: int| 0 <= i < s.len() ==> s[i] != '\x1b',
    ensures
        plain(s) == s,
    decreases s.len(),
{
    if s.len() > 0 {
        assert forall|i: int| 0 <= i < s.drop_first().len() implies s.drop_first()[i] != '\x1b' by {
            assert(s.drop_first()[i] == s[i + 1]);
        }
        lemma_no_escapes(s.drop_first());
        assert(s =~= seq![s[0]] + s.drop_first());
    }
}

// ── Pieces and their text ────────────────────────────────────────────────────

/// A list has a text exactly where the text has a position in it, which is the first of its kind.
pub proof fn texts_are_found_at_their_first_place(
    v: Vec<String>,
    t: &str,
    at: Option<usize>,
    has: bool,
    i: int,
)
    requires
        call_ensures(position_of, (&v, t), at),
        call_ensures(contains_text, (&v, t), has),
        0 <= i < v@.len(),
        v@[i]@ == t@,
        forall|j: int| 0 <= j < i ==> (#[trigger] v@[j])@ != t@,
    ensures
        has,
        at == Some(i as usize),
{
    assert(texts(v@)[i] == t@);
    assert(texts(v@).contains(t@));
    let args = (&v, t);
    let k = at->0 as int;
    if i < k {
        assert(args.0@[i]@ != t@);
    } else if k < i {
        assert(v@[k]@ != t@);
    }
}

/// A text is read in pieces: what stands before the first separator, then the pieces of what stands
/// behind it.
pub proof fn pieces_stand_between_separators(
    s: &str,
    c: char,
    r: Vec<String>,
    front: Seq<char>,
    back: Seq<char>,
)
    requires
        call_ensures(split, (s, c), r),
        !front.contains(c),
        s@ == front || s@ == front.push(c) + back,
    ensures
        s@ == front ==> r@.len() == 1 && r@[0]@ == front,
        s@ == front.push(c) + back && s@ != front ==> r@.len() >= 2 && r@[0]@ == front,
{
    let n = front.len() as int;
    let all = texts(r@);
    assert(all.len() == r@.len());
    lemma_next_char(s@, c, 0);
    let i = next_char(s@, c, 0);
    assert forall|k: int| 0 <= k < n implies s@[k] != c by {
        assert(front.contains(front[k]));
        assert(s@[k] == front[k]);
    }
    if s@ == front {
        assert(i == n);
        assert(s@.subrange(0, n) =~= front);
        assert(all[0] == r@[0]@);
    } else {
        assert(s@[n] == c);
        if i < n {
            assert(s@[i] != c);
        } else if n < i {
            assert(s@[n] != c);
        }
        assert(i == n);
        assert(s@.subrange(0, n) =~= front);
        assert(all[0] == r@[0]@);
        assert(split_from(s@, c, n + 1).len() >= 1);
    }
}

/// Padding keeps the text, at the right or the left end of a column, and fills the column with
/// blanks; a text that is too long stays as it is.
pub proof fn padding_fills_the_column(s: &str, width: usize, a: String, b: String)
    requires
        call_ensures(pad_left, (s, width), a),
        call_ensures(pad_right, (s, width), b),
    ensures
        s@.is_suffix_of(a@) && s@.is_prefix_of(b@),
        s@.len() <= width ==> a@.len() == width && b@.len() == width,
        s@.len() >= width ==> a@ == s@ && b@ == s@,
        forall|i: int| 0 <= i < width - s@.len() ==> (#[trigger] a@[i]) == ' ',
        forall|i: int| s@.len() <= i < width ==> (#[trigger] b@[i]) == ' ',
{
    assert(a@.skip(a@.len() - s@.len()) =~= s@);
    assert(b@.take(s@.len() as int) =~= s@);
    if s@.len() >= width {
        assert(a@ =~= s@);
        assert(b@ =~= s@);
    }
}

/// A number is read back from its decimal text, and a negative one is written with a minus sign.
pub proof fn numbers_are_read_back_from_their_text(n: u64, w: String, t: &str, r: Option<u64>)
    requires
        n <= 0xFFFF_FFFF_FFFF,
        call_ensures(decimal_text, (n,), w),
        t@ == w@,
        call_ensures(parse_upto, (t, 0xFFFF_FFFF_FFFFu64), r),
    ensures
        r == Some(n),
{
    decimal_round_trip(n as nat);
}

/// A negative number is written as its opposite behind a minus sign, any other as it is.
pub proof fn negative_numbers_have_a_minus_sign(n: i64, w: String, size: String)
    requires
        n > i64::MIN,
        call_ensures(signed_text, (n,), w),
        call_ensures(
            decimal_text,
            ((if n < 0 {
                (-n) as u64
            } else {
                n as u64
            }),),
            size,
        ),
    ensures
        n < 0 ==> w@ == seq!['-'] + size@,
        n >= 0 ==> w@ == size@,
{
}

/// A text occurs at its own end and wherever it stands between two others.
pub proof fn texts_occur_where_they_stand(
    s: &str,
    t: &str,
    a: Seq<char>,
    b: Seq<char>,
    found: bool,
    ends: bool,
)
    requires
        call_ensures(contains, (s, t), found),
        call_ensures(ends_with, (s, t), ends),
        s@ == a + t@ + b,
    ensures
        found,
        b.len() == 0 ==> ends,
        t@.len() == 0 ==> ends,
{
    let n = a.len() as int;
    assert(s@.subrange(n, n + t@.len()) =~= t@);
    assert(matches_at(s@, t@, n));
    if b.len() == 0 || t@.len() == 0 {
        assert(s@.skip(s@.len() - t@.len()) =~= t@);
    }
}

} // verus!
