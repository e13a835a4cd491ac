//! What decides whether stored data can be used, and the form in which lists
//! are stored.

use vstd::prelude::*;

use crate::calendar::Date;
use crate::order;
use crate::text;

verus! {

/// The trading days that a span of days is expected to have: five in seven.
pub open spec fn expected_trading_days(days: int) -> int {
    if days <= 0 {
        0
    } else {
        days * 5 / 7
    }
}

/// Whether stored bars cover a span: there are at least nine in ten of the trading days expected.
pub open spec fn covers(bars: int, days: int) -> bool {
    bars * 10 >= expected_trading_days(days) * 9
}

/// Whether `bars` stored bars cover the days from one date through another.
pub fn has_price_coverage(bars: usize, from: Date, to: Date) -> (r: bool)
    ensures
        r == covers(bars as int, to.days - from.days),
{
    let days: i64 = to.days_since(from);
    let expected: i64 = if days <= 0 {
        0
    } else {
        days * 5 / 7
    };
    bars as u128 * 10 >= (expected * 9) as u128
}

/// Whether something fetched at one time is still fresh at another, all in seconds: it is no older
/// than `max_age`.
pub fn is_fresh(fetched: i64, now: i64, max_age: i64) -> (r: bool)
    ensures
        r == (fetched >= now - max_age),
{
    fetched as i128 >= now as i128 - max_age as i128
}

/// The texts that are not empty.
pub open spec fn non_empty(s: Seq<Seq<char>>) -> Seq<Seq<char>> {
    s.filter(|t: Seq<char>| t.len() > 0)
}

/// A list of tickers as it is stored.
pub fn store_list(tickers: &Vec<String>) -> (r: String)
    ensures
        r@ == order::joined(text::texts(tickers@), ","@),
{
    order::join(tickers, ",")
}

/// A stored list of tickers.
pub fn read_list(stored: &str) -> (r: Vec<String>)
    ensures
        text::texts(r@) == non_empty(text::split_from(stored@, ',', 0)),
{
    let parts: Vec<String> = text::split(stored, ',');
    let ghost all = text::texts(parts@);
    let ghost keep = |t: Seq<char>| t.len() > 0;
    let mut out: Vec<String> = Vec::new();
    let mut i: usize = 0;
    proof {
        reveal(Seq::filter);
        assert(all.take(0) =~= seq![]);
        assert(text::texts(out@) =~= all.take(0).filter(keep));
    }
    while i < parts.len()
        invariant
            i <= parts@.len(),
            all == text::texts(parts@),
            keep == (|t: Seq<char>| t.len() > 0),
            text::texts(out@) == all.take(i as int).filter(keep),
        decreases parts@.len() - i,
    {
        let ghost before = text::texts(out@);
        proof {
            reveal(Seq::filter);
            assert(all.take(i + 1).drop_last() =~= all.take(i as int));
            assert(all.take(i + 1).last() == parts@[i as int]@);
        }
        if text::to_chars(parts[i].as_str()).len() > 0 {
            out.push(parts[i].clone());
            proof {
                assert(text::texts(out@) =~= before.push(parts@[i as int]@));
            }
        }
        i = i + 1;
    }
    proof {
        assert(all.take(parts@.len() as int) =~= all);
    }
    out
}

/// The position that `next_char` finds is the only one with no such character before it.
proof fn lemma_next_char_is(s: Seq<char>, c: char, from: int, k: int)
    requires
        0 <= from <= k <= s.len(),
        forall|j: int| from <= j < k ==> s[j] != c,
        k < s.len() ==> s[k] == c,
    ensures
        text::next_char(s, c, from) == k,
{
    text::lemma_next_char(s, c, from);
    let n = text::next_char(s, c, from);
    if n < k {
        assert(s[n] == c);
    } else if k < n {
        assert(s[k] != c);
    }
}

/// Splitting at a separator parts off what stands behind the last one.
proof fn lemma_split_last(s: Seq<char>, t: Seq<char>, c: char, from: int)
    requires
        0 <= from <= s.len(),
        forall|j: int| 0 <= j < t.len() ==> t[j] != c,
    ensures
        text::split_from(s + seq![c] + t, c, from) == text::split_from(s, c, from).push(t),
    decreases s.len() - from,
{
    let u = s + seq![c] + t;
    text::lemma_next_char(s, c, from);
    let i = text::next_char(s, c, from);
    assert forall|j: int| from <= j < i implies u[j] != c by {
        assert(u[j] == s[j]);
    }
    lemma_next_char_is(u, c, from, i);
    assert(u.subrange(from, i) =~= s.subrange(from, i));
    if i < s.len() {
        lemma_split_last(s, t, c, i + 1);
        assert(seq![s.subrange(from, i)] + text::split_from(s, c, i + 1).push(t) =~= (seq![
            s.subrange(from, i),
        ] + text::split_from(s, c, i + 1)).push(t));
    } else {
        let rest = s.len() + 1;
        assert forall|j: int| rest <= j < u.len() implies u[j] != c by {
            assert(u[j] == t[j - rest]);
        }
        lemma_next_char_is(u, c, rest as int, u.len() as int);
        assert(u.subrange(rest as int, u.len() as int) =~= t);
        assert(text::split_from(u, c, rest as int) =~= seq![t]);
        assert(text::split_from(s, c, from) =~= seq![s.subrange(from, s.len() as int)]);
    }
}

/// Splitting a text without the separator gives that text.
proof fn lemma_split_single(s: Seq<char>, c: char)
    requires
        forall|j: int| 0 <= j < s.len() ==> s[j] != c,
    ensures
        text::split_from(s, c, 0) == seq![s],
{
    lemma_next_char_is(s, c, 0, s.len() as int);
    assert(s.subrange(0, s.len() as int) =~= s);
}

/// What is read from a stored list of tickers is the list that was stored, provided that every
/// ticker is some text without a comma.
pub proof fn stored_lists_read_back(s: Seq<Seq<char>>)
    requires
        forall|i: int| 0 <= i < s.len() ==> (#[trigger] s[i]).len() > 0 && !s[i].contains(','),
    ensures
        non_empty(text::split_from(order::joined(s, ","@), ',', 0)) == s,
    decreases s.len(),
{
    reveal_strlit(",");
    assert(","@ =~= seq![',']);
    reveal(Seq::filter);
    let keep = |t: Seq<char>| t.len() > 0;
    assert(Seq::<Seq<char>>::empty().filter(keep) =~= seq![]);
    if s.len() == 0 {
        lemma_split_single(seq![], ',');
        let parts = seq![Seq::<char>::empty()];
        assert(text::split_from(order::joined(s, ","@), ',', 0) =~= parts);
        assert(parts.drop_last() =~= seq![]);
        assert(parts.filter(keep) =~= s);
    } else if s.len() == 1 {
        let t = s[0];
        assert forall|j: int| 0 <= j < t.len() implies t[j] != ',' by {
            if t[j] == ',' {
                assert(t.contains(','));
            }
        }
        lemma_split_single(t, ',');
        let parts = seq![t];
        assert(parts.drop_last() =~= seq![]);
        assert(parts.filter(keep) =~= s);
    } else {
        let init = s.drop_last();
        let t = s.last();
        assert forall|i: int| 0 <= i < init.len() implies (#[trigger] init[i]).len() > 0
            && !init[i].contains(',') by {
            assert(init[i] == s[i]);
        }
        stored_lists_read_back(init);
        assert(t == s[s.len() - 1]);
        assert forall|j: int| 0 <= j < t.len() implies t[j] != ',' by {
            if t[j] == ',' {
                assert(t.contains(','));
            }
        }
        let head = order::joined(init, ","@);
        lemma_split_last(head, t, ',', 0);
        assert(order::joined(s, ","@) =~= head + seq![','] + t);
        let parts = text::split_from(head, ',', 0);
        assert(parts.push(t).drop_last() =~= parts);
        assert(parts.push(t).filter(keep) =~= parts.filter(keep).push(t));
        assert(init.push(t) =~= s);
    }
}

/// Five bars to a week cover a span, and more bars or a shorter span cover no worse; nine in ten of
/// the weekdays are enough, and without bars nothing longer than a day is covered.
pub proof fn coverage_takes_nine_weekdays_in_ten(bars: usize, from: Date, to: Date, r: bool)
    requires
        call_ensures(has_price_coverage, (bars, from, to), r),
        from.days <= to.days,
    ensures
        bars * 7 >= (to.days - from.days) * 5 ==> r,
        r ==> 70 * bars + 63 > 45 * (to.days - from.days),
        bars == 0 && to.days - from.days >= 2 ==> !r,
        bars * 70 >= (to.days - from.days) * 45 ==> r,
{
}

/// More bars cover no worse, nor does the same number over fewer days.
pub proof fn coverage_grows_with_the_bars(
    bars: usize,
    more: usize,
    from: Date,
    later: Date,
    to: Date,
    a: bool,
    b: bool,
)
    requires
        call_ensures(has_price_coverage, (bars, from, to), a),
        call_ensures(has_price_coverage, (more, later, to), b),
        bars <= more,
        from.days <= later.days,
        a,
    ensures
        b,
{
}

/// What was fetched stays fresh until it is older than allowed, and is stale from then on.
pub proof fn freshness_ends_with_the_age_allowed(fetched: i64, now: i64, max_age: i64, r: bool)
    requires
        call_ensures(is_fresh, (fetched, now, max_age), r),
    ensures
        r <==> now - fetched <= max_age,
{
}

/// A list of tickers is read back from what it was stored as.
pub proof fn lists_are_read_back(
    tickers: Vec<String>,
    stored: String,
    text_of: &str,
    r: Vec<String>,
)
    requires
        call_ensures(store_list, (&tickers,), stored),
        text_of@ == stored@,
        call_ensures(read_list, (text_of,), r),
        forall|i: int|
            0 <= i < tickers@.len() ==> (#[trigger] tickers@[i])@.len() > 0
                && !tickers@[i]@.contains(','),
    ensures
        r@.len() == tickers@.len(),
        forall|i: int| 0 <= i < r@.len() ==> (#[trigger] r@[i])@ == tickers@[i]@,
{
    let s = text::texts(tickers@);
    assert forall|i: int| 0 <= i < s.len() implies (#[trigger] s[i]).len() > 0 && !s[i].contains(
        ',',
    ) by {
        assert(s[i] == tickers@[i]@);
    }
    stored_lists_read_back(s);
    assert(text::texts(r@).len() == r@.len());
    assert forall|i: int| 0 <= i < r@.len() implies (#[trigger] r@[i])@ == tickers@[i]@ by {
        assert(text::texts(r@)[i] == s[i]);
    }
}

} // verus!
