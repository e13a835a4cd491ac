//! Orderings: strings by code point, sorted lists of names, and stable
//! orderings by integer key.

use vstd::prelude::*;
use vstd::string::*;

use crate::number::Number;
use crate::text;

verus! {

/// Positions in increasing order, each listed once.
pub open spec fn once_each(s: Seq<usize>) -> bool {
    forall|i: int, j: int| 0 <= i < j < s.len() ==> (#[trigger] s[i]) < (#[trigger] s[j])
}

// ── Strings by code point ────────────────────────────────────────────────────

/// Lexicographic order of texts by code point.
pub open spec fn text_le(a: Seq<char>, b: Seq<char>) -> bool
    decreases a.len(),
{
    if a.len() == 0 {
        true
    } else if b.len() == 0 {
        false
    } else if a[0] != b[0] {
        a[0] < b[0]
    } else {
        text_le(a.drop_first(), b.drop_first())
    }
}

/// Strict lexicographic order of texts by code point.
pub open spec fn text_lt(a: Seq<char>, b: Seq<char>) -> bool {
    text_le(a, b) && a != b
}

/// The order of texts is reflexive.
pub proof fn lemma_text_le_reflexive(a: Seq<char>)
    ensures
        text_le(a, a),
    decreases a.len(),
{
    if a.len() > 0 {
        lemma_text_le_reflexive(a.drop_first());
    }
}

/// The order of texts is antisymmetric.
pub proof fn lemma_text_le_antisymmetric(a: Seq<char>, b: Seq<char>)
    requires
        text_le(a, b),
        text_le(b, a),
    ensures
        a == b,
    decreases a.len(),
{
    if a.len() > 0 && b.len() > 0 {
        lemma_text_le_antisymmetric(a.drop_first(), b.drop_first());
        assert(a =~= seq![a[0]] + a.drop_first());
        assert(b =~= seq![b[0]] + b.drop_first());
    } else {
        assert(a =~= b);
    }
}

/// The order of texts is transitive.
pub proof fn lemma_text_le_transitive(a: Seq<char>, b: Seq<char>, c: Seq<char>)
    requires
        text_le(a, b),
        text_le(b, c),
    ensures
        text_le(a, c),
    decreases a.len(),
{
    if a.len() > 0 && b.len() > 0 && c.len() > 0 && a[0] == b[0] && b[0] == c[0] {
        lemma_text_le_transitive(a.drop_first(), b.drop_first(), c.drop_first());
    }
}

/// Any two texts are ordered one way or the other.
pub proof fn lemma_text_le_total(a: Seq<char>, b: Seq<char>)
    ensures
        text_le(a, b) || text_le(b, a),
    decreases a.len(),
{
    if a.len() > 0 && b.len() > 0 && a[0] == b[0] {
        lemma_text_le_total(a.drop_first(), b.drop_first());
    }
}

/// Whether `a` comes before or is equal to `b`.
pub fn is_text_le(a: &str, b: &str) -> (r: bool)
    ensures
        r == text_le(a@, b@),
{
    let v: Vec<char> = text::to_chars(a);
    let w: Vec<char> = text::to_chars(b);
    let mut i: usize = 0;
    proof {
        assert(v@.skip(0) =~= v@);
        assert(w@.skip(0) =~= w@);
    }
    while i < v.len()
        invariant
            i <= v.len(),
            i <= w.len(),
            v@ == a@,
            w@ == b@,
            text_le(v@, w@) == text_le(v@.skip(i as int), w@.skip(i as int)),
        decreases v.len() - i,
    {
        if i >= w.len() {
            return false;
        }
        if v[i] != w[i] {
            return v[i] < w[i];
        }
        proof {
            assert(v@.skip(i as int).drop_first() =~= v@.skip(i + 1));
            assert(w@.skip(i as int).drop_first() =~= w@.skip(i + 1));
        }
        i = i + 1;
    }
    true
}

/// Whether `a` comes strictly before `b`.
pub fn is_text_lt(a: &str, b: &str) -> (r: bool)
    ensures
        r == text_lt(a@, b@),
{
    let back: bool = is_text_le(b, a);
    proof {
        lemma_text_le_total(a@, b@);
        if text_le(a@, b@) && text_le(b@, a@) {
            lemma_text_le_antisymmetric(a@, b@);
        }
        lemma_text_le_reflexive(a@);
    }
    !back
}

// ── Sorted lists of names ────────────────────────────────────────────────────

/// Strictly increasing: sorted, and nothing occurs twice.
pub open spec fn strictly_sorted(s: Seq<Seq<char>>) -> bool {
    forall|i: int, j: int| 0 <= i < j < s.len() ==> text_lt(#[trigger] s[i], #[trigger] s[j])
}

/// A strictly sorted list is determined by what it contains.
pub proof fn lemma_strictly_sorted_unique(a: Seq<Seq<char>>, b: Seq<Seq<char>>)
    requires
        strictly_sorted(a),
        strictly_sorted(b),
        forall|t: Seq<char>| a.contains(t) <==> b.contains(t),
    ensures
        a == b,
    decreases a.len(),
{
    if a.len() == 0 {
        if b.len() > 0 {
            assert(b.contains(b[0]));
        }
        assert(a =~= b);
    } else {
        assert(a.contains(a.last()));
        assert(b.contains(a.last()));
        assert(b.contains(b.last()));
        assert(a.contains(b.last()));
        let i = choose|i: int| 0 <= i < b.len() && b[i] == a.last();
        let j = choose|j: int| 0 <= j < a.len() && a[j] == b.last();
        if i < b.len() - 1 {
            assert(text_lt(b[i], b[b.len() - 1]));
            assert(text_le(a.last(), b.last()));
            if j < a.len() - 1 {
                assert(text_lt(a[j], a[a.len() - 1]));
                lemma_text_le_antisymmetric(a.last(), b.last());
            }
        }
        assert(a.last() == b.last());
        let a1 = a.drop_last();
        let b1 = b.drop_last();
        assert forall|t: Seq<char>| a1.contains(t) <==> b1.contains(t) by {
            if a1.contains(t) {
                let k = choose|k: int| 0 <= k < a1.len() && a1[k] == t;
                assert(text_lt(a[k], a[a.len() - 1]));
                assert(a[k] == t);
                assert(a.contains(t));
                assert(b.contains(t));
                let m = choose|m: int| 0 <= m < b.len() && b[m] == t;
                assert(m < b.len() - 1);
                assert(b1[m] == t);
            }
            if b1.contains(t) {
                let k = choose|k: int| 0 <= k < b1.len() && b1[k] == t;
                assert(text_lt(b[k], b[b.len() - 1]));
                assert(b[k] == t);
                assert(b.contains(t));
                assert(a.contains(t));
                let m = choose|m: int| 0 <= m < a.len() && a[m] == t;
                assert(m < a.len() - 1);
                assert(a1[m] == t);
            }
        }
        assert(strictly_sorted(a1));
        assert(strictly_sorted(b1));
        lemma_strictly_sorted_unique(a1, b1);
        assert(a =~= a1.push(a.last()));
        assert(b =~= b1.push(b.last()));
    }
}

/// Puts `t` into a strictly sorted list, unless it is there already.
pub fn insert_sorted(v: &mut Vec<String>, t: &str)
    requires
        strictly_sorted(text::texts(old(v)@)),
    ensures
        strictly_sorted(text::texts(final(v)@)),
        forall|x: Seq<char>|
            text::texts(final(v)@).contains(x) <==> text::texts(old(v)@).contains(x) || x == t@,
        text::texts(old(v)@).contains(t@) ==> text::texts(final(v)@) == text::texts(old(v)@),
        !text::texts(old(v)@).contains(t@) ==> final(v).len() == old(v).len() + 1,
{
    let ghost start = text::texts(v@);
    let mut p: usize = 0;
    while p < v.len() && is_text_lt(v[p].as_str(), t)
        invariant
            p <= v.len(),
            start == text::texts(v@),
            forall|i: int| 0 <= i < p ==> text_lt(#[trigger] start[i], t@),
        decreases v.len() - p,
    {
        proof {
            assert(start[p as int] == v[p as int]@);
        }
        p = p + 1;
    }
    let known: bool = if p < v.len() {
        text::same_text(v[p].as_str(), t)
    } else {
        false
    };
    if known {
        proof {
            assert(start[p as int] == t@);
        }
        return;
    }
    proof {
        assert forall|i: int| p <= i < start.len() implies text_lt(t@, #[trigger] start[i]) by {
            lemma_text_le_total(start[p as int], t@);
            assert(start[p as int] == v[p as int]@);
            assert(text_le(t@, start[p as int]));
            if i > p {
                assert(text_lt(start[p as int], start[i]));
                lemma_text_le_transitive(t@, start[p as int], start[i]);
                if t@ == start[i] {
                    lemma_text_le_antisymmetric(start[p as int], t@);
                }
            }
        }
    }
    let ghost before = v@;
    let item: String = t.to_owned();
    v.insert(p, item);
    proof {
        let end = text::texts(v@);
        assert(end =~= start.insert(p as int, t@));
        assert(!start.contains(t@));
        assert forall|x: Seq<char>| end.contains(x) <==> start.contains(x) || x == t@ by {
            if start.contains(x) {
                let k = choose|k: int| 0 <= k < start.len() && start[k] == x;
                if k < p {
                    assert(end[k] == x);
                } else {
                    assert(end[k + 1] == x);
                }
            }
            if x == t@ {
                assert(end[p as int] == x);
            }
            if end.contains(x) {
                let k = choose|k: int| 0 <= k < end.len() && end[k] == x;
                if k < p {
                    assert(start[k] == x);
                } else if k > p {
                    assert(start[k - 1] == x);
                }
            }
        }
    }
}

/// Puts every text of `v` into a strictly sorted list.
pub fn insert_all(out: &mut Vec<String>, v: &Vec<String>)
    requires
        strictly_sorted(text::texts(old(out)@)),
    ensures
        strictly_sorted(text::texts(final(out)@)),
        forall|x: Seq<char>|
            #[trigger] text::texts(final(out)@).contains(x) <==> text::texts(old(out)@).contains(x)
                || text::texts(v@).contains(x),
{
    let ghost start = text::texts(out@);
    let mut i: usize = 0;
    proof {
        assert(text::texts(v@).take(0) =~= Seq::<Seq<char>>::empty());
    }
    while i < v.len()
        invariant
            i <= v.len(),
            strictly_sorted(text::texts(out@)),
            forall|x: Seq<char>|
                #[trigger] text::texts(out@).contains(x) <==> start.contains(x) || text::texts(v@).take(
                    i as int,
                ).contains(x),
        decreases v.len() - i,
    {
        let ghost before = text::texts(out@);
        insert_sorted(out, v[i].as_str());
        proof {
            let all = text::texts(v@);
            assert(all[i as int] == v[i as int]@);
            assert(all.take(i + 1) =~= all.take(i as int).push(all[i as int]));
            assert forall|x: Seq<char>|
                #[trigger] text::texts(out@).contains(x) <==> start.contains(x) || all.take(i + 1).contains(
                    x,
                ) by {
                assert(before.contains(x) <==> start.contains(x) || all.take(i as int).contains(x));
                let shorter = all.take(i as int);
                if shorter.contains(x) {
                    let k = choose|k: int| 0 <= k < shorter.len() && shorter[k] == x;
                    assert(all.take(i + 1)[k] == x);
                }
                if x == v[i as int]@ {
                    assert(all.take(i + 1)[i as int] == x);
                }
                let longer = all.take(i + 1);
                if longer.contains(x) {
                    let k = choose|k: int| 0 <= k < longer.len() && longer[k] == x;
                    if k < i {
                        assert(shorter[k] == x);
                    }
                }
            }
        }
        i = i + 1;
    }
    proof {
        assert(text::texts(v@).take(v.len() as int) =~= text::texts(v@));
    }
}

/// The distinct texts of `v` in increasing order.
pub fn sorted_distinct(v: &Vec<String>) -> (r: Vec<String>)
    ensures
        strictly_sorted(text::texts(r@)),
        forall|x: Seq<char>| text::texts(r@).contains(x) <==> text::texts(v@).contains(x),
{
    let mut out: Vec<String> = Vec::new();
    proof {
        assert(text::texts(out@) =~= Seq::<Seq<char>>::empty());
    }
    insert_all(&mut out, v);
    out
}

/// The texts of `s` with `sep` between neighbours.
pub open spec fn joined(s: Seq<Seq<char>>, sep: Seq<char>) -> Seq<char>
    decreases s.len(),
{
    if s.len() == 0 {
        seq![]
    } else if s.len() == 1 {
        s[0]
    } else {
        joined(s.drop_last(), sep) + sep + s.last()
    }
}

/// `[String]::join`: the strings with `sep` between neighbours.
pub fn join(v: &Vec<String>, sep: &str) -> (r: String)
    ensures
        r@ == joined(text::texts(v@), sep@),
{
    let mut out: String = String::new();
    let mut i: usize = 0;
    let ghost all = text::texts(v@);
    while i < v.len()
        invariant
            i <= v.len(),
            all == text::texts(v@),
            out@ == joined(all.take(i as int), sep@),
        decreases v.len() - i,
    {
        proof {
            assert(all.take(i + 1).drop_last() =~= all.take(i as int));
            assert(all.take(i + 1).last() == v[i as int]@);
        }
        if i > 0 {
            out.append(sep);
            out.append(v[i].as_str());
        } else {
            out.append(v[i].as_str());
            proof {
                assert(out@ =~= v[0]@);
            }
        }
        i = i + 1;
    }
    proof {
        assert(all.take(v.len() as int) =~= all);
    }
    out
}

// ── Stable orderings by key ──────────────────────────────────────────────────

/// Whether position `a` comes before position `b` when ordered by key, equal keys keeping
/// their order.
pub open spec fn precedes(keys: Seq<i64>, a: int, b: int) -> bool {
    keys[a] < keys[b] || (keys[a] == keys[b] && a < b)
}

/// `p` lists every position of `keys` once, by increasing key, equal keys keeping their order.
pub open spec fn is_stable_order(keys: Seq<i64>, p: Seq<usize>) -> bool {
    &&& p.len() == keys.len()
    &&& forall|i: int| 0 <= i < p.len() ==> (#[trigger] p[i]) < keys.len()
    &&& forall|i: int, j: int|
        0 <= i < j < p.len() ==> precedes(keys, #[trigger] p[i] as int, #[trigger] p[j] as int)
}

/// Positions of `keys` by increasing key, equal keys keeping their order.
pub fn stable_order(keys: &Vec<i64>) -> (p: Vec<usize>)
    ensures
        is_stable_order(keys@, p@),
{
    let mut out: Vec<usize> = Vec::new();
    let mut n: usize = 0;
    while n < keys.len()
        invariant
            n <= keys.len(),
            out.len() == n,
            forall|i: int| 0 <= i < out.len() ==> (#[trigger] out[i]) < n,
            forall|i: int, j: int|
                0 <= i < j < out.len() ==> precedes(
                    keys@,
                    #[trigger] out[i] as int,
                    #[trigger] out[j] as int,
                ),
        decreases keys.len() - n,
    {
        let mut q: usize = n;
        while q > 0 && keys[out[q - 1]] > keys[n]
            invariant
                q <= n < keys.len(),
                out.len() == n,
                forall|i: int| 0 <= i < out.len() ==> (#[trigger] out[i]) < n,
                forall|i: int| q <= i < n ==> keys[(#[trigger] out[i]) as int] > keys[n as int],
            decreases q,
        {
            q = q - 1;
        }
        let ghost before = out@;
        out.insert(q, n);
        proof {
            assert forall|i: int, j: int| 0 <= i < j < out.len() implies precedes(
                keys@,
                #[trigger] out[i] as int,
                #[trigger] out[j] as int,
            ) by {
                let bi = if i < q { i } else { i - 1 };
                let bj = if j < q { j } else { j - 1 };
                if i == q {
                    assert(out[j] == before[j - 1]);
                } else if j == q {
                    assert(out[i] == before[i]);
                    if i < q - 1 {
                        assert(precedes(keys@, before[i] as int, before[q - 1] as int));
                    }
                } else {
                    assert(out[i] == before[bi] && out[j] == before[bj]);
                }
            }
            assert forall|i: int| 0 <= i < out.len() implies (#[trigger] out[i]) < n + 1 by {
                if i < q {
                    assert(out[i] == before[i]);
                } else if i > q {
                    assert(out[i] == before[i - 1]);
                }
            }
        }
        n = n + 1;
    }
    out
}

/// Whether position `a` comes before position `b` when ordered by decreasing number, equal
/// numbers keeping their order.
pub open spec fn descends(v: Seq<Number>, a: int, b: int) -> bool {
    v[a].place() > v[b].place() || (v[a].place() == v[b].place() && a < b)
}

/// `p` lists every position of `v` once, by decreasing number, equal numbers keeping their order.
pub open spec fn is_descending(v: Seq<Number>, p: Seq<usize>) -> bool {
    &&& p.len() == v.len()
    &&& forall|i: int| 0 <= i < p.len() ==> (#[trigger] p[i]) < v.len()
    &&& forall|i: int, j: int|
        0 <= i < j < p.len() ==> descends(v, #[trigger] p[i] as int, #[trigger] p[j] as int)
}

/// Positions of `v` by decreasing number, equal numbers keeping their order.
pub fn descending_order(v: &Vec<Number>) -> (p: Vec<usize>)
    ensures
        is_descending(v@, p@),
{
    let mut keys: Vec<i64> = Vec::new();
    let mut i: usize = 0;
    while i < v.len()
        invariant
            i <= v.len(),
            keys.len() == i,
            forall|k: int| 0 <= k < i ==> (#[trigger] keys[k]) == -v[k].place(),
        decreases v.len() - i,
    {
        keys.push(-v[i].key());
        i = i + 1;
    }
    let p: Vec<usize> = stable_order(&keys);
    proof {
        assert forall|a: int, b: int| 0 <= a < b < p.len() implies descends(
            v@,
            #[trigger] p@[a] as int,
            #[trigger] p@[b] as int,
        ) by {
            assert(precedes(keys@, p@[a] as int, p@[b] as int));
        }
    }
    p
}

/// A list of as many different positions as there are lists them all.
proof fn lemma_all_listed(p: Seq<usize>, i: int)
    requires
        p.no_duplicates(),
        forall|k: int| 0 <= k < p.len() ==> (#[trigger] p[k]) < p.len(),
        0 <= i < p.len(),
    ensures
        exists|k: int| 0 <= k < p.len() && #[trigger] p[k] == i,
{
    let s = p.map_values(|x: usize| x as int);
    assert(s.no_duplicates());
    let all = vstd::set_lib::set_int_range(0, p.len() as int);
    vstd::set_lib::lemma_int_range(0, p.len() as int);
    s.unique_seq_to_set();
    assert(s.to_set().subset_of(all)) by {
        assert forall|x: int| s.to_set().contains(x) implies all.contains(x) by {
            let k = choose|k: int| 0 <= k < s.len() && s[k] == x;
            assert(p[k] < p.len());
        }
    }
    vstd::set_lib::lemma_subset_equality(s.to_set(), all);
    assert(s.to_set().contains(i));
    let k = choose|k: int| 0 <= k < s.len() && s[k] == i;
    assert(p[k] == i);
}

/// An order by decreasing number leaves no position out.
pub proof fn every_position_is_listed(v: Seq<Number>, p: Seq<usize>, i: int)
    requires
        is_descending(v, p),
        0 <= i < v.len(),
    ensures
        exists|k: int| 0 <= k < p.len() && #[trigger] p[k] == i,
{
    assert forall|a: int, b: int| 0 <= a < p.len() && 0 <= b < p.len() && a != b implies p[a]
        != p[b] by {
        if a < b {
            assert(descends(v, p[a] as int, p[b] as int));
        } else {
            assert(descends(v, p[b] as int, p[a] as int));
        }
    }
    lemma_all_listed(p, i);
}

/// There is one order by key that keeps equal keys as they stand.
pub proof fn stable_order_is_unique(keys: Seq<i64>, p: Seq<usize>, q: Seq<usize>)
    requires
        is_stable_order(keys, p),
        is_stable_order(keys, q),
    ensures
        p == q,
{
    let leq = |a: usize, b: usize| a == b || precedes(keys, a as int, b as int);
    lemma_counts(keys, p);
    lemma_counts(keys, q);
    assert(p.to_multiset() =~= q.to_multiset());
    assert(vstd::relations::sorted_by(p, leq));
    assert(vstd::relations::sorted_by(q, leq));
    assert(vstd::relations::total_ordering(leq));
    vstd::seq_lib::lemma_sorted_unique(p, q, leq);
}

/// An order by key lists every position once.
proof fn lemma_counts(keys: Seq<i64>, p: Seq<usize>)
    requires
        is_stable_order(keys, p),
    ensures
        forall|x: usize| #[trigger]
            p.to_multiset().count(x) == (if x < keys.len() {
                1nat
            } else {
                0nat
            }),
{
    broadcast use vstd::seq_lib::group_to_multiset_ensures;

    assert forall|a: int, b: int| 0 <= a < p.len() && 0 <= b < p.len() && a != b implies p[a]
        != p[b] by {
        if a < b {
            assert(precedes(keys, p[a] as int, p[b] as int));
        } else {
            assert(precedes(keys, p[b] as int, p[a] as int));
        }
    }
    p.lemma_multiset_has_no_duplicates();
    assert forall|x: usize| #[trigger]
        p.to_multiset().count(x) == (if x < keys.len() {
            1nat
        } else {
            0nat
        }) by {
        if x < keys.len() {
            lemma_all_listed(p, x as int);
            assert(p.contains(x));
        } else if p.contains(x) {
            let k = choose|k: int| 0 <= k < p.len() && p[k] == x;
            assert(p[k] < keys.len());
        }
    }
}

/// Where the elements that are kept by a filter stand: at increasing positions, and at all those
/// of an element that is kept.
pub proof fn lemma_filter_positions<A>(s: Seq<A>, keep: spec_fn(A) -> bool) -> (idx: Seq<int>)
    ensures
        idx.len() == s.filter(keep).len(),
        forall|k: int|
            0 <= k < idx.len() ==> 0 <= (#[trigger] idx[k]) < s.len() && keep(s[idx[k]])
                && s.filter(keep)[k] == s[idx[k]],
        forall|j: int, k: int| 0 <= j < k < idx.len() ==> (#[trigger] idx[j]) < (#[trigger] idx[k]),
        forall|i: int|
            0 <= i < s.len() && keep(#[trigger] s[i]) ==> exists|k: int|
                0 <= k < idx.len() && #[trigger] idx[k] == i,
    decreases s.len(),
{
    reveal(Seq::filter);
    if s.len() == 0 {
        seq![]
    } else {
        let init = s.drop_last();
        let before = lemma_filter_positions(init, keep);
        let idx = if keep(s.last()) {
            before.push(s.len() - 1)
        } else {
            before
        };
        assert forall|k: int| 0 <= k < idx.len() implies 0 <= (#[trigger] idx[k]) < s.len() && keep(
            s[idx[k]],
        ) && s.filter(keep)[k] == s[idx[k]] by {
            if k < before.len() {
                assert(idx[k] == before[k]);
                assert(init[before[k]] == s[before[k]]);
            }
        }
        assert forall|i: int| 0 <= i < s.len() && keep(#[trigger] s[i]) implies exists|k: int|
            0 <= k < idx.len() && #[trigger] idx[k] == i by {
            if i < init.len() {
                assert(init[i] == s[i]);
                let k = choose|k: int| 0 <= k < before.len() && #[trigger] before[k] == i;
                assert(idx[k] == i);
            } else {
                assert(idx[before.len() as int] == i);
            }
        }
        idx
    }
}

/// Texts are ordered as dictionaries order them: by the first character in which they differ, a
/// text before its continuations.
pub proof fn texts_are_ordered_by_their_first_difference(
    a: &str,
    b: &str,
    le: bool,
    lt: bool,
    k: int,
)
    requires
        call_ensures(is_text_le, (a, b), le),
        call_ensures(is_text_lt, (a, b), lt),
        0 <= k <= a@.len(),
        k <= b@.len(),
        forall|j: int| 0 <= j < k ==> a@[j] == b@[j],
    ensures
        k < a@.len() && k < b@.len() && a@[k] < b@[k] ==> le && lt,
        k < a@.len() && k < b@.len() && a@[k] > b@[k] ==> !le && !lt,
        k == a@.len() ==> le,
        k == b@.len() && k < a@.len() ==> !le,
        k == a@.len() && k < b@.len() ==> lt,
        k == a@.len() && k == b@.len() ==> !lt,
{
    lemma_first_difference(a@, b@, k);
    if k == a@.len() && k == b@.len() {
        assert(a@ =~= b@);
    }
}

proof fn lemma_first_difference(a: Seq<char>, b: Seq<char>, k: int)
    requires
        0 <= k <= a.len(),
        k <= b.len(),
        forall|j: int| 0 <= j < k ==> a[j] == b[j],
    ensures
        k < a.len() && k < b.len() && a[k] < b[k] ==> text_le(a, b),
        k < a.len() && k < b.len() && a[k] > b[k] ==> !text_le(a, b),
        k == a.len() ==> text_le(a, b),
        k == b.len() && k < a.len() ==> !text_le(a, b),
    decreases k,
{
    if k > 0 {
        assert(a[0] == b[0]);
        assert forall|j: int| 0 <= j < k - 1 implies a.drop_first()[j] == b.drop_first()[j] by {
            assert(a[j + 1] == b[j + 1]);
        }
        lemma_first_difference(a.drop_first(), b.drop_first(), k - 1);
    }
}

/// A list in order has each of its texts once, all those that were given and no others.
pub proof fn sorted_lists_have_each_text_once(v: Vec<String>, r: Vec<String>, i: int, j: int)
    requires
        call_ensures(sorted_distinct, (&v,), r),
    ensures
        0 <= i < v@.len() ==> text::texts(r@).contains(v@[i]@),
        0 <= i < r@.len() ==> text::texts(v@).contains(r@[i]@),
        0 <= i < j < r@.len() ==> r@[i]@ != r@[j]@ && text_le(r@[i]@, r@[j]@),
{
    let a = text::texts(v@);
    let b = text::texts(r@);
    let args = (&v,);
    if 0 <= i < v@.len() {
        assert(a[i] == v@[i]@);
        assert(a.contains(v@[i]@));
        assert(b.contains(v@[i]@) <==> text::texts(args.0@).contains(v@[i]@));
    }
    if 0 <= i < r@.len() {
        assert(b[i] == r@[i]@);
        assert(b.contains(r@[i]@));
    }
    if 0 <= i < j < r@.len() {
        assert(text_lt(b[i], b[j]));
    }
}

/// Joining puts the separator between texts: one more text adds it and the text.
pub proof fn joining_puts_the_separator_between(
    v: Vec<String>,
    w: Vec<String>,
    sep: &str,
    a: String,
    b: String,
)
    requires
        call_ensures(join, (&v, sep), a),
        call_ensures(join, (&w, sep), b),
        w@.len() == v@.len() + 1,
        forall|i: int| 0 <= i < v@.len() ==> (#[trigger] w@[i])@ == v@[i]@,
    ensures
        v@.len() > 0 ==> b@ == a@ + sep@ + w@[w@.len() - 1]@,
        v@.len() == 0 ==> b@ == w@[0]@ && a@.len() == 0,
{
    let s = text::texts(v@);
    let t = text::texts(w@);
    assert(t.drop_last() =~= s);
    assert(t.last() == w@[w@.len() - 1]@);
}

/// Positions are listed by decreasing number, equal numbers keeping their order, and by increasing
/// key in the same way.
pub proof fn orders_are_stable(v: Vec<Number>, p: Vec<usize>, keys: Vec<i64>, q: Vec<usize>, i: int, j: int)
    requires
        call_ensures(descending_order, (&v,), p),
        call_ensures(stable_order, (&keys,), q),
    ensures
        p@.len() == v@.len() && q@.len() == keys@.len(),
        0 <= i < j < p@.len() ==> p@[i] < v@.len() && p@[j] < v@.len() && v@[p@[i] as int].place()
            >= v@[p@[j] as int].place() && (v@[p@[i] as int].place() == v@[p@[j] as int].place()
            ==> p@[i] < p@[j]),
        0 <= i < j < q@.len() ==> q@[i] < keys@.len() && q@[j] < keys@.len() && keys@[q@[i] as int]
            <= keys@[q@[j] as int] && (keys@[q@[i] as int] == keys@[q@[j] as int] ==> q@[i]
            < q@[j]),
{
    if 0 <= i < j < p@.len() {
        assert(descends(v@, p@[i] as int, p@[j] as int));
    }
    if 0 <= i < j < q@.len() {
        assert(precedes(keys@, q@[i] as int, q@[j] as int));
    }
}

} // verus!
