//! The industry classification: sectors, industry groups and industries.

use vstd::prelude::*;
use vstd::utf8::*;

use crate::order;
use crate::text;

verus! {

/// A sector.
#[derive(Debug)]
pub struct Sector {
    pub code: u32,
    pub name: String,
}

/// An industry group of a sector.
#[derive(Debug)]
pub struct IndustryGroup {
    pub code: u32,
    pub name: String,
    pub sector_code: u32,
}

/// An industry of an industry group.
#[derive(Debug)]
pub struct Industry {
    pub code: u32,
    pub name: String,
    pub industry_group_code: u32,
    pub sector_code: u32,
}

/// A row of the classification's table.
#[derive(Debug)]
pub struct GicsRow {
    pub sector_code: u32,
    pub sector_name: String,
    pub industry_group_code: u32,
    pub industry_group_name: String,
    pub industry_code: u32,
    pub industry_name: String,
}

/// The classification.
#[derive(Debug)]
pub struct GicsTaxonomy {
    pub sectors: Vec<Sector>,
    pub industry_groups: Vec<IndustryGroup>,
    pub industries: Vec<Industry>,
}

/// What a sector says.
pub open spec fn sector_view(s: Sector) -> (u32, Seq<char>) {
    (s.code, s.name@)
}

/// What an industry group says.
pub open spec fn group_view(g: IndustryGroup) -> (u32, Seq<char>, u32) {
    (g.code, g.name@, g.sector_code)
}

/// What an industry says.
pub open spec fn industry_view(i: Industry) -> (u32, Seq<char>, u32, u32) {
    (i.code, i.name@, i.industry_group_code, i.sector_code)
}

/// The sectors of rows: each once, as its first row names it.
pub open spec fn sectors_of(rows: Seq<GicsRow>) -> Seq<(u32, Seq<char>)>
    decreases rows.len(),
{
    if rows.len() == 0 {
        seq![]
    } else {
        let rest = sectors_of(rows.drop_last());
        let row = rows.last();
        if exists|k: int| 0 <= k < rest.len() && (#[trigger] rest[k]).0 == row.sector_code {
            rest
        } else {
            rest.push((row.sector_code, row.sector_name@))
        }
    }
}

/// The industry groups of rows: each once, as its first row names it.
pub open spec fn groups_of(rows: Seq<GicsRow>) -> Seq<(u32, Seq<char>, u32)>
    decreases rows.len(),
{
    if rows.len() == 0 {
        seq![]
    } else {
        let rest = groups_of(rows.drop_last());
        let row = rows.last();
        if exists|k: int|
            0 <= k < rest.len() && (#[trigger] rest[k]).0 == row.industry_group_code {
            rest
        } else {
            rest.push((row.industry_group_code, row.industry_group_name@, row.sector_code))
        }
    }
}

/// The industries of rows, one to a row.
pub open spec fn industries_of(rows: Seq<GicsRow>) -> Seq<(u32, Seq<char>, u32, u32)> {
    rows.map_values(
        |r: GicsRow| (r.industry_code, r.industry_name@, r.industry_group_code, r.sector_code),
    )
}

/// A name as it is looked up: in lower case, its words apart by single spaces.
pub open spec fn normal(s: Seq<char>) -> Seq<char> {
    order::joined(text::words_from(text::lower_text(text::trimmed(s)), 0), " "@)
}

/// A name as it is looked up.
pub fn normalise(s: &str) -> (r: String)
    ensures
        r@ == normal(s@),
        forall|i: int| 0 <= i < r@.len() ==> !text::capital(#[trigger] r@[i]),
{
    let t: String = text::trim(s);
    let lower: String = text::to_lower(t.as_str());
    let words: Vec<String> = text::words(lower.as_str());
    let r: String = order::join(&words, " ");
    proof {
        let small = |c: char| !text::capital(c);
        assert(text::all_are(lower@, small));
        lemma_spacing_adds_nothing(lower@, small);
        assert forall|i: int| 0 <= i < r@.len() implies !text::capital(#[trigger] r@[i]) by {
            assert(small(r@[i]));
        }
    }
    r
}

/// Words with single blanks between them hold no other characters.
proof fn lemma_joined_adds_nothing(ws: Seq<Seq<char>>, p: spec_fn(char) -> bool)
    requires
        forall|k: int| 0 <= k < ws.len() ==> text::all_are(#[trigger] ws[k], p),
        p(' '),
    ensures
        text::all_are(order::joined(ws, " "@), p),
    decreases ws.len(),
{
    reveal_strlit(" ");
    if ws.len() == 1 {
        assert(text::all_are(ws[0], p));
    } else if ws.len() > 1 {
        let init = ws.drop_last();
        assert forall|k: int| 0 <= k < init.len() implies text::all_are(#[trigger] init[k], p) by {
            assert(text::all_are(ws[k], p));
        }
        lemma_joined_adds_nothing(init, p);
        let before = order::joined(init, " "@);
        let last = ws[ws.len() - 1];
        assert(text::all_are(last, p));
        let all = order::joined(ws, " "@);
        assert forall|i: int| 0 <= i < all.len() implies p(#[trigger] all[i]) by {
            if i < before.len() {
                assert(all[i] == before[i]);
            } else if i == before.len() {
                assert(all[i] == ' ');
            } else {
                assert(all[i] == last[i - before.len() - 1]);
            }
        }
    }
}

/// Spacing out a text adds blanks alone.
proof fn lemma_spacing_adds_nothing(s: Seq<char>, p: spec_fn(char) -> bool)
    requires
        text::all_are(s, p),
        p(' '),
    ensures
        text::all_are(order::joined(text::words_from(s, 0), " "@), p),
{
    text::words_add_nothing(s, 0, p);
    lemma_joined_adds_nothing(text::words_from(s, 0), p);
}

/// `i` is the last industry with a code.
pub open spec fn last_with_code(s: Seq<Industry>, code: u32, i: int) -> bool {
    0 <= i < s.len() && s[i].code == code && forall|j: int|
        i < j < s.len() ==> (#[trigger] s[j]).code != code
}

/// `i` is the last industry with a name.
pub open spec fn last_with_name(s: Seq<Industry>, name: Seq<char>, i: int) -> bool {
    0 <= i < s.len() && normal(s[i].name@) == normal(name) && forall|j: int|
        i < j < s.len() ==> normal((#[trigger] s[j]).name@) != normal(name)
}

/// Industries that are not excluded.
pub open spec fn not_excluded(s: Seq<Industry>, exclude: Seq<u32>) -> Seq<Industry> {
    s.filter(|i: Industry| !exclude.contains(i.code))
}

/// The industries of a sector, in order.
pub open spec fn of_sector(s: Seq<Industry>, sector_code: u32) -> Seq<Industry> {
    s.filter(|i: Industry| i.sector_code == sector_code)
}

/// The industries of the first `n` sectors, sector after sector.
pub open spec fn by_sector(sectors: Seq<Sector>, s: Seq<Industry>, n: int) -> Seq<Industry>
    decreases n,
{
    if n <= 0 {
        seq![]
    } else {
        by_sector(sectors, s, n - 1) + of_sector(s, sectors[n - 1].code)
    }
}

/// Whether a sector is listed.
pub open spec fn has_sector_code(s: Seq<Sector>, code: u32) -> bool {
    exists|k: int| 0 <= k < s.len() && (#[trigger] s[k]).code == code
}

/// Whether an industry group is listed.
pub open spec fn has_group_code(s: Seq<IndustryGroup>, code: u32) -> bool {
    exists|k: int| 0 <= k < s.len() && (#[trigger] s[k]).code == code
}

/// Whether an input means the industry `r`: by its code where the input is a number, otherwise by
/// its name, and the last one where there are several.
pub open spec fn means(s: Seq<Industry>, input: Seq<char>, r: Option<Industry>) -> bool {
    if text::is_number_upto(text::trimmed(input), u32::MAX as int) {
        let code = text::digits_value(text::unsigned_part(text::trimmed(input))) as u32;
        match r {
            Some(x) => exists|i: int| #[trigger] last_with_code(s, code, i) && s[i] == x,
            None => forall|i: int| 0 <= i < s.len() ==> (#[trigger] s[i]).code != code,
        }
    } else {
        match r {
            Some(x) => exists|i: int| #[trigger] last_with_name(s, input, i) && s[i] == x,
            None => forall|i: int|
                0 <= i < s.len() ==> normal((#[trigger] s[i]).name@) != normal(input),
        }
    }
}

impl GicsTaxonomy {
    /// No two sectors and no two industry groups share a code, and every industry belongs to a
    /// sector and a group that are listed.
    pub open spec fn well_formed(&self) -> bool {
        &&& forall|i: int|
            0 <= i < self.industries@.len() ==> has_sector_code(
                self.sectors@,
                (#[trigger] self.industries@[i]).sector_code,
            ) && has_group_code(self.industry_groups@, self.industries@[i].industry_group_code)
        &&& forall|i: int, j: int|
            0 <= i < j < self.sectors@.len() ==> (#[trigger] self.sectors@[i]).code != (
            #[trigger] self.sectors@[j]).code
        &&& forall|i: int, j: int|
            0 <= i < j < self.industry_groups@.len() ==> (
            #[trigger] self.industry_groups@[i]).code != (
            #[trigger] self.industry_groups@[j]).code
    }

    /// The classification that rows describe.
    pub fn from_rows(rows: &Vec<GicsRow>) -> (r: GicsTaxonomy)
        ensures
            r.well_formed(),
            r.sectors@.map_values(|s: Sector| sector_view(s)) == sectors_of(rows@),
            r.industry_groups@.map_values(|g: IndustryGroup| group_view(g)) == groups_of(rows@),
            r.industries@.map_values(|i: Industry| industry_view(i)) == industries_of(rows@),
    {
        let ghost see_s = |s: Sector| sector_view(s);
        let ghost see_g = |g: IndustryGroup| group_view(g);
        let ghost see_i = |i: Industry| industry_view(i);
        let mut t: GicsTaxonomy = GicsTaxonomy {
            sectors: Vec::new(),
            industry_groups: Vec::new(),
            industries: Vec::new(),
        };
        let mut i: usize = 0;
        proof {
            assert(rows@.take(0) =~= seq![]);
            assert(t.sectors@.map_values(see_s) =~= seq![]);
            assert(t.industry_groups@.map_values(see_g) =~= seq![]);
            assert(t.industries@.map_values(see_i) =~= industries_of(rows@.take(0)));
        }
        while i < rows.len()
            invariant
                i <= rows@.len(),
                see_s == (|s: Sector| sector_view(s)),
                see_g == (|g: IndustryGroup| group_view(g)),
                see_i == (|i: Industry| industry_view(i)),
                t.well_formed(),
                t.sectors@.map_values(see_s) == sectors_of(rows@.take(i as int)),
                t.industry_groups@.map_values(see_g) == groups_of(rows@.take(i as int)),
                t.industries@.map_values(see_i) == industries_of(rows@.take(i as int)),
            decreases rows@.len() - i,
        {
            let ghost before = t;
            let row: &GicsRow = &rows[i];
            proof {
                assert(rows@.take(i + 1).drop_last() =~= rows@.take(i as int));
                assert(rows@.take(i + 1).last() == rows@[i as int]);
            }
            let known_sector: bool = t.has_sector(row.sector_code);
            let known_group: bool = t.has_group(row.industry_group_code);
            proof {
                let rest_s = sectors_of(rows@.take(i as int));
                let rest_g = groups_of(rows@.take(i as int));
                assert(known_sector == exists|k: int|
                    0 <= k < rest_s.len() && (#[trigger] rest_s[k]).0 == row.sector_code) by {
                    assert forall|k: int| 0 <= k < rest_s.len() implies (#[trigger] rest_s[k]).0
                        == t.sectors@[k].code by {
                        assert(t.sectors@.map_values(see_s)[k] == sector_view(t.sectors@[k]));
                    }
                    if known_sector {
                        let k = choose|k: int|
                            0 <= k < t.sectors@.len() && (#[trigger] t.sectors@[k]).code
                                == row.sector_code;
                        assert(rest_s[k].0 == row.sector_code);
                    }
                }
                assert(known_group == exists|k: int|
                    0 <= k < rest_g.len() && (#[trigger] rest_g[k]).0 == row.industry_group_code)
                    by {
                    assert forall|k: int| 0 <= k < rest_g.len() implies (#[trigger] rest_g[k]).0
                        == t.industry_groups@[k].code by {
                        assert(t.industry_groups@.map_values(see_g)[k] == group_view(
                            t.industry_groups@[k],
                        ));
                    }
                    if known_group {
                        let k = choose|k: int|
                            0 <= k < t.industry_groups@.len() && (
                            #[trigger] t.industry_groups@[k]).code == row.industry_group_code;
                        assert(rest_g[k].0 == row.industry_group_code);
                    }
                }
            }
            if !known_sector {
                t.sectors.push(Sector { code: row.sector_code, name: row.sector_name.clone() });
            }
            if !known_group {
                t.industry_groups.push(
                    IndustryGroup {
                        code: row.industry_group_code,
                        name: row.industry_group_name.clone(),
                        sector_code: row.sector_code,
                    },
                );
            }
            proof {
                assert forall|code: u32| #[trigger]
                    has_sector_code(before.sectors@, code) implies has_sector_code(
                    t.sectors@,
                    code,
                ) by {
                    let k = choose|k: int|
                        0 <= k < before.sectors@.len() && (#[trigger] before.sectors@[k]).code
                            == code;
                    assert(t.sectors@[k].code == code);
                }
                assert forall|code: u32| #[trigger]
                    has_group_code(before.industry_groups@, code) implies has_group_code(
                    t.industry_groups@,
                    code,
                ) by {
                    let k = choose|k: int|
                        0 <= k < before.industry_groups@.len() && (
                        #[trigger] before.industry_groups@[k]).code == code;
                    assert(t.industry_groups@[k].code == code);
                }
                if !known_sector {
                    assert(t.sectors@.last().code == row.sector_code);
                }
                if !known_group {
                    assert(t.industry_groups@.last().code == row.industry_group_code);
                }
                assert(has_sector_code(t.sectors@, row.sector_code));
                assert(has_group_code(t.industry_groups@, row.industry_group_code));
                assert forall|k: int| 0 <= k < before.industries@.len() implies has_sector_code(
                    t.sectors@,
                    (#[trigger] before.industries@[k]).sector_code,
                ) && has_group_code(
                    t.industry_groups@,
                    before.industries@[k].industry_group_code,
                ) by {
                    assert(has_sector_code(
                        before.sectors@,
                        before.industries@[k].sector_code,
                    ));
                    assert(has_group_code(
                        before.industry_groups@,
                        before.industries@[k].industry_group_code,
                    ));
                }
            }
            t.industries.push(
                Industry {
                    code: row.industry_code,
                    name: row.industry_name.clone(),
                    industry_group_code: row.industry_group_code,
                    sector_code: row.sector_code,
                },
            );
            proof {
                if !known_sector {
                    assert(t.sectors@.map_values(see_s) =~= before.sectors@.map_values(see_s).push(
                        (row.sector_code, row.sector_name@),
                    ));
                }
                if !known_group {
                    assert(t.industry_groups@.map_values(see_g)
                        =~= before.industry_groups@.map_values(see_g).push(
                        (row.industry_group_code, row.industry_group_name@, row.sector_code),
                    ));
                }
                assert(t.industries@.map_values(see_i) =~= industries_of(rows@.take(i + 1))) by {
                    let done = industries_of(rows@.take(i as int));
                    let more = industries_of(rows@.take(i + 1));
                    assert(more =~= done.push(more[i as int]));
                    assert(t.industries@.map_values(see_i) =~= before.industries@.map_values(
                        see_i,
                    ).push(industry_view(t.industries@.last())));
                }
            }
            i = i + 1;
        }
        proof {
            assert(rows@.take(rows@.len() as int) =~= rows@);
        }
        t
    }

    /// Whether there is a sector with a code.
    fn has_sector(&self, code: u32) -> (r: bool)
        ensures
            r == exists|k: int|
                0 <= k < self.sectors@.len() && (#[trigger] self.sectors@[k]).code == code,
    {
        let mut i: usize = 0;
        while i < self.sectors.len()
            invariant
                i <= self.sectors@.len(),
                forall|k: int| 0 <= k < i ==> (#[trigger] self.sectors@[k]).code != code,
            decreases self.sectors@.len() - i,
        {
            if self.sectors[i].code == code {
                return true;
            }
            i = i + 1;
        }
        false
    }

    /// Whether there is an industry group with a code.
    fn has_group(&self, code: u32) -> (r: bool)
        ensures
            r == exists|k: int|
                0 <= k < self.industry_groups@.len() && (#[trigger] self.industry_groups@[k]).code
                    == code,
    {
        let mut i: usize = 0;
        while i < self.industry_groups.len()
            invariant
                i <= self.industry_groups@.len(),
                forall|k: int| 0 <= k < i ==> (#[trigger] self.industry_groups@[k]).code != code,
            decreases self.industry_groups@.len() - i,
        {
            if self.industry_groups[i].code == code {
                return true;
            }
            i = i + 1;
        }
        false
    }

    /// The sector with a code.
    pub fn sector_by_code(&self, code: u32) -> (r: Option<&Sector>)
        requires
            self.well_formed(),
        ensures
            match r {
                Some(s) => s.code == code && self.sectors@.contains(*s),
                None => forall|k: int|
                    0 <= k < self.sectors@.len() ==> (#[trigger] self.sectors@[k]).code != code,
            },
    {
        let mut i: usize = 0;
        while i < self.sectors.len()
            invariant
                i <= self.sectors@.len(),
                forall|k: int| 0 <= k < i ==> (#[trigger] self.sectors@[k]).code != code,
            decreases self.sectors@.len() - i,
        {
            if self.sectors[i].code == code {
                proof {
                    assert(self.sectors@[i as int].code == code);
                }
                return Some(&self.sectors[i]);
            }
            i = i + 1;
        }
        None
    }

    /// The industry with a code, the last where there are several.
    pub fn industry_by_code(&self, code: u32) -> (r: Option<&Industry>)
        ensures
            match r {
                Some(x) => exists|i: int| #[trigger]
                    last_with_code(self.industries@, code, i) && self.industries@[i] == *x,
                None => forall|i: int|
                    0 <= i < self.industries@.len() ==> (#[trigger] self.industries@[i]).code
                        != code,
            },
    {
        let mut n: usize = self.industries.len();
        while n > 0
            invariant
                n <= self.industries@.len(),
                forall|j: int|
                    n <= j < self.industries@.len() ==> (#[trigger] self.industries@[j]).code
                        != code,
            decreases n,
        {
            if self.industries[n - 1].code == code {
                proof {
                    assert(last_with_code(self.industries@, code, n - 1));
                }
                return Some(&self.industries[n - 1]);
            }
            n = n - 1;
        }
        None
    }

    /// The industry with a name, whatever its case and spacing, the last where there are several.
    pub fn industry_by_name(&self, name: &str) -> (r: Option<&Industry>)
        ensures
            match r {
                Some(x) => exists|i: int| #[trigger]
                    last_with_name(self.industries@, name@, i) && self.industries@[i] == *x,
                None => forall|i: int|
                    0 <= i < self.industries@.len() ==> normal(
                        (#[trigger] self.industries@[i]).name@,
                    ) != normal(name@),
            },
    {
        let wanted: String = normalise(name);
        let mut n: usize = self.industries.len();
        while n > 0
            invariant
                n <= self.industries@.len(),
                wanted@ == normal(name@),
                forall|j: int|
                    n <= j < self.industries@.len() ==> normal(
                        (#[trigger] self.industries@[j]).name@,
                    ) != normal(name@),
            decreases n,
        {
            let own: String = normalise(self.industries[n - 1].name.as_str());
            if text::same_text(own.as_str(), wanted.as_str()) {
                proof {
                    assert(last_with_name(self.industries@, name@, n - 1));
                }
                return Some(&self.industries[n - 1]);
            }
            n = n - 1;
        }
        None
    }

    /// The industries of a sector, in order.
    pub fn industries_in_sector(&self, sector_code: u32) -> (r: Vec<&Industry>)
        ensures
            r@.map_values(|x: &Industry| *x) == of_sector(self.industries@, sector_code),
    {
        let ghost see = |x: &Industry| *x;
        let ghost keep = |i: Industry| i.sector_code == sector_code;
        let mut out: Vec<&Industry> = Vec::new();
        let mut i: usize = 0;
        proof {
            reveal(Seq::filter);
            assert(self.industries@.take(0) =~= seq![]);
            assert(out@.map_values(see) =~= self.industries@.take(0).filter(keep));
        }
        while i < self.industries.len()
            invariant
                i <= self.industries@.len(),
                see == (|x: &Industry| *x),
                keep == (|i: Industry| i.sector_code == sector_code),
                out@.map_values(see) == self.industries@.take(i as int).filter(keep),
            decreases self.industries@.len() - i,
        {
            let ghost before = out@;
            proof {
                reveal(Seq::filter);
                let s = self.industries@;
                assert(s.take(i + 1).drop_last() =~= s.take(i as int));
                assert(s.take(i + 1).last() == s[i as int]);
            }
            if self.industries[i].sector_code == sector_code {
                out.push(&self.industries[i]);
                proof {
                    assert(out@.map_values(see) =~= before.map_values(see).push(
                        self.industries@[i as int],
                    ));
                }
            }
            i = i + 1;
        }
        proof {
            assert(self.industries@.take(self.industries@.len() as int) =~= self.industries@);
        }
        out
    }

    /// The industries of an industry group, in order.
    pub fn industries_in_group(&self, group_code: u32) -> (r: Vec<&Industry>)
        ensures
            r@.map_values(|x: &Industry| *x) == self.industries@.filter(
                |i: Industry| i.industry_group_code == group_code,
            ),
    {
        let ghost see = |x: &Industry| *x;
        let ghost keep = |i: Industry| i.industry_group_code == group_code;
        let mut out: Vec<&Industry> = Vec::new();
        let mut i: usize = 0;
        proof {
            reveal(Seq::filter);
            assert(self.industries@.take(0) =~= seq![]);
            assert(out@.map_values(see) =~= self.industries@.take(0).filter(keep));
        }
        while i < self.industries.len()
            invariant
                i <= self.industries@.len(),
                see == (|x: &Industry| *x),
                keep == (|i: Industry| i.industry_group_code == group_code),
                out@.map_values(see) == self.industries@.take(i as int).filter(keep),
            decreases self.industries@.len() - i,
        {
            let ghost before = out@;
            proof {
                reveal(Seq::filter);
                let s = self.industries@;
                assert(s.take(i + 1).drop_last() =~= s.take(i as int));
                assert(s.take(i + 1).last() == s[i as int]);
            }
            if self.industries[i].industry_group_code == group_code {
                out.push(&self.industries[i]);
                proof {
                    assert(out@.map_values(see) =~= before.map_values(see).push(
                        self.industries@[i as int],
                    ));
                }
            }
            i = i + 1;
        }
        proof {
            assert(self.industries@.take(self.industries@.len() as int) =~= self.industries@);
        }
        out
    }

    /// The industry that an input means: by its code where the input is a number, otherwise by its
    /// name.
    pub fn resolve(&self, input: &str) -> (r: Option<&Industry>)
        ensures
            means(
                self.industries@,
                input@,
                match r {
                    Some(x) => Some(*x),
                    None => None,
                },
            ),
    {
        let t: String = text::trim(input);
        match text::parse_u32(t.as_str()) {
            Some(code) => {
                proof {
                    assert(code == text::digits_value(
                        text::unsigned_part(text::trimmed(input@)),
                    ) as u32);
                }
                self.industry_by_code(code)
            },
            None => self.industry_by_name(input),
        }
    }

    /// The first `n` industries whose code is not excluded, in order.
    pub fn pick_n(&self, n: usize, exclude_codes: &Vec<u32>) -> (r: Vec<&Industry>)
        ensures
            r@.map_values(|x: &Industry| *x) == ({
                let left = not_excluded(self.industries@, exclude_codes@);
                if left.len() <= n {
                    left
                } else {
                    left.take(n as int)
                }
            }),
    {
        let ghost see = |x: &Industry| *x;
        let ghost keep = |i: Industry| !exclude_codes@.contains(i.code);
        let ghost left = not_excluded(self.industries@, exclude_codes@);
        let mut out: Vec<&Industry> = Vec::new();
        let mut i: usize = 0;
        proof {
            reveal(Seq::filter);
            assert(self.industries@.take(0) =~= seq![]);
            assert(out@.map_values(see) =~= self.industries@.take(0).filter(keep));
        }
        while i < self.industries.len() && out.len() < n
            invariant
                i <= self.industries@.len(),
                out@.len() <= n,
                see == (|x: &Industry| *x),
                keep == (|i: Industry| !exclude_codes@.contains(i.code)),
                out@.map_values(see) == self.industries@.take(i as int).filter(keep),
            decreases self.industries@.len() - i,
        {
            let ghost before = out@;
            proof {
                reveal(Seq::filter);
                let s = self.industries@;
                assert(s.take(i + 1).drop_last() =~= s.take(i as int));
                assert(s.take(i + 1).last() == s[i as int]);
            }
            if !has_code(exclude_codes, self.industries[i].code) {
                out.push(&self.industries[i]);
                proof {
                    assert(out@.map_values(see) =~= before.map_values(see).push(
                        self.industries@[i as int],
                    ));
                }
            }
            i = i + 1;
        }
        proof {
            let s = self.industries@;
            lemma_filter_prefix(s, i as int, keep);
            if i == s.len() {
                assert(s.take(i as int) =~= s);
                assert(left.take(left.len() as int) =~= left);
            }
        }
        out
    }

    /// How many industries there are.
    pub fn industry_count(&self) -> (r: usize)
        ensures
            r == self.industries@.len(),
    {
        self.industries.len()
    }
}

/// Whether a list has a code.
fn has_code(codes: &Vec<u32>, code: u32) -> (r: bool)
    ensures
        r == codes@.contains(code),
{
    let mut i: usize = 0;
    while i < codes.len()
        invariant
            i <= codes@.len(),
            forall|k: int| 0 <= k < i ==> (#[trigger] codes@[k]) != code,
        decreases codes@.len() - i,
    {
        if codes[i] == code {
            return true;
        }
        i = i + 1;
    }
    false
}

/// What is kept of the first elements comes first in what is kept of all.
proof fn lemma_filter_prefix(s: Seq<Industry>, n: int, keep: spec_fn(Industry) -> bool)
    requires
        0 <= n <= s.len(),
    ensures
        s.take(n).filter(keep).len() <= s.filter(keep).len(),
        s.filter(keep).take(s.take(n).filter(keep).len() as int) == s.take(n).filter(keep),
    decreases s.len(),
{
    reveal(Seq::filter);
    if n == s.len() {
        assert(s.take(n) =~= s);
        assert(s.filter(keep).take(s.filter(keep).len() as int) =~= s.filter(keep));
    } else {
        let init = s.drop_last();
        lemma_filter_prefix(init, n, keep);
        assert(init.take(n) =~= s.take(n));
        let k = s.take(n).filter(keep).len() as int;
        assert(s.filter(keep).take(k) =~= init.filter(keep).take(k));
    }
}

/// A further industry goes to its sector and to no other.
proof fn lemma_further_industry(sectors: Seq<Sector>, s: Seq<Industry>, x: Industry, n: int)
    requires
        0 <= n <= sectors.len(),
        forall|i: int, j: int|
            0 <= i < j < sectors.len() ==> (#[trigger] sectors[i]).code != (
            #[trigger] sectors[j]).code,
    ensures
        by_sector(sectors, s.push(x), n).to_multiset() == (if has_sector_code(
            sectors.take(n),
            x.sector_code,
        ) {
            by_sector(sectors, s, n).to_multiset().insert(x)
        } else {
            by_sector(sectors, s, n).to_multiset()
        }),
    decreases n,
{
    broadcast use vstd::seq_lib::group_to_multiset_ensures;

    if n > 0 {
        let code = sectors[n - 1].code;
        lemma_further_industry(sectors, s, x, n - 1);
        let before = by_sector(sectors, s, n - 1);
        let after = by_sector(sectors, s.push(x), n - 1);
        let own = of_sector(s, code);
        let more = of_sector(s.push(x), code);
        assert(s.push(x).drop_last() =~= s);
        reveal(Seq::filter);
        assert(more == (if x.sector_code == code {
            own.push(x)
        } else {
            own
        }));
        vstd::seq_lib::lemma_multiset_commutative(before, own);
        vstd::seq_lib::lemma_multiset_commutative(after, more);
        assert(sectors.take(n)[n - 1].code == code);
        if has_sector_code(sectors.take(n - 1), x.sector_code) {
            let k = choose|k: int|
                0 <= k < n - 1 && (#[trigger] sectors.take(n - 1)[k]).code == x.sector_code;
            assert(sectors[k].code == x.sector_code);
            assert(sectors.take(n)[k].code == x.sector_code);
            assert(x.sector_code != code);
        } else if has_sector_code(sectors.take(n), x.sector_code) {
            let k = choose|k: int|
                0 <= k < n && (#[trigger] sectors.take(n)[k]).code == x.sector_code;
            if k < n - 1 {
                assert(sectors.take(n - 1)[k].code == x.sector_code);
            }
            assert(x.sector_code == code);
        }
        assert(by_sector(sectors, s.push(x), n).to_multiset() =~= (if has_sector_code(
            sectors.take(n),
            x.sector_code,
        ) {
            by_sector(sectors, s, n).to_multiset().insert(x)
        } else {
            by_sector(sectors, s, n).to_multiset()
        }));
    }
}

proof fn lemma_no_industries(sectors: Seq<Sector>, n: int)
    ensures
        by_sector(sectors, seq![], n) == Seq::<Industry>::empty(),
    decreases n,
{
    if n > 0 {
        lemma_no_industries(sectors, n - 1);
        reveal(Seq::filter);
        assert(by_sector(sectors, seq![], n) =~= Seq::<Industry>::empty());
    }
}

proof fn lemma_shared_out(sectors: Seq<Sector>, s: Seq<Industry>)
    requires
        forall|i: int, j: int|
            0 <= i < j < sectors.len() ==> (#[trigger] sectors[i]).code != (
            #[trigger] sectors[j]).code,
        forall|i: int|
            0 <= i < s.len() ==> has_sector_code(sectors, (#[trigger] s[i]).sector_code),
    ensures
        by_sector(sectors, s, sectors.len() as int).to_multiset() == s.to_multiset(),
    decreases s.len(),
{
    broadcast use vstd::seq_lib::group_to_multiset_ensures;

    let n = sectors.len() as int;
    if s.len() == 0 {
        assert(s =~= seq![]);
        lemma_no_industries(sectors, n);
    } else {
        let init = s.drop_last();
        assert forall|i: int| 0 <= i < init.len() implies has_sector_code(
            sectors,
            (#[trigger] init[i]).sector_code,
        ) by {
            assert(init[i] == s[i]);
        }
        lemma_shared_out(sectors, init);
        assert(init.push(s.last()) =~= s);
        assert(has_sector_code(sectors, s[s.len() - 1].sector_code));
        assert(sectors.take(n) =~= sectors);
        lemma_further_industry(sectors, init, s.last(), n);
    }
}

/// The sectors share out the industries: taken together, sector after sector, their industries are
/// all of them, each once. A code that is not that of a sector has none.
pub proof fn sectors_share_out_the_industries(t: GicsTaxonomy, code: u32)
    requires
        t.well_formed(),
    ensures
        by_sector(t.sectors@, t.industries@, t.sectors@.len() as int).to_multiset()
            == t.industries@.to_multiset(),
        by_sector(t.sectors@, t.industries@, t.sectors@.len() as int).len() == t.industries@.len(),
        !has_sector_code(t.sectors@, code) ==> of_sector(t.industries@, code).len() == 0,
{
    broadcast use vstd::seq_lib::group_to_multiset_ensures;
    broadcast use vstd::seq_lib::group_filter_ensures;

    lemma_shared_out(t.sectors@, t.industries@);
    by_sector(t.sectors@, t.industries@, t.sectors@.len() as int).to_multiset_ensures();
    t.industries@.to_multiset_ensures();
    if !has_sector_code(t.sectors@, code) {
        let own = of_sector(t.industries@, code);
        if own.len() > 0 {
            assert(own.contains(own[0]));
            t.industries@.lemma_filter_contains_rev(|i: Industry| i.sector_code == code, own[0]);
            let k = choose|k: int| 0 <= k < t.industries@.len() && t.industries@[k] == own[0];
            assert(has_sector_code(t.sectors@, t.industries@[k].sector_code));
            assert(own[0].sector_code == code) by {
                lemma_of_sector(t.industries@, code, 0);
            }
        }
    }
}

proof fn lemma_of_sector(s: Seq<Industry>, code: u32, i: int)
    requires
        0 <= i < of_sector(s, code).len(),
    ensures
        of_sector(s, code)[i].sector_code == code,
    decreases s.len(),
{
    reveal(Seq::filter);
    if s.len() > 0 && i < of_sector(s.drop_last(), code).len() {
        lemma_of_sector(s.drop_last(), code, i);
    }
}

/// The code of an industry, written out, means that industry, also with blanks around it.
pub proof fn codes_resolve(
    s: Seq<Industry>,
    i: int,
    a: Seq<char>,
    b: Seq<char>,
    r: Option<Industry>,
)
    requires
        0 <= i < s.len(),
        forall|j: int| 0 <= j < s.len() && j != i ==> (#[trigger] s[j]).code != s[i].code,
        text::blank(a),
        text::blank(b),
        means(s, a + text::decimal(s[i].code as nat) + b, r),
    ensures
        r == Some(s[i]),
{
    let t = text::decimal(s[i].code as nat);
    text::decimal_round_trip(s[i].code as nat);
    assert(text::is_digit(t[0]));
    assert(text::is_digit(t[t.len() - 1]));
    text::trimming_keeps_solid_ends(t);
    text::blanks_around_do_not_matter(a, t, b);
    assert(text::unsigned_part(t) == t);
    assert(last_with_code(s, s[i].code, i));
}

/// The name of an industry means that industry, in whatever case it is written, where no two
/// industries are looked up by the same name and the name is not a number.
pub proof fn names_resolve(s: Seq<Industry>, i: int, input: Seq<char>, r: Option<Industry>)
    requires
        0 <= i < s.len(),
        forall|j: int|
            0 <= j < s.len() && j != i ==> normal((#[trigger] s[j]).name@) != normal(s[i].name@),
        text::lower_text(text::trimmed(input)) == text::lower_text(text::trimmed(s[i].name@)),
        !text::is_number_upto(text::trimmed(input), u32::MAX as int),
        means(s, input, r),
    ensures
        r == Some(s[i]),
{
    assert(normal(input) == normal(s[i].name@));
    assert(last_with_name(s, input, i));
}

/// The name of an industry with blanks around it means that industry.
pub proof fn names_resolve_with_blanks(
    s: Seq<Industry>,
    i: int,
    a: Seq<char>,
    b: Seq<char>,
    r: Option<Industry>,
)
    requires
        0 <= i < s.len(),
        forall|j: int|
            0 <= j < s.len() && j != i ==> normal((#[trigger] s[j]).name@) != normal(s[i].name@),
        text::blank(a),
        text::blank(b),
        !text::is_number_upto(text::trimmed(s[i].name@), u32::MAX as int),
        means(s, a + s[i].name@ + b, r),
    ensures
        r == Some(s[i]),
{
    text::blanks_around_do_not_matter(a, s[i].name@, b);
    names_resolve(s, i, a + s[i].name@ + b, r);
}

/// Words with single blanks between them read as those words, and neither end is blank.
proof fn lemma_joined_words(ws: Seq<Seq<char>>)
    requires
        forall|k: int| 0 <= k < ws.len() ==> text::solid(#[trigger] ws[k]),
    ensures
        text::words_from(order::joined(ws, " "@), 0) == ws,
        ws.len() > 0 ==> order::joined(ws, " "@).len() > 0 && !text::white(
            order::joined(ws, " "@)[0],
        ) && !text::white(order::joined(ws, " "@).last()),
        ws.len() == 0 ==> order::joined(ws, " "@).len() == 0,
    decreases ws.len(),
{
    reveal_strlit(" ");
    assert(" "@ =~= seq![' ']);
    let all = order::joined(ws, " "@);
    if ws.len() == 0 {
        assert(text::words_from(all, 0) =~= ws);
    } else {
        let last = ws[ws.len() - 1];
        assert(text::solid(last));
        assert(!text::white(last[last.len() - 1]));
        assert(!text::white(last[0]));
        if ws.len() == 1 {
            text::a_single_word(last);
            assert(ws =~= seq![last]);
        } else {
            let init = ws.drop_last();
            assert forall|k: int| 0 <= k < init.len() implies text::solid(#[trigger] init[k]) by {
                assert(init[k] == ws[k]);
            }
            lemma_joined_words(init);
            let before = order::joined(init, " "@);
            text::a_further_word(before, last, 0);
            assert(all == before + seq![' '] + last);
            assert(all[0] == before[0]);
            assert(all.last() == last[last.len() - 1]);
            assert(init.push(last) =~= ws);
        }
    }
}

/// A name as it is looked up holds the words of the lower-cased name in their order, single blanks
/// between them and none around them. A blank name has none. Looking up what was looked up changes
/// nothing where it is in lower case.
pub proof fn names_are_spaced_once(s: Seq<char>)
    ensures
        text::words_from(normal(s), 0) == text::words_from(text::lower_text(text::trimmed(s)), 0),
        forall|k: int|
            0 <= k < text::words_from(normal(s), 0).len() ==> text::solid(
                #[trigger] text::words_from(normal(s), 0)[k],
            ),
        normal(s) == order::joined(text::words_from(normal(s), 0), " "@),
        text::trimmed(normal(s)) == normal(s),
        text::blank(s) ==> normal(s).len() == 0,
        text::lower_text(normal(s)) == normal(s) ==> normal(normal(s)) == normal(s),
{
    let lower = text::lower_text(text::trimmed(s));
    text::words_are_solid(lower, 0);
    lemma_joined_words(text::words_from(lower, 0));
    text::trimming_keeps_solid_ends(normal(s));
    if text::blank(s) {
        text::blanks_trim_to_nothing(s);
    }
}

/// An ASCII name as it is looked up is in ASCII without a capital letter, and looking it up again
/// changes nothing.
pub proof fn ascii_names_are_normal_once(s: Seq<char>)
    requires
        is_ascii_chars(s),
    ensures
        is_ascii_chars(normal(s)),
        forall|i: int| 0 <= i < normal(s).len() ==> !text::capital(#[trigger] normal(s)[i]),
        normal(normal(s)) == normal(s),
{
    let ascii = |c: char| '\0' <= c <= '\u{7f}';
    let small = |c: char| '\0' <= c <= '\u{7f}' && !text::capital(c);
    let t = text::trimmed(s);
    assert(text::all_are(s, ascii));
    text::trimming_adds_nothing(s, ascii);
    assert(is_ascii_chars(t)) by {
        assert forall|i: int| 0 <= i < t.len() implies '\0' <= #[trigger] t[i] <= '\u{7f}' by {
            assert(ascii(t[i]));
        }
    }
    let lower = text::lower_text(t);
    assert forall|i: int| 0 <= i < lower.len() implies small(#[trigger] lower[i]) by {
        assert(lower[i] == text::small(t[i]));
        assert(ascii(t[i]));
    }
    lemma_spacing_adds_nothing(lower, small);
    let n = normal(s);
    assert forall|i: int| 0 <= i < n.len() implies '\0' <= #[trigger] n[i] <= '\u{7f}'
        && !text::capital(n[i]) by {
        assert(small(n[i]));
    }
    assert(text::lower_text(n) =~= n);
    names_are_spaced_once(s);
}

// ── The classification through its functions ─────────────────────────────────

/// Each row gives an industry, with its own code and name and the codes of its group and sector.
pub proof fn each_row_is_an_industry(rows: Vec<GicsRow>, t: GicsTaxonomy, i: int)
    requires
        call_ensures(GicsTaxonomy::from_rows, (&rows,), t),
        0 <= i < rows@.len(),
    ensures
        t.industries@.len() == rows@.len(),
        t.industries@[i].code == rows@[i].industry_code,
        t.industries@[i].name@ == rows@[i].industry_name@,
        t.industries@[i].industry_group_code == rows@[i].industry_group_code,
        t.industries@[i].sector_code == rows@[i].sector_code,
{
    let seen = t.industries@.map_values(|x: Industry| industry_view(x));
    assert(seen == industries_of(rows@));
    assert(seen.len() == t.industries@.len());
    assert(seen[i] == industry_view(t.industries@[i]));
    assert(industries_of(rows@)[i] == (
        rows@[i].industry_code,
        rows@[i].industry_name@,
        rows@[i].industry_group_code,
        rows@[i].sector_code,
    ));
}

proof fn lemma_sector_is_listed(rows: Seq<GicsRow>, i: int)
    requires
        0 <= i < rows.len(),
        forall|j: int| 0 <= j < i ==> (#[trigger] rows[j]).sector_code != rows[i].sector_code,
    ensures
        sectors_of(rows).contains((rows[i].sector_code, rows[i].sector_name@)),
    decreases rows.len(),
{
    let all = sectors_of(rows);
    let rest = sectors_of(rows.drop_last());
    let x = (rows[i].sector_code, rows[i].sector_name@);
    if i < rows.len() - 1 {
        lemma_sector_is_listed(rows.drop_last(), i);
        let k = choose|k: int| 0 <= k < rest.len() && rest[k] == x;
        assert(all[k] == x);
    } else {
        assert forall|k: int| 0 <= k < rest.len() implies (#[trigger] rest[k]).0 != x.0 by {
            lemma_sector_has_a_row(rows.drop_last(), k);
        }
        assert(all[rest.len() as int] == x);
    }
}

proof fn lemma_sector_has_a_row(rows: Seq<GicsRow>, k: int)
    requires
        0 <= k < sectors_of(rows).len(),
    ensures
        exists|i: int|
            0 <= i < rows.len() && (#[trigger] rows[i]).sector_code == sectors_of(rows)[k].0
                && rows[i].sector_name@ == sectors_of(rows)[k].1,
    decreases rows.len(),
{
    let rest = sectors_of(rows.drop_last());
    if k < rest.len() {
        lemma_sector_has_a_row(rows.drop_last(), k);
        let i = choose|i: int|
            0 <= i < rows.drop_last().len() && (#[trigger] rows.drop_last()[i]).sector_code
                == rest[k].0 && rows.drop_last()[i].sector_name@ == rest[k].1;
        assert(rows[i].sector_code == rest[k].0);
    } else {
        assert(rows[rows.len() - 1].sector_code == sectors_of(rows)[k].0);
    }
}

/// A sector is found by its code under the name that its first row gives, and none is found that no
/// row has.
pub proof fn sectors_are_found_by_their_code(
    rows: Vec<GicsRow>,
    t: GicsTaxonomy,
    i: int,
    r: Option<&Sector>,
)
    requires
        call_ensures(GicsTaxonomy::from_rows, (&rows,), t),
        0 <= i < rows@.len(),
        forall|j: int| 0 <= j < i ==> (#[trigger] rows@[j]).sector_code != rows@[i].sector_code,
        call_ensures(GicsTaxonomy::sector_by_code, (&t, rows@[i].sector_code), r),
    ensures
        r matches Some(s) && s.code == rows@[i].sector_code && s.name@ == rows@[i].sector_name@,
{
    let seen = t.sectors@.map_values(|s: Sector| sector_view(s));
    let x = (rows@[i].sector_code, rows@[i].sector_name@);
    assert(seen == sectors_of(rows@));
    assert(seen.len() == t.sectors@.len());
    lemma_sector_is_listed(rows@, i);
    let k = choose|k: int| 0 <= k < seen.len() && seen[k] == x;
    assert(sector_view(t.sectors@[k]) == x);
    let args = (&t, rows@[i].sector_code);
    assert(args.0.sectors@[k].code == args.1);
    let s = r->0;
    let j = choose|j: int| 0 <= j < t.sectors@.len() && t.sectors@[j] == *s;
    if j < k {
        assert(t.sectors@[j].code != t.sectors@[k].code);
    } else if k < j {
        assert(t.sectors@[k].code != t.sectors@[j].code);
    }
}

/// An industry whose code is its own is found by it.
pub proof fn industries_are_found_by_their_code(t: GicsTaxonomy, i: int, r: Option<&Industry>)
    requires
        0 <= i < t.industries@.len(),
        forall|j: int|
            0 <= j < t.industries@.len() && j != i ==> (#[trigger] t.industries@[j]).code
                != t.industries@[i].code,
        call_ensures(GicsTaxonomy::industry_by_code, (&t, t.industries@[i].code), r),
    ensures
        r matches Some(x) && *x == t.industries@[i],
{
    let args = (&t, t.industries@[i].code);
    assert(args.0.industries@[i].code == args.1);
}

/// An industry whose name is its own is found by it.
pub proof fn industries_are_found_by_their_name(
    t: GicsTaxonomy,
    i: int,
    name: &str,
    own: String,
    r: Option<&Industry>,
)
    requires
        0 <= i < t.industries@.len(),
        name@ == t.industries@[i].name@,
        call_ensures(normalise, (name,), own),
        forall|j: int|
            0 <= j < t.industries@.len() && j != i ==> normal((#[trigger] t.industries@[j]).name@)
                != own@,
        call_ensures(GicsTaxonomy::industry_by_name, (&t, name), r),
    ensures
        r matches Some(x) && *x == t.industries@[i],
{
    let args = (&t, name);
    assert(normal(args.0.industries@[i].name@) == normal(args.1@));
}

/// The industries of a sector are exactly those that carry its code, and those of a group those
/// that carry the group's, each list in the order of the classification.
pub proof fn industries_go_by_their_sector_and_group(
    t: GicsTaxonomy,
    code: u32,
    s: Vec<&Industry>,
    g: Vec<&Industry>,
    i: int,
    k: int,
)
    requires
        call_ensures(GicsTaxonomy::industries_in_sector, (&t, code), s),
        call_ensures(GicsTaxonomy::industries_in_group, (&t, code), g),
    ensures
        0 <= k < s@.len() ==> s@[k].sector_code == code && t.industries@.contains(*s@[k]),
        0 <= k < g@.len() ==> g@[k].industry_group_code == code && t.industries@.contains(*g@[k]),
        0 <= i < t.industries@.len() && t.industries@[i].sector_code == code ==> exists|j: int|
            0 <= j < s@.len() && *(#[trigger] s@[j]) == t.industries@[i],
        0 <= i < t.industries@.len() && t.industries@[i].industry_group_code == code ==> exists|
            j: int,
        |
            0 <= j < g@.len() && *(#[trigger] g@[j]) == t.industries@[i],
{
    let all = t.industries@;
    let in_sector = |x: Industry| x.sector_code == code;
    let in_group = |x: Industry| x.industry_group_code == code;
    let a = order::lemma_filter_positions(all, in_sector);
    let b = order::lemma_filter_positions(all, in_group);
    let sv = s@.map_values(|x: &Industry| *x);
    let gv = g@.map_values(|x: &Industry| *x);
    assert(sv == all.filter(in_sector));
    assert(gv == all.filter(in_group));
    assert(sv.len() == s@.len());
    assert(gv.len() == g@.len());
    if 0 <= k < s@.len() {
        assert(sv[k] == *s@[k]);
        assert(all[a[k]] == *s@[k]);
        assert(in_sector(all[a[k]]));
    }
    if 0 <= k < g@.len() {
        assert(gv[k] == *g@[k]);
        assert(all[b[k]] == *g@[k]);
        assert(in_group(all[b[k]]));
    }
    if 0 <= i < all.len() && all[i].sector_code == code {
        assert(in_sector(all[i]));
        let j = choose|j: int| 0 <= j < a.len() && #[trigger] a[j] == i;
        assert(sv[j] == *s@[j]);
    }
    if 0 <= i < all.len() && all[i].industry_group_code == code {
        assert(in_group(all[i]));
        let j = choose|j: int| 0 <= j < b.len() && #[trigger] b[j] == i;
        assert(gv[j] == *g@[j]);
    }
}

/// What is picked is not excluded, stands in the order of the classification and is as much as was
/// asked for, unless nothing else is left.
pub proof fn picks_pass_over_the_excluded(
    t: GicsTaxonomy,
    n: usize,
    exclude: Vec<u32>,
    r: Vec<&Industry>,
) -> (idx: Seq<int>)
    requires
        call_ensures(GicsTaxonomy::pick_n, (&t, n, &exclude), r),
    ensures
        r@.len() <= n,
        idx.len() == r@.len(),
        forall|k: int|
            0 <= k < idx.len() ==> 0 <= (#[trigger] idx[k]) < t.industries@.len() && *r@[k]
                == t.industries@[idx[k]] && !exclude@.contains(t.industries@[idx[k]].code),
        forall|j: int, k: int| 0 <= j < k < idx.len() ==> (#[trigger] idx[j]) < (#[trigger] idx[k]),
        forall|i: int|
            0 <= i < t.industries@.len() && !exclude@.contains((#[trigger] t.industries@[i]).code)
                ==> idx.contains(i) || (idx.len() == n && forall|k: int|
                0 <= k < idx.len() ==> (#[trigger] idx[k]) < i),
{
    let all = t.industries@;
    let keep = |x: Industry| !exclude@.contains(x.code);
    let a = order::lemma_filter_positions(all, keep);
    let left = all.filter(keep);
    let m = if left.len() <= n {
        left.len() as int
    } else {
        n as int
    };
    let idx = a.take(m);
    let rv = r@.map_values(|x: &Industry| *x);
    assert(left == not_excluded(all, exclude@));
    assert(rv =~= left.take(m));
    assert(rv.len() == r@.len());
    assert forall|k: int| 0 <= k < idx.len() implies 0 <= (#[trigger] idx[k]) < all.len() && *r@[k]
        == all[idx[k]] && !exclude@.contains(all[idx[k]].code) by {
        assert(idx[k] == a[k]);
        assert(rv[k] == *r@[k]);
        assert(keep(all[a[k]]));
    }
    assert forall|i: int|
        0 <= i < all.len() && !exclude@.contains((#[trigger] all[i]).code) implies idx.contains(i)
        || (idx.len() == n && forall|k: int| 0 <= k < idx.len() ==> (#[trigger] idx[k]) < i) by {
        assert(keep(all[i]));
        let j = choose|j: int| 0 <= j < a.len() && #[trigger] a[j] == i;
        if j < m {
            assert(idx[j] == i);
        } else {
            assert forall|k: int| 0 <= k < idx.len() implies (#[trigger] idx[k]) < i by {
                assert(idx[k] == a[k]);
            }
        }
    }
    idx
}

/// An input that is a number means the industry with that code, and any other input the industry
/// with that name.
pub proof fn inputs_mean_a_code_or_a_name(
    t: GicsTaxonomy,
    input: &str,
    trimmed: &str,
    code: Option<u32>,
    by_code: Option<&Industry>,
    by_name: Option<&Industry>,
    r: Option<&Industry>,
)
    requires
        call_ensures(GicsTaxonomy::resolve, (&t, input), r),
        trimmed@ == text::trimmed(input@),
        call_ensures(text::parse_u32, (trimmed,), code),
        code matches Some(c) ==> call_ensures(GicsTaxonomy::industry_by_code, (&t, c), by_code),
        call_ensures(GicsTaxonomy::industry_by_name, (&t, input), by_name),
    ensures
        code is Some ==> (r is Some <==> by_code is Some) && (r is Some ==> *r->0 == *by_code->0),
        code is None ==> (r is Some <==> by_name is Some) && (r is Some ==> *r->0 == *by_name->0),
{
    let s = t.industries@;
    let args = (&t, input);
    if let Some(c) = code {
        if let Some(x) = r {
            let i = choose|i: int| #[trigger] last_with_code(s, c, i) && s[i] == *x;
            assert(s[i].code == c);
            if let Some(y) = by_code {
                let j = choose|j: int| #[trigger] last_with_code(s, c, j) && s[j] == *y;
                assert(i == j);
            } else {
                let inner = (&t, c);
                assert(inner.0.industries@[i].code == c);
            }
        } else if let Some(y) = by_code {
            let j = choose|j: int| #[trigger] last_with_code(s, c, j) && s[j] == *y;
            assert(args.0.industries@[j].code == c);
        }
    } else {
        if let Some(x) = r {
            let i = choose|i: int| #[trigger] last_with_name(s, input@, i) && s[i] == *x;
            assert(normal(args.0.industries@[i].name@) == normal(input@));
            if let Some(y) = by_name {
                let j = choose|j: int| #[trigger] last_with_name(s, input@, j) && s[j] == *y;
                assert(i == j);
            }
        } else if let Some(y) = by_name {
            let j = choose|j: int| #[trigger] last_with_name(s, input@, j) && s[j] == *y;
            assert(normal(args.0.industries@[j].name@) == normal(input@));
        }
    }
}

} // verus!
