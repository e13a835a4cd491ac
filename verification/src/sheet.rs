//! Lines of a report for a terminal.

use vstd::prelude::*;
use vstd::string::*;

use crate::number::Number;
use crate::text;

verus! {

/// Adds a line.
pub fn put(lines: &mut Vec<String>, line: &str)
    ensures
        text::texts(final(lines)@) == text::texts(old(lines)@).push(line@),
{
    let ghost before = text::texts(lines@);
    lines.push(line.to_owned());
    proof {
        assert(text::texts(lines@) =~= before.push(line@));
    }
}

/// Adds a line of two parts.
pub fn put_two(lines: &mut Vec<String>, a: &str, b: &str)
    ensures
        text::texts(final(lines)@) == text::texts(old(lines)@).push(a@ + b@),
{
    let mut s: String = a.to_owned();
    s.append(b);
    put(lines, s.as_str());
}

/// Adds a line of three parts.
pub fn put_three(lines: &mut Vec<String>, a: &str, b: &str, c: &str)
    ensures
        text::texts(final(lines)@) == text::texts(old(lines)@).push(a@ + b@ + c@),
{
    let mut s: String = a.to_owned();
    s.append(b);
    s.append(c);
    put(lines, s.as_str());
}

/// Adds the lines of another report.
pub fn put_all(lines: &mut Vec<String>, more: &Vec<String>)
    ensures
        text::texts(final(lines)@) == text::texts(old(lines)@) + text::texts(more@),
{
    let ghost before = text::texts(lines@);
    let ghost all = text::texts(more@);
    let mut i: usize = 0;
    proof {
        assert(before =~= before + all.take(0));
    }
    while i < more.len()
        invariant
            i <= more@.len(),
            all == text::texts(more@),
            text::texts(lines@) == before + all.take(i as int),
        decreases more@.len() - i,
    {
        put(lines, more[i].as_str());
        proof {
            assert(all[i as int] == more@[i as int]@);
            assert(before + all.take(i + 1) =~= (before + all.take(i as int)).push(all[i as int]));
        }
        i = i + 1;
    }
    proof {
        assert(all.take(more@.len() as int) =~= all);
    }
}

/// Green above zero, red below it, white otherwise.
pub open spec fn gain_colour(n: Number) -> Seq<char> {
    if (Number { bits: 0 }).lt(n) {
        "\x1b[32m"@
    } else if n.lt(Number { bits: 0 }) {
        "\x1b[31m"@
    } else {
        "\x1b[97m"@
    }
}

/// The colour to print a return in.
pub fn colour_for(n: Number) -> (r: &'static str)
    ensures
        r@ == gain_colour(n),
{
    if Number::zero().is_lt(n) {
        "\x1b[32m"
    } else if n.is_lt(Number::zero()) {
        "\x1b[31m"
    } else {
        "\x1b[97m"
    }
}

/// Green for a number that is not negative, red for another.
pub open spec fn sign_colour(n: Number) -> Seq<char> {
    if (Number { bits: 0 }).le(n) {
        "\x1b[32m"@
    } else {
        "\x1b[31m"@
    }
}

/// The colour to print a gain or a loss in.
pub fn colour_of_sign(n: Number) -> (r: &'static str)
    ensures
        r@ == sign_colour(n),
{
    if Number::zero().is_le(n) {
        "\x1b[32m"
    } else {
        "\x1b[31m"
    }
}

/// A report has a line with a text.
pub open spec fn has_line(lines: Seq<String>, t: Seq<char>) -> bool {
    exists|k: int| 0 <= k < lines.len() && (#[trigger] lines[k])@ == t
}

/// Every text of the lines is that of a line.
pub proof fn lemma_has_line(lines: Seq<String>, k: int)
    requires
        0 <= k < lines.len(),
    ensures
        has_line(lines, text::texts(lines)[k]),
{
    assert(lines[k]@ == text::texts(lines)[k]);
}

/// Gains are printed in green and losses in red; where nothing was gained or lost, a return is
/// white and a change green.
pub proof fn gains_are_green_and_losses_red(n: Number, a: &'static str, b: &'static str)
    requires
        call_ensures(colour_for, (n,), a),
        call_ensures(colour_of_sign, (n,), b),
    ensures
        0 < n.bits < 0x7FF0_0000_0000_0000 ==> a@ == "\x1b[32m"@ && b@ == "\x1b[32m"@,
        0x8000_0000_0000_0000 < n.bits < 0xFFF0_0000_0000_0000 ==> a@ == "\x1b[31m"@ && b@
            == "\x1b[31m"@,
        n.bits == 0 ==> a@ == "\x1b[97m"@ && b@ == "\x1b[32m"@,
{
}

} // verus!
