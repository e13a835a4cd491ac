//! Reading of a language model's reply.

use vstd::prelude::*;

use crate::text;

verus! {

/// One part of a reply.
#[derive(Debug)]
pub struct Part {
    pub text: String,
    /// Whether the part is reasoning of the model's own and no answer.
    pub thought: bool,
}

/// Why a reply holds no answer.
#[derive(Clone, Copy, Debug, PartialEq, Eq, Structural)]
pub enum ReplyError {
    NoCandidates,
    NoAnswer,
}

impl ReplyError {
    /// The error in words.
    pub fn message(&self) -> (r: String)
        ensures
            r@ == (match *self {
                ReplyError::NoCandidates => "Gemini returned no candidates"@,
                ReplyError::NoAnswer => "Gemini response had no non-thought parts"@,
            }),
    {
        match self {
            ReplyError::NoCandidates => "Gemini returned no candidates".to_owned(),
            ReplyError::NoAnswer => "Gemini response had no non-thought parts".to_owned(),
        }
    }
}

/// `i` is the first part that is no thought.
pub open spec fn first_answer(parts: Seq<Part>, i: int) -> bool {
    0 <= i < parts.len() && !parts[i].thought && forall|k: int|
        0 <= k < i ==> (#[trigger] parts[k]).thought
}

/// The answer of a reply: the first part of the first candidate that is no thought.
pub fn answer(candidates: &Vec<Vec<Part>>) -> (r: Result<String, ReplyError>)
    ensures
        match r {
            Ok(s) => candidates@.len() > 0 && exists|i: int| #[trigger]
                first_answer(candidates@[0]@, i) && s@ == candidates@[0]@[i].text@,
            Err(ReplyError::NoCandidates) => candidates@.len() == 0,
            Err(ReplyError::NoAnswer) => candidates@.len() > 0 && forall|i: int|
                0 <= i < candidates@[0]@.len() ==> (#[trigger] candidates@[0]@[i]).thought,
        },
{
    if candidates.len() == 0 {
        return Err(ReplyError::NoCandidates);
    }
    let parts: &Vec<Part> = &candidates[0];
    let mut i: usize = 0;
    while i < parts.len()
        invariant
            candidates@.len() > 0,
            parts == candidates@[0],
            i <= parts.len(),
            forall|k: int| 0 <= k < i ==> (#[trigger] parts@[k]).thought,
        decreases parts.len() - i,
    {
        if !parts[i].thought {
            proof {
                assert(first_answer(candidates@[0]@, i as int));
            }
            return Ok(parts[i].text.clone());
        }
        i = i + 1;
    }
    Err(ReplyError::NoAnswer)
}

/// Text without a prefix that it may start with.
pub open spec fn without_prefix(s: Seq<char>, p: Seq<char>) -> Option<Seq<char>> {
    if text::matches_at(s, p, 0) {
        Some(s.skip(p.len() as int))
    } else {
        None
    }
}

/// Text without the opening fence of a code block.
pub open spec fn without_opening(s: Seq<char>) -> Seq<char> {
    match without_prefix(s, "```json"@) {
        Some(t) => t,
        None => match without_prefix(s, "```"@) {
            Some(t) => t,
            None => s,
        },
    }
}

/// Text without the closing fence of a code block.
pub open spec fn without_closing(s: Seq<char>) -> Seq<char> {
    if text::matches_at(s, "```"@, s.len() - 3) {
        s.take(s.len() - 3)
    } else {
        s
    }
}

/// Text without the fences of a code block round it.
pub open spec fn unfenced(s: Seq<char>) -> Seq<char> {
    text::trimmed(without_closing(without_opening(text::trimmed(s))))
}

/// Takes the fences of a code block off a text.
pub fn strip_markdown_fences(s: &str) -> (r: String)
    ensures
        r@ == unfenced(s@),
{
    proof {
        reveal_strlit("```json");
        reveal_strlit("```");
    }
    let t: String = text::trim(s);
    let v: Vec<char> = text::to_chars(t.as_str());
    let json: Vec<char> = text::to_chars("```json");
    let fence: Vec<char> = text::to_chars("```");
    let from: usize = if text::stands_at(&v, &json, 0) {
        7
    } else if text::stands_at(&v, &fence, 0) {
        3
    } else {
        0
    };
    let rest: String = text::from_chars(&v, from, v.len());
    let w: Vec<char> = text::to_chars(rest.as_str());
    let n: usize = w.len();
    let to: usize = if n >= 3 && text::stands_at(&w, &fence, n - 3) {
        n - 3
    } else {
        n
    };
    let inner: String = text::from_chars(&w, 0, to);
    proof {
        assert(rest@ =~= without_opening(text::trimmed(s@)));
        assert(inner@ =~= without_closing(rest@));
    }
    text::trim(inner.as_str())
}

/// The answer is the first part of the first candidate that is no thought.
pub proof fn the_answer_is_the_first_part_that_is_no_thought(
    candidates: Vec<Vec<Part>>,
    r: Result<String, ReplyError>,
    i: int,
)
    requires
        call_ensures(answer, (&candidates,), r),
        candidates@.len() > 0,
        0 <= i < candidates@[0]@.len(),
        !candidates@[0]@[i].thought,
        forall|k: int| 0 <= k < i ==> (#[trigger] candidates@[0]@[k]).thought,
    ensures
        r matches Ok(s) && s@ == candidates@[0]@[i].text@,
{
    let args = (&candidates,);
    assert(!args.0@[0]@[i].thought);
    if let Ok(s) = r {
        let j = choose|j: int| #[trigger]
            first_answer(args.0@[0]@, j) && s@ == args.0@[0]@[j].text@;
        if j < i {
            assert(candidates@[0]@[j].thought);
        } else if i < j {
            assert(args.0@[0]@[i].thought);
        }
        assert(i == j);
    }
}

/// A text without blanks around it comes out of a fence for JSON as it was put in.
pub proof fn fences_are_taken_off(s: &str, inner: Seq<char>, r: String)
    requires
        call_ensures(strip_markdown_fences, (s,), r),
        text::trimmed(inner) == inner,
        s@ == "```json"@ + inner + "```"@,
    ensures
        r@ == inner,
{
    reveal_strlit("```json");
    reveal_strlit("```");
    let open = "```json"@;
    let close = "```"@;
    assert(open.len() == 7 && close.len() == 3);
    assert(!text::white('`'));
    assert(s@[0] == '`');
    assert(s@.last() == '`');
    text::trimming_keeps_solid_ends(s@);
    assert(text::trimmed(s@) == s@);
    assert(s@.subrange(0, 7) =~= open);
    let rest = s@.skip(7);
    assert(rest =~= inner + close);
    assert(rest.subrange(rest.len() - 3, rest.len() - 3 + 3) =~= close);
    assert(rest.take(rest.len() - 3) =~= inner);
}

} // verus!
