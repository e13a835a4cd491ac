//! Mentions of a ticker on Reddit.

use vstd::prelude::*;
use vstd::string::*;

use crate::data::json;
use crate::data::json::{Json, JsonView};
use crate::number::Number;

verus! {

/// Hours for which mentions are kept.
pub const REDDIT_CACHE_HOURS: i64 = 12;

/// The span to search over.
pub fn timeframe(days: u32) -> (r: &'static str)
    ensures
        r@ == (if days <= 1 {
            "day"@
        } else if days <= 7 {
            "week"@
        } else {
            "month"@
        }),
{
    if days <= 1 {
        "day"
    } else if days <= 7 {
        "week"
    } else {
        "month"
    }
}

/// The search for a ticker in a subreddit.
pub fn search_url(ticker: &str, subreddit: &str, days: u32) -> (r: String)
    ensures
        r@ == "https://www.reddit.com/r/"@ + subreddit@ + "/search.json?q="@ + ticker@
            + "&sort=new&restrict_sr=1&t="@ + (if days <= 1 {
            "day"@
        } else if days <= 7 {
            "week"@
        } else {
            "month"@
        }) + "&limit=100"@,
{
    let mut s: String = "https://www.reddit.com/r/".to_owned();
    s.append(subreddit);
    s.append("/search.json?q=");
    s.append(ticker);
    s.append("&sort=new&restrict_sr=1&t=");
    s.append(timeframe(days));
    s.append("&limit=100");
    s
}

/// What the posts of a reply come to.
#[derive(Debug)]
pub struct Tally {
    pub mention_count: u32,
    pub total_comments: u32,
    /// The share of upvotes of each post that tells it. Their mean counts, or one half where there
    /// is none.
    pub upvote_ratios: Vec<Number>,
}

/// Why a reply is refused.
#[derive(Clone, Copy, Debug, PartialEq, Eq, Structural)]
pub enum TallyError {
    NotJson,
    /// The counts do not fit.
    TooLarge,
}

/// The posts of a reply.
pub open spec fn posts(v: JsonView) -> Seq<JsonView> {
    match v.member("data"@) {
        Some(d) => match d.member("children"@) {
            Some(c) => match c.list() {
                Some(s) => s,
                None => seq![],
            },
            None => seq![],
        },
        None => seq![],
    }
}

/// A post's number of comments, of which the lower 32 bits count; none where it does not tell it.
pub open spec fn comments(data: JsonView) -> int {
    match data.member("num_comments"@) {
        Some(x) => match x.natural() {
            Some(n) => n as int % 0x1_0000_0000,
            None => 0,
        },
        None => 0,
    }
}

/// How many posts have data.
pub open spec fn mentions(s: Seq<JsonView>) -> int
    decreases s.len(),
{
    if s.len() == 0 {
        0
    } else {
        mentions(s.drop_last()) + if s.last().member("data"@) is Some {
            1int
        } else {
            0
        }
    }
}

/// The comments of posts together.
pub open spec fn all_comments(s: Seq<JsonView>) -> int
    decreases s.len(),
{
    if s.len() == 0 {
        0
    } else {
        all_comments(s.drop_last()) + match s.last().member("data"@) {
            Some(d) => comments(d),
            None => 0,
        }
    }
}

/// The share of upvotes of each post that tells it.
pub open spec fn ratios(s: Seq<JsonView>) -> Seq<Number>
    decreases s.len(),
{
    if s.len() == 0 {
        seq![]
    } else {
        let rest = ratios(s.drop_last());
        match s.last().member("data"@) {
            Some(d) => match d.member("upvote_ratio"@) {
                Some(x) => match x.number() {
                    Some(n) => rest.push(n),
                    None => rest,
                },
                None => rest,
            },
            None => rest,
        }
    }
}

/// Whether the counts of posts fit.
pub open spec fn fits(s: Seq<JsonView>) -> bool {
    s.len() <= u32::MAX && all_comments(s) <= u32::MAX
}

/// There are no more mentions than posts, and comments do not count below zero.
proof fn lemma_counts(s: Seq<JsonView>)
    ensures
        0 <= mentions(s) <= s.len(),
        0 <= all_comments(s) <= s.len() * 0xFFFF_FFFF,
    decreases s.len(),
{
    if s.len() > 0 {
        lemma_counts(s.drop_last());
        assert(s.len() * 0xFFFF_FFFF == (s.len() - 1) * 0xFFFF_FFFF + 0xFFFF_FFFF)
            by (nonlinear_arith);
    }
}

/// A post's number of comments.
fn read_comments(data: &Json) -> (r: u32)
    ensures
        r == comments(data@),
{
    match data.member("num_comments") {
        Some(x) => match x.as_natural() {
            Some(n) => (n % 0x1_0000_0000) as u32,
            None => 0,
        },
        None => 0,
    }
}

/// What the posts of a reply come to, unless the counts do not fit.
pub fn tally(reply: &Json) -> (r: Option<Tally>)
    ensures
        match r {
            Some(t) => {
                &&& fits(posts(reply@))
                &&& t.mention_count == mentions(posts(reply@))
                &&& t.total_comments == all_comments(posts(reply@))
                &&& t.upvote_ratios@ == ratios(posts(reply@))
            },
            None => !fits(posts(reply@)),
        },
{
    let mut upvote_ratios: Vec<Number> = Vec::new();
    let list: Option<&Vec<Json>> = match reply.member("data") {
        Some(d) => match d.member("children") {
            Some(c) => c.as_list(),
            None => None,
        },
        None => None,
    };
    let list: &Vec<Json> = match list {
        Some(v) => v,
        None => {
            proof {
                assert(posts(reply@) =~= seq![]);
                assert(upvote_ratios@ =~= ratios(posts(reply@)));
            }
            return Some(Tally { mention_count: 0, total_comments: 0, upvote_ratios });
        },
    };
    if list.len() > u32::MAX as usize {
        return None;
    }
    let ghost all = json::views(list@);
    let mut mention_count: u32 = 0;
    let mut total: u64 = 0;
    let mut i: usize = 0;
    proof {
        assert(all.take(0) =~= seq![]);
        assert(upvote_ratios@ =~= ratios(all.take(0)));
    }
    while i < list.len()
        invariant
            i <= list@.len() <= u32::MAX,
            all == json::views(list@),
            mention_count == mentions(all.take(i as int)),
            total == all_comments(all.take(i as int)),
            total <= i * 0xFFFF_FFFF,
            upvote_ratios@ == ratios(all.take(i as int)),
        decreases list@.len() - i,
    {
        proof {
            assert(all.take(i + 1).drop_last() =~= all.take(i as int));
            assert(all.take(i + 1).last() == list@[i as int]@);
            lemma_counts(all.take(i as int));
            lemma_counts(all.take(i + 1));
            assert((i + 1) * 0xFFFF_FFFF == i * 0xFFFF_FFFF + 0xFFFF_FFFF) by (nonlinear_arith);
            assert(i * 0xFFFF_FFFF <= 0xFFFF_FFFF * 0xFFFF_FFFF) by (nonlinear_arith)
                requires
                    0 <= i <= 0xFFFF_FFFF,
            ;
        }
        match list[i].member("data") {
            Some(d) => {
                mention_count = mention_count + 1;
                total = total + read_comments(d) as u64;
                match d.member("upvote_ratio") {
                    Some(x) => match x.as_number() {
                        Some(n) => {
                            upvote_ratios.push(n);
                        },
                        None => {},
                    },
                    None => {},
                }
            },
            None => {},
        }
        i = i + 1;
    }
    proof {
        assert(all.take(list@.len() as int) =~= all);
    }
    if total > u32::MAX as u64 {
        return None;
    }
    Some(Tally { mention_count, total_comments: total as u32, upvote_ratios })
}

/// What the posts of a reply come to.
pub fn parse_reddit_response(reply: &str) -> (r: Result<Tally, TallyError>)
    ensures
        match r {
            Ok(t) => {
                &&& json::parsed_json(reply@) is Some
                &&& fits(posts(json::parsed_json(reply@)->0))
                &&& t.mention_count == mentions(posts(json::parsed_json(reply@)->0))
                &&& t.total_comments == all_comments(posts(json::parsed_json(reply@)->0))
                &&& t.upvote_ratios@ == ratios(posts(json::parsed_json(reply@)->0))
            },
            Err(TallyError::NotJson) => json::parsed_json(reply@) is None,
            Err(TallyError::TooLarge) => json::parsed_json(reply@) is Some && !fits(
                posts(json::parsed_json(reply@)->0),
            ),
        },
{
    match json::parse(reply) {
        Some(doc) => match tally(&doc) {
            Some(t) => Ok(t),
            None => Err(TallyError::TooLarge),
        },
        None => Err(TallyError::NotJson),
    }
}

// ── What is counted ──────────────────────────────────────────────────────────

proof fn lemma_mentions(s: Seq<JsonView>)
    ensures
        mentions(s) == s.filter(|p: JsonView| p.member("data"@) is Some).len(),
    decreases s.len(),
{
    reveal(Seq::filter);
    if s.len() > 0 {
        lemma_mentions(s.drop_last());
    }
}

/// Every post with data is a mention, and no other is.
pub proof fn mentions_are_posts_with_data(reply: Json, children: JsonView, s: Seq<JsonView>, t: Tally)
    requires
        call_ensures(tally, (&reply,), Some(t)),
        reply@.member("data"@) matches Some(d) && d.member("children"@) == Some(children),
        children.list() == Some(s),
    ensures
        t.mention_count == s.filter(|p: JsonView| p.member("data"@) is Some).len(),
{
    lemma_mentions(s);
}

/// One more post with data adds a mention, its comments and, where it tells it, its share of
/// upvotes to what the posts before come to.
pub proof fn each_post_adds_its_own(
    fewer: Json,
    more: Json,
    children: JsonView,
    others: JsonView,
    s: Seq<JsonView>,
    post: JsonView,
    data: JsonView,
    a: Tally,
    b: Tally,
)
    requires
        call_ensures(tally, (&fewer,), Some(a)),
        call_ensures(tally, (&more,), Some(b)),
        fewer@.member("data"@) matches Some(d) && d.member("children"@) == Some(children),
        more@.member("data"@) matches Some(d) && d.member("children"@) == Some(others),
        children.list() == Some(s),
        others.list() == Some(s.push(post)),
        post.member("data"@) == Some(data),
    ensures
        b.mention_count == a.mention_count + 1,
        data.member("num_comments"@) matches Some(c) ==> c.natural() matches Some(n) ==> n
            < 0x1_0000_0000 ==> b.total_comments == a.total_comments + n,
        data.member("num_comments"@) is None ==> b.total_comments == a.total_comments,
        data.member("upvote_ratio"@) matches Some(u) ==> u.number() matches Some(x)
            ==> b.upvote_ratios@ == a.upvote_ratios@.push(x),
        data.member("upvote_ratio"@) is None ==> b.upvote_ratios@ == a.upvote_ratios@,
{
    assert(s.push(post).drop_last() =~= s);
    assert(posts(fewer@) == s);
    assert(posts(more@) == s.push(post));
    assert(mentions(s.push(post)) == mentions(s) + 1);
    assert(all_comments(s.push(post)) == all_comments(s) + comments(data));
}

/// Without posts nothing is counted.
pub proof fn no_posts_count_for_nothing(reply: Json, r: Option<Tally>)
    requires
        call_ensures(tally, (&reply,), r),
        reply@.member("data"@) is None,
    ensures
        r matches Some(t) && t.mention_count == 0 && t.total_comments == 0 && t.upvote_ratios@.len()
            == 0,
{
}

/// A search spans a day for one day, a week for up to seven and a month beyond.
pub proof fn searches_span_what_is_asked_for(days: u32, r: &'static str)
    requires
        call_ensures(timeframe, (days,), r),
    ensures
        days == 1 ==> r@ == "day"@,
        2 <= days <= 7 ==> r@ == "week"@,
        days >= 8 ==> r@ == "month"@,
{
}

} // verus!
