//! JSON documents.

use vstd::prelude::*;

use crate::number::Number;
use crate::text;

verus! {

/// What a JSON value holds.
pub enum JsonView {
    Null,
    Bool(bool),
    /// The number, and the natural number it is where it is one.
    Number(Number, Option<u64>),
    Text(Seq<char>),
    List(Seq<JsonView>),
    Object(Seq<(Seq<char>, JsonView)>),
}

/// A JSON value.
#[derive(Debug)]
pub enum Json {
    Null,
    Bool(bool),
    /// The number, and the natural number it is where it is one.
    Number(Number, Option<u64>),
    Text(String),
    List(Vec<Json>),
    /// Members in order, no name twice.
    Object(Vec<(String, Json)>),
}

/// What a value holds.
pub open spec fn held(j: Json) -> JsonView
    decreases j,
{
    match j {
        Json::Null => JsonView::Null,
        Json::Bool(b) => JsonView::Bool(b),
        Json::Number(x, n) => JsonView::Number(x, n),
        Json::Text(s) => JsonView::Text(s@),
        Json::List(v) => JsonView::List(
            Seq::new(
                v@.len(),
                |i: int|
                    if 0 <= i < v@.len() {
                        held(v@[i])
                    } else {
                        JsonView::Null
                    },
            ),
        ),
        Json::Object(v) => JsonView::Object(
            Seq::new(
                v@.len(),
                |i: int|
                    if 0 <= i < v@.len() {
                        (v@[i].0@, held(v@[i].1))
                    } else {
                        (seq![], JsonView::Null)
                    },
            ),
        ),
    }
}

impl View for Json {
    type V = JsonView;

    open spec fn view(&self) -> JsonView {
        held(*self)
    }
}

// ── What serde_json provides ─────────────────────────────────────────────────

/// A document of `serde_json`.
#[verifier::external_type_specification]
#[verifier::external_body]
pub struct ExValue(serde_json::Value);

/// What a document of `serde_json` holds.
pub uninterp spec fn document(v: serde_json::Value) -> JsonView;

/// What `serde_json::from_str` reads from a text, where the text is a JSON document.
pub uninterp spec fn parsed_json(s: Seq<char>) -> Option<JsonView>;

/// `serde_json::from_str` for a `Value`: what it reads is a function of the text.
#[verifier::external_body]
fn serde_parse(s: &str) -> (r: Option<serde_json::Value>)
    ensures
        match r {
            Some(v) => parsed_json(s@) == Some(document(v)),
            None => parsed_json(s@) is None,
        },
{
    serde_json::from_str(s).ok()
}

/// `Value::as_bool`: the truth value, where the document is one.
pub assume_specification[ serde_json::Value::as_bool ](v: &serde_json::Value) -> (r: Option<bool>)
    ensures
        r == (match document(*v) {
            JsonView::Bool(b) => Some(b),
            _ => None,
        }),
;

/// `Value::as_u64`: the natural number, where the document is one that fits.
pub assume_specification[ serde_json::Value::as_u64 ](v: &serde_json::Value) -> (r: Option<u64>)
    ensures
        r == (match document(*v) {
            JsonView::Number(_, n) => n,
            _ => None,
        }),
;

/// `Value::as_str`: the text, where the document is one.
pub assume_specification[ serde_json::Value::as_str ](v: &serde_json::Value) -> (r: Option<&str>)
    ensures
        match (r, document(*v)) {
            (Some(s), JsonView::Text(t)) => s@ == t,
            (Some(_), _) => false,
            (None, JsonView::Text(_)) => false,
            (None, _) => true,
        },
;

/// `Value::as_array`: the elements, where the document is an array.
pub assume_specification[ serde_json::Value::as_array ](v: &serde_json::Value) -> (r: Option<
    &Vec<serde_json::Value>,
>)
    ensures
        match (r, document(*v)) {
            (Some(a), JsonView::List(s)) => a@.len() == s.len() && forall|i: int|
                0 <= i < s.len() ==> document(#[trigger] a@[i]) == s[i],
            (Some(_), _) => false,
            (None, JsonView::List(_)) => false,
            (None, _) => true,
        },
;

/// `Value::as_f64`, by its encoding: the number, where the document is one.
#[verifier::external_body]
fn serde_number(v: &serde_json::Value) -> (r: Option<Number>)
    ensures
        r == (match document(*v) {
            JsonView::Number(x, _) => Some(x),
            _ => None,
        }),
{
    v.as_f64().map(|x| Number { bits: x.to_bits() })
}

/// `Value::as_object`, as a list: the members, where the document is an object.
#[verifier::external_body]
fn serde_members(v: &serde_json::Value) -> (r: Option<Vec<(String, &serde_json::Value)>>)
    ensures
        match (r, document(*v)) {
            (Some(a), JsonView::Object(s)) => a@.len() == s.len() && forall|i: int|
                0 <= i < s.len() ==> (#[trigger] a@[i]).0@ == s[i].0 && document(*a@[i].1)
                    == s[i].1,
            (Some(_), _) => false,
            (None, JsonView::Object(_)) => false,
            (None, _) => true,
        },
{
    v.as_object().map(|m| m.iter().map(|(k, x)| (k.clone(), x)).collect())
}

// ── Reading ──────────────────────────────────────────────────────────────────

/// A document of `serde_json` as a JSON value.
pub fn from_document(v: &serde_json::Value) -> (r: Json)
    ensures
        r@ == document(*v),
    decreases document(*v),
{
    if let Some(b) = v.as_bool() {
        return Json::Bool(b);
    }
    if let Some(x) = serde_number(v) {
        return Json::Number(x, v.as_u64());
    }
    if let Some(s) = v.as_str() {
        return Json::Text(s.to_owned());
    }
    if let Some(a) = v.as_array() {
        let ghost all = document(*v)->List_0;
        let mut out: Vec<Json> = Vec::new();
        let mut i: usize = 0;
        while i < a.len()
            invariant
                i <= a@.len(),
                out@.len() == i,
                document(*v) == JsonView::List(all),
                a@.len() == all.len(),
                forall|k: int| 0 <= k < all.len() ==> document(#[trigger] a@[k]) == all[k],
                forall|k: int| 0 <= k < i ==> (#[trigger] out@[k])@ == all[k],
            decreases a@.len() - i,
        {
            proof {
                assert(document(a@[i as int]) == all[i as int]);
                let d = document(*v);
                assert(decreases_to!(d => d->List_0));
                assert(decreases_to!(d->List_0 => d->List_0[i as int]));
            }
            out.push(from_document(&a[i]));
            i = i + 1;
        }
        let r: Json = Json::List(out);
        proof {
            assert(r@->List_0 =~= all);
        }
        return r;
    }
    if let Some(a) = serde_members(v) {
        let ghost all = document(*v)->Object_0;
        let mut out: Vec<(String, Json)> = Vec::new();
        let mut i: usize = 0;
        while i < a.len()
            invariant
                i <= a@.len(),
                out@.len() == i,
                document(*v) == JsonView::Object(all),
                a@.len() == all.len(),
                forall|k: int|
                    0 <= k < all.len() ==> (#[trigger] a@[k]).0@ == all[k].0 && document(*a@[k].1)
                        == all[k].1,
                forall|k: int|
                    0 <= k < i ==> (#[trigger] out@[k]).0@ == all[k].0 && out@[k].1@ == all[k].1,
            decreases a@.len() - i,
        {
            proof {
                assert(document(*a@[i as int].1) == all[i as int].1);
                let d = document(*v);
                assert(decreases_to!(d => d->Object_0));
                assert(decreases_to!(d->Object_0 => d->Object_0[i as int]));
                assert(decreases_to!(d->Object_0[i as int] => d->Object_0[i as int].1));
            }
            let name: String = a[i].0.clone();
            out.push((name, from_document(a[i].1)));
            i = i + 1;
        }
        let r: Json = Json::Object(out);
        proof {
            assert(r@->Object_0 =~= all);
        }
        return r;
    }
    Json::Null
}

/// The JSON document that a text is.
pub fn parse(s: &str) -> (r: Option<Json>)
    ensures
        match r {
            Some(j) => parsed_json(s@) == Some(j@),
            None => parsed_json(s@) is None,
        },
{
    match serde_parse(s) {
        Some(v) => Some(from_document(&v)),
        None => None,
    }
}

/// The first of the members from `i` on with a name.
pub open spec fn member_from(s: Seq<(Seq<char>, JsonView)>, name: Seq<char>, i: int) -> Option<
    JsonView,
>
    decreases s.len() - i,
{
    if i < 0 || i >= s.len() {
        None
    } else if s[i].0 == name {
        Some(s[i].1)
    } else {
        member_from(s, name, i + 1)
    }
}

impl JsonView {
    /// The member with a name, where this is an object that has one.
    pub open spec fn member(self, name: Seq<char>) -> Option<JsonView> {
        match self {
            JsonView::Object(s) => member_from(s, name, 0),
            _ => None,
        }
    }

    /// The text, where this is one.
    pub open spec fn text(self) -> Option<Seq<char>> {
        match self {
            JsonView::Text(s) => Some(s),
            _ => None,
        }
    }

    /// The elements, where this is a list.
    pub open spec fn list(self) -> Option<Seq<JsonView>> {
        match self {
            JsonView::List(s) => Some(s),
            _ => None,
        }
    }

    /// The number, where this is one.
    pub open spec fn number(self) -> Option<Number> {
        match self {
            JsonView::Number(x, _) => Some(x),
            _ => None,
        }
    }

    /// The natural number, where this is one.
    pub open spec fn natural(self) -> Option<u64> {
        match self {
            JsonView::Number(_, n) => n,
            _ => None,
        }
    }

    /// The text of a member, or an empty one.
    pub open spec fn text_of(self, name: Seq<char>) -> Seq<char> {
        match self.member(name) {
            Some(v) => match v.text() {
                Some(s) => s,
                None => seq![],
            },
            None => seq![],
        }
    }
}

/// What a list holds.
pub open spec fn views(v: Seq<Json>) -> Seq<JsonView> {
    v.map_values(|j: Json| j@)
}

/// What members hold.
pub open spec fn member_views(v: Seq<(String, Json)>) -> Seq<(Seq<char>, JsonView)> {
    v.map_values(|m: (String, Json)| (m.0@, m.1@))
}

/// What a list holds are the values that its elements hold, and likewise for an object.
pub proof fn views_of_parts(j: Json)
    ensures
        j matches Json::List(v) ==> j@ == JsonView::List(views(v@)),
        j matches Json::Object(v) ==> j@ == JsonView::Object(member_views(v@)),
{
    match j {
        Json::List(v) => {
            assert(j@->List_0 =~= views(v@));
        },
        Json::Object(v) => {
            assert(j@->Object_0 =~= member_views(v@));
        },
        _ => {},
    }
}

impl Json {
    /// The member with a name, where this is an object that has one.
    pub fn member(&self, name: &str) -> (r: Option<&Json>)
        ensures
            match r {
                Some(j) => self@.member(name@) == Some(j@),
                None => self@.member(name@) is None,
            },
    {
        match self {
            Json::Object(v) => {
                let ghost all = self@->Object_0;
                proof {
                    views_of_parts(*self);
                }
                let mut i: usize = 0;
                while i < v.len()
                    invariant
                        i <= v@.len(),
                        self@ == JsonView::Object(all),
                        all.len() == v@.len(),
                        forall|k: int|
                            0 <= k < all.len() ==> all[k] == ((#[trigger] v@[k]).0@, v@[k].1@),
                        self@.member(name@) == member_from(all, name@, i as int),
                    decreases v@.len() - i,
                {
                    proof {
                        assert(all[i as int] == (v@[i as int].0@, v@[i as int].1@));
                    }
                    if text::same_text(v[i].0.as_str(), name) {
                        return Some(&v[i].1);
                    }
                    i = i + 1;
                }
                None
            },
            _ => None,
        }
    }

    /// The text, where this is one.
    pub fn as_text(&self) -> (r: Option<&str>)
        ensures
            match r {
                Some(s) => self@.text() == Some(s@),
                None => self@.text() is None,
            },
    {
        match self {
            Json::Text(s) => Some(s.as_str()),
            _ => None,
        }
    }

    /// The elements, where this is a list.
    pub fn as_list(&self) -> (r: Option<&Vec<Json>>)
        ensures
            match r {
                Some(v) => self@.list() == Some(views(v@)),
                None => self@.list() is None,
            },
    {
        match self {
            Json::List(v) => {
                proof {
                    views_of_parts(*self);
                }
                Some(v)
            },
            _ => None,
        }
    }

    /// The number, where this is one.
    pub fn as_number(&self) -> (r: Option<Number>)
        ensures
            r == self@.number(),
    {
        match self {
            Json::Number(x, _) => Some(*x),
            _ => None,
        }
    }

    /// The natural number, where this is one.
    pub fn as_natural(&self) -> (r: Option<u64>)
        ensures
            r == self@.natural(),
    {
        match self {
            Json::Number(_, n) => *n,
            _ => None,
        }
    }

    /// The text of a member, or an empty one.
    pub fn text_of(&self, name: &str) -> (r: String)
        ensures
            r@ == self@.text_of(name@),
    {
        match self.member(name) {
            Some(j) => match j.as_text() {
                Some(s) => s.to_owned(),
                None => String::new(),
            },
            None => String::new(),
        }
    }
}

// ── What a document holds ────────────────────────────────────────────────────

proof fn lemma_member_from(s: Seq<(Seq<char>, JsonView)>, name: Seq<char>, from: int, i: int)
    requires
        0 <= from <= i < s.len(),
        s[i].0 == name,
        forall|j: int| from <= j < i ==> (#[trigger] s[j]).0 != name,
    ensures
        member_from(s, name, from) == Some(s[i].1),
    decreases i - from,
{
    if from < i {
        assert(s[from].0 != name);
        lemma_member_from(s, name, from + 1, i);
    }
}

proof fn lemma_no_member(s: Seq<(Seq<char>, JsonView)>, name: Seq<char>, from: int)
    requires
        0 <= from,
        forall|j: int| from <= j < s.len() ==> (#[trigger] s[j]).0 != name,
    ensures
        member_from(s, name, from) is None,
    decreases s.len() - from,
{
    if from < s.len() {
        assert(s[from].0 != name);
        lemma_no_member(s, name, from + 1);
    }
}

/// A member of an object is found under its name, the first one where several have it; what is no
/// object has none.
pub proof fn members_are_found_under_their_name(
    doc: Json,
    name: &str,
    r: Option<&Json>,
    s: Seq<(Seq<char>, JsonView)>,
    i: int,
)
    requires
        call_ensures(Json::member, (&doc, name), r),
    ensures
        !(doc@ is Object) ==> r is None,
        doc@ == JsonView::Object(s) && 0 <= i < s.len() && s[i].0 == name@ && (forall|j: int|
            0 <= j < i ==> (#[trigger] s[j]).0 != name@) ==> (r matches Some(x) && x@ == s[i].1),
        doc@ == JsonView::Object(s) && (forall|j: int|
            0 <= j < s.len() ==> (#[trigger] s[j]).0 != name@) ==> r is None,
{
    if doc@ == JsonView::Object(s) {
        if 0 <= i < s.len() && s[i].0 == name@ && (forall|j: int|
            0 <= j < i ==> (#[trigger] s[j]).0 != name@) {
            lemma_member_from(s, name@, 0, i);
        }
        if forall|j: int| 0 <= j < s.len() ==> (#[trigger] s[j]).0 != name@ {
            lemma_no_member(s, name@, 0);
        }
    }
}

/// The text under a name is that of the member, or empty where there is no such text.
pub proof fn texts_are_found_under_their_name(
    doc: Json,
    name: &str,
    member: Option<&Json>,
    held_text: Option<&str>,
    r: String,
)
    requires
        call_ensures(Json::text_of, (&doc, name), r),
        call_ensures(Json::member, (&doc, name), member),
        member matches Some(m) ==> call_ensures(Json::as_text, (m,), held_text),
    ensures
        member is Some && held_text is Some ==> r@ == held_text->0@,
        member is Some && held_text is None ==> r@.len() == 0,
        member is None ==> r@.len() == 0,
{
}

} // verus!
