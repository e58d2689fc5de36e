//! A JSON document as the library reads and writes it.
//!
//! Numbers are `i64` or finite `f64` (by bits). A string is its text, or (where
//! the text holds a float literal or nested JSON text) what the application
//! read in that part of it, or the value that such text is to be made of.

use vstd::prelude::*;

verus! {

/// A JSON value.
#[derive(Debug, PartialEq)]
pub enum Json {
    Null,
    Bool(bool),
    Int(i64),
    /// A finite `f64` number, by its bits.
    Float(u64),
    Str(JsonStr),
    Array(Vec<Json>),
    /// The members of an object, in order.
    Object(Vec<(JsonStr, Json)>),
}

/// A JSON string (a string value or an object key).
#[derive(Debug, PartialEq)]
pub enum JsonStr {
    /// A string given by its text alone. Decoding reads no float literal and
    /// no nested JSON from it: a `float:` text other than `nan`, `inf` and
    /// `-inf` needs `FloatText`, and a `json:` text needs `JsonText`.
    Text(String),
    /// A text `float:<literal>`, with the bits of what `f64::from_str` made
    /// of the literal (`None` where it made nothing).
    FloatText(String, Option<u64>),
    /// A text `json:<rest>`, with what serde_json parsed from the rest (or
    /// its error message).
    JsonText(String, Result<Box<Json>, String>),
    /// The text `float:` followed by the shortest decimal form of a finite
    /// `f64` (by its bits).
    FloatKey(u64),
    /// The text `json:` followed by the compact JSON text of a value.
    JsonKey(Box<Json>),
}

pub enum JsonView {
    Null,
    Bool(bool),
    Int(i64),
    Float(u64),
    Str(JsonStrView),
    Array(Seq<JsonView>),
    Object(Seq<(JsonStrView, JsonView)>),
}

pub enum JsonStrView {
    Text(Seq<char>),
    FloatText(Seq<char>, Option<u64>),
    JsonText(Seq<char>, Result<Box<JsonView>, Seq<char>>),
    FloatKey(u64),
    JsonKey(Box<JsonView>),
}

pub open spec fn json_view(j: Json) -> JsonView
    decreases j,
{
    match j {
        Json::Null => JsonView::Null,
        Json::Bool(b) => JsonView::Bool(b),
        Json::Int(i) => JsonView::Int(i),
        Json::Float(f) => JsonView::Float(f),
        Json::Str(s) => JsonView::Str(str_view(s)),
        Json::Array(items) => JsonView::Array(json_views(items@)),
        Json::Object(members) => JsonView::Object(member_views(members@)),
    }
}

pub open spec fn str_view(s: JsonStr) -> JsonStrView
    decreases s,
{
    match s {
        JsonStr::Text(t) => JsonStrView::Text(t@),
        JsonStr::FloatText(t, b) => JsonStrView::FloatText(t@, b),
        JsonStr::JsonText(t, r) => JsonStrView::JsonText(
            t@,
            match r {
                Ok(j) => Ok(Box::new(json_view(*j))),
                Err(m) => Err(m@),
            },
        ),
        JsonStr::FloatKey(b) => JsonStrView::FloatKey(b),
        JsonStr::JsonKey(j) => JsonStrView::JsonKey(Box::new(json_view(*j))),
    }
}

pub open spec fn json_views(s: Seq<Json>) -> Seq<JsonView>
    decreases s,
{
    if s.len() == 0 {
        Seq::empty()
    } else {
        json_views(s.drop_last()).push(json_view(s.last()))
    }
}

pub open spec fn member_views(s: Seq<(JsonStr, Json)>) -> Seq<(JsonStrView, JsonView)>
    decreases s,
{
    if s.len() == 0 {
        Seq::empty()
    } else {
        member_views(s.drop_last()).push((str_view(s.last().0), json_view(s.last().1)))
    }
}

impl View for Json {
    type V = JsonView;

    open spec fn view(&self) -> JsonView {
        json_view(*self)
    }
}

impl View for JsonStr {
    type V = JsonStrView;

    open spec fn view(&self) -> JsonStrView {
        str_view(*self)
    }
}

pub proof fn lemma_json_views_index(s: Seq<Json>, i: int)
    requires
        0 <= i < s.len(),
    ensures
        json_views(s).len() == s.len(),
        json_views(s)[i] == json_view(s[i]),
    decreases s.len(),
{
    lemma_json_views_len(s);
    if i < s.len() - 1 {
        lemma_json_views_index(s.drop_last(), i);
    }
}

pub proof fn lemma_json_views_len(s: Seq<Json>)
    ensures
        json_views(s).len() == s.len(),
    decreases s.len(),
{
    if s.len() > 0 {
        lemma_json_views_len(s.drop_last());
    }
}

pub proof fn lemma_member_views_index(s: Seq<(JsonStr, Json)>, i: int)
    requires
        0 <= i < s.len(),
    ensures
        member_views(s).len() == s.len(),
        member_views(s)[i] == (str_view(s[i].0), json_view(s[i].1)),
    decreases s.len(),
{
    lemma_member_views_len(s);
    if i < s.len() - 1 {
        lemma_member_views_index(s.drop_last(), i);
    }
}

pub proof fn lemma_member_views_len(s: Seq<(JsonStr, Json)>)
    ensures
        member_views(s).len() == s.len(),
    decreases s.len(),
{
    if s.len() > 0 {
        lemma_member_views_len(s.drop_last());
    }
}

} // verus!
