//! The JSON mapping of values (see `json_spec` for the table of forms).

use vstd::prelude::*;
use crate::base64::{b64_encode_text, b64_decode_text, b64_encode, lemma_b64_injective};
use crate::error::{Error, ErrorView, Result};
use crate::json_model::{Json, JsonStr, JsonView, JsonStrView, json_view, str_view, json_views, member_views,
    lemma_json_views_index, lemma_json_views_len, lemma_member_views_index, lemma_member_views_len};
use crate::json_spec::{state_json, jtext, member, is_finite_bits, nonfinite_text, bytes_text, spec_to_json, key_of,
    to_json_seq, pair_arrays, dict_members, key_index, obj_insert, after_prefix, text_of, find, member_value,
    decode_float_text, decode_plain, decode_str, spec_from_json, from_json_seq, decode_object, decode_members,
    decode_instance, decode_reduce, decode_dict_items, NAN_BITS, INF_BITS, NEG_INF_BITS};
use crate::long::LongInt;
use crate::text::{concat, debug_quoted, i64_to_decimal, str_from_utf8, str_parse_i64, string_of, strip_prefix};
use crate::value::{Value, ValueView, views_of, pair_views_of};

verus! {

fn text(s: String) -> (r: Json)
    ensures
        r@ == jtext(s@),
{
    Json::Str(JsonStr::Text(s))
}

fn member_of(key: &str, v: Json) -> (r: (JsonStr, Json))
    ensures
        (r.0@, r.1@) == member(key@, v@),
{
    (JsonStr::Text(string_of(key)), v)
}

/// Whether float bits are those of a finite number.
fn is_finite(f: u64) -> (r: bool)
    ensures
        r == is_finite_bits(f),
{
    (f / 0x10_0000_0000_0000) % 0x800 != 0x7ff
}

/// `"float:nan"`, `"float:inf"` or `"float:-inf"`.
fn nonfinite(f: u64) -> (r: String)
    ensures
        r@ == nonfinite_text(f),
{
    if !is_finite(f) && f % 0x10_0000_0000_0000 != 0 {
        string_of("float:nan")
    } else if f < 0x8000_0000_0000_0000 {
        string_of("float:inf")
    } else {
        string_of("float:-inf")
    }
}

/// `"bytes:<text>"` for valid UTF-8 that does not start with `b64:`, else
/// `"bytes:b64:<base64>"`.
fn encode_bytes(b: &[u8]) -> (r: String)
    ensures
        r@ == bytes_text(b@),
{
    match str_from_utf8(b) {
        Some(s) => {
            if strip_prefix(s, "b64:").is_none() {
                return concat("bytes:", s);
            }
        },
        None => {},
    }
    let enc = b64_encode_text(b);
    concat("bytes:b64:", enc.as_str())
}

proof fn lemma_json_views_push(s: Seq<Json>, x: Json)
    ensures
        json_views(s.push(x)) == json_views(s).push(x@),
{
    assert(s.push(x).drop_last() =~= s);
}

proof fn lemma_views_push(s: Seq<Value>, x: Value)
    ensures
        views_of(s.push(x)) == views_of(s).push(x@),
{
    assert(s.push(x).drop_last() =~= s);
}

proof fn lemma_pair_views_push(s: Seq<(Value, Value)>, x: (Value, Value))
    ensures
        pair_views_of(s.push(x)) == pair_views_of(s).push((x.0@, x.1@)),
{
    assert(s.push(x).drop_last() =~= s);
}

proof fn lemma_to_json_seq_push(s: Seq<ValueView>, x: ValueView)
    ensures
        to_json_seq(s.push(x)) == to_json_seq(s).push(spec_to_json(x)),
{
    assert(s.push(x).drop_last() =~= s);
}

proof fn lemma_pair_arrays_push(s: Seq<(ValueView, ValueView)>, x: (ValueView, ValueView))
    ensures
        pair_arrays(s.push(x)) == pair_arrays(s).push(JsonView::Array(seq![spec_to_json(x.0), spec_to_json(x.1)])),
{
    assert(s.push(x).drop_last() =~= s);
}

proof fn lemma_dict_members_push(s: Seq<(ValueView, ValueView)>, x: (ValueView, ValueView))
    ensures
        dict_members(s.push(x)) == obj_insert(dict_members(s), key_of(x.0), spec_to_json(x.1)),
{
    assert(s.push(x).drop_last() =~= s);
}

proof fn lemma_member_views_push(s: Seq<(JsonStr, Json)>, x: (JsonStr, Json))
    ensures
        member_views(s.push(x)) == member_views(s).push((x.0@, x.1@)),
{
    assert(s.push(x).drop_last() =~= s);
}

/// An object of members given in order.
fn object_of(members: Vec<(JsonStr, Json)>, Ghost(expected): Ghost<Seq<(JsonStrView, JsonView)>>) -> (r: Json)
    requires
        member_views(members@) == expected,
    ensures
        r@ == JsonView::Object(expected),
{
    Json::Object(members)
}

/// The JSON form of a value.
pub fn to_json(v: &Value) -> (r: Json)
    ensures
        r@ == spec_to_json(v@),
    decreases v, 0nat,
{
    match v {
        Value::Null => Json::Null,
        Value::Bool(b) => Json::Bool(*b),
        Value::Int(i) => Json::Int(*i),
        Value::Float(f) => {
            if is_finite(*f) {
                Json::Float(*f)
            } else {
                text(nonfinite(*f))
            }
        },
        Value::Long(n) => {
            let d = n.to_decimal();
            text(concat("long:", d.as_str()))
        },
        Value::Str(s) => text(concat("utf8:", s.as_str())),
        Value::Bytes(b) => text(encode_bytes(b.as_slice())),
        Value::Global(name) => text(concat("global:", name.as_str())),
        Value::List(items) => Json::Array(to_json_items(items)),
        Value::Tuple(items) => {
            let arr = Json::Array(to_json_items(items));
            let mut m: Vec<(JsonStr, Json)> = Vec::new();
            let e = member_of("tuple", arr);
            proof { lemma_member_views_push(m@, e); }
            m.push(e);
            let ghost ev = seq![member("tuple"@, JsonView::Array(to_json_seq(views_of(items@))))];
            object_of(m, Ghost(ev))
        },
        Value::Dict(pairs) => Json::Object(dict_object(pairs)),
        Value::Instance { class, state } => {
            let mut inner: Vec<(JsonStr, Json)> = Vec::new();
            let e0 = member_of("class", text(class.clone()));
            proof { lemma_member_views_push(inner@, e0); }
            inner.push(e0);
            let e1 = member_of("state", to_json(state));
            proof { lemma_member_views_push(inner@, e1); }
            inner.push(e1);
            let ghost iv = seq![member("class"@, jtext(class@)), member("state"@, spec_to_json(state@))];
            proof {
                assert(member_views(inner@) =~= iv);
            }
            let obj = object_of(inner, Ghost(iv));
            let mut m: Vec<(JsonStr, Json)> = Vec::new();
            let e = member_of("instance", obj);
            proof { lemma_member_views_push(m@, e); }
            m.push(e);
            let ghost ev = seq![member("instance"@, JsonView::Object(iv))];
            object_of(m, Ghost(ev))
        },
        Value::Reduce { newobj, callable, args, state, list_items, dict_items } => {
            let mut inner: Vec<(JsonStr, Json)> = Vec::new();
            let e0 = member_of("newobj", Json::Bool(*newobj));
            proof { lemma_member_views_push(inner@, e0); }
            inner.push(e0);
            let e1 = member_of("callable", to_json(callable));
            proof { lemma_member_views_push(inner@, e1); }
            inner.push(e1);
            let e2 = member_of("args", to_json(args));
            proof { lemma_member_views_push(inner@, e2); }
            inner.push(e2);
            let sj = match state {
                Some(s) => match &**s {
                    Value::Null => text(string_of("none")),
                    _ => to_json(s),
                },
                None => Json::Null,
            };
            proof {
                match v@ {
                    ValueView::Reduce { state: sv, .. } => assert(sj@ == state_json(sv)),
                    _ => {},
                }
            }
            let e3 = member_of("state", sj);
            proof { lemma_member_views_push(inner@, e3); }
            inner.push(e3);
            let e4 = member_of("list_items", Json::Array(to_json_items(list_items)));
            proof { lemma_member_views_push(inner@, e4); }
            inner.push(e4);
            let e5 = member_of("dict_items", Json::Array(pair_arrays_of(dict_items)));
            proof { lemma_member_views_push(inner@, e5); }
            inner.push(e5);
            let ghost iv = seq![
                member("newobj"@, JsonView::Bool(*newobj)),
                member("callable"@, spec_to_json(callable@)),
                member("args"@, spec_to_json(args@)),
                member("state"@, sj@),
                member("list_items"@, JsonView::Array(to_json_seq(views_of(list_items@)))),
                member("dict_items"@, JsonView::Array(pair_arrays(pair_views_of(dict_items@)))),
            ];
            proof {
                assert(member_views(inner@) =~= iv);
            }
            let obj = object_of(inner, Ghost(iv));
            let mut m: Vec<(JsonStr, Json)> = Vec::new();
            let e = member_of("reduce", obj);
            proof { lemma_member_views_push(m@, e); }
            m.push(e);
            let ghost ev = seq![member("reduce"@, JsonView::Object(iv))];
            proof {
                let sp = spec_to_json(v@);
                assert(sp->Object_0[0].1->Object_0 =~= iv);
                assert(sp->Object_0 =~= ev);
            }
            object_of(m, Ghost(ev))
        },
        Value::Callback(inner) => {
            let mut m: Vec<(JsonStr, Json)> = Vec::new();
            let e = member_of("callback", to_json(inner));
            proof { lemma_member_views_push(m@, e); }
            m.push(e);
            let ghost ev = seq![member("callback"@, spec_to_json(inner@))];
            object_of(m, Ghost(ev))
        },
    }
}

/// The JSON form of a dict key: always a string.
fn encode_key(v: &Value) -> (r: JsonStr)
    ensures
        r@ == key_of(v@),
    decreases v, 1nat,
{
    match v {
        Value::Null => JsonStr::Text(string_of("none")),
        Value::Bool(b) => JsonStr::Text(
            if *b {
                string_of("bool:true")
            } else {
                string_of("bool:false")
            },
        ),
        Value::Int(i) => {
            let d = i64_to_decimal(*i);
            JsonStr::Text(concat("int:", d.as_str()))
        },
        Value::Float(f) => {
            if is_finite(*f) {
                JsonStr::FloatKey(*f)
            } else {
                JsonStr::Text(nonfinite(*f))
            }
        },
        Value::Long(n) => {
            let d = n.to_decimal();
            JsonStr::Text(concat("long:", d.as_str()))
        },
        Value::Str(s) => JsonStr::Text(concat("utf8:", s.as_str())),
        Value::Bytes(b) => JsonStr::Text(encode_bytes(b.as_slice())),
        Value::Global(name) => JsonStr::Text(concat("global:", name.as_str())),
        _ => JsonStr::JsonKey(Box::new(to_json(v))),
    }
}

/// The JSON form of each value, in order.
fn to_json_items(items: &Vec<Value>) -> (r: Vec<Json>)
    ensures
        json_views(r@) == to_json_seq(views_of(items@)),
    decreases items, 0nat,
{
    let mut out: Vec<Json> = Vec::new();
    let mut i: usize = 0;
    while i < items.len()
        invariant
            i <= items.len(),
            json_views(out@) == to_json_seq(views_of(items@.take(i as int))),
        decreases items.len() - i,
    {
        proof {
            assert(decreases_to!(*items => items[i as int]));
        }
        let j = to_json(&items[i]);
        proof {
            lemma_json_views_push(out@, j);
            assert(items@.take(i + 1).drop_last() == items@.take(i as int));
            lemma_views_push(items@.take(i as int), items[i as int]);
            lemma_to_json_seq_push(views_of(items@.take(i as int)), items[i as int]@);
        }
        out.push(j);
        i = i + 1;
    }
    proof {
        assert(items@.take(items.len() as int) == items@);
    }
    out
}

/// Each pair as a two-element array.
fn pair_arrays_of(pairs: &Vec<(Value, Value)>) -> (r: Vec<Json>)
    ensures
        json_views(r@) == pair_arrays(pair_views_of(pairs@)),
    decreases pairs, 0nat,
{
    let mut out: Vec<Json> = Vec::new();
    let mut i: usize = 0;
    while i < pairs.len()
        invariant
            i <= pairs.len(),
            json_views(out@) == pair_arrays(pair_views_of(pairs@.take(i as int))),
        decreases pairs.len() - i,
    {
        proof {
            assert(decreases_to!(*pairs => pairs[i as int]));
            assert(decreases_to!(pairs[i as int] => pairs[i as int].0));
            assert(decreases_to!(pairs[i as int] => pairs[i as int].1));
        }
        let k = to_json(&pairs[i].0);
        let v = to_json(&pairs[i].1);
        let mut kv: Vec<Json> = Vec::new();
        proof { lemma_json_views_push(kv@, k); }
        kv.push(k);
        proof { lemma_json_views_push(kv@, v); }
        kv.push(v);
        let a = Json::Array(kv);
        proof {
            lemma_json_views_push(out@, a);
            assert(pairs@.take(i + 1).drop_last() == pairs@.take(i as int));
            lemma_pair_views_push(pairs@.take(i as int), pairs[i as int]);
            lemma_pair_arrays_push(pair_views_of(pairs@.take(i as int)), (pairs[i as int].0@, pairs[i as int].1@));
            assert(json_views(kv@) =~= seq![spec_to_json(pairs[i as int].0@), spec_to_json(pairs[i as int].1@)]);
        }
        out.push(a);
        i = i + 1;
    }
    proof {
        assert(pairs@.take(pairs.len() as int) == pairs@);
    }
    out
}

/// The members of a dict's object: each pair set in turn, so that a key met
/// again keeps its first place and takes the later value.
fn dict_object(pairs: &Vec<(Value, Value)>) -> (r: Vec<(JsonStr, Json)>)
    ensures
        member_views(r@) == dict_members(pair_views_of(pairs@)),
    decreases pairs, 0nat,
{
    let mut out: Vec<(JsonStr, Json)> = Vec::new();
    let mut i: usize = 0;
    while i < pairs.len()
        invariant
            i <= pairs.len(),
            member_views(out@) == dict_members(pair_views_of(pairs@.take(i as int))),
        decreases pairs.len() - i,
    {
        proof {
            assert(decreases_to!(*pairs => pairs[i as int]));
            assert(decreases_to!(pairs[i as int] => pairs[i as int].0));
            assert(decreases_to!(pairs[i as int] => pairs[i as int].1));
        }
        let k = encode_key(&pairs[i].0);
        let v = to_json(&pairs[i].1);
        object_insert(&mut out, k, v);
        proof {
            assert(pairs@.take(i + 1).drop_last() == pairs@.take(i as int));
            lemma_pair_views_push(pairs@.take(i as int), pairs[i as int]);
            lemma_dict_members_push(pair_views_of(pairs@.take(i as int)), (pairs[i as int].0@, pairs[i as int].1@));
        }
        i = i + 1;
    }
    proof {
        assert(pairs@.take(pairs.len() as int) == pairs@);
    }
    out
}

/// `key_index` is the first place of a key, or -1 where it is missing.
pub proof fn lemma_key_index(m: Seq<(JsonStrView, JsonView)>, k: JsonStrView)
    ensures
        -1 <= key_index(m, k) < m.len(),
        key_index(m, k) >= 0 ==> m[key_index(m, k)].0 == k,
        forall|j: int| 0 <= j < m.len() && (j < key_index(m, k) || key_index(m, k) == -1) ==> m[j].0 != k,
    decreases m.len(),
{
    if m.len() > 0 {
        lemma_key_index(m.drop_last(), k);
        assert forall|j: int| 0 <= j < m.len() - 1 implies m.drop_last()[j] == #[trigger] m[j] by {}
    }
}

/// Sets a member: an existing key keeps its place and takes the value; a new
/// key goes last.
fn object_insert(m: &mut Vec<(JsonStr, Json)>, k: JsonStr, v: Json)
    ensures
        member_views(final(m)@) == obj_insert(member_views(old(m)@), k@, v@),
{
    let ghost mv = member_views(old(m)@);
    proof {
        lemma_key_index(mv, k@);
        lemma_member_views_len(old(m)@);
    }
    let mut i: usize = 0;
    while i < m.len()
        invariant
            i <= m.len(),
            *m == *old(m),
            mv == member_views(m@),
            mv.len() == m.len(),
            forall|j: int| 0 <= j < i ==> mv[j].0 != k@,
        decreases m.len() - i,
    {
        let same = json_str_eq(&m[i].0, &k);
        proof {
            lemma_member_views_index(m@, i as int);
        }
        if same {
            proof {
                lemma_key_index(mv, k@);
                assert(key_index(mv, k@) == i);
            }
            let (k0, _) = m.remove(i);
            m.insert(i, (k0, v));
            proof {
                let nm = final(m)@;
                assert forall|j: int| 0 <= j < nm.len() implies #[trigger] member_views(nm)[j] == mv.update(i as int, (mv[i as int].0, v@))[j] by {
                    lemma_member_views_index(nm, j);
                    lemma_member_views_index(old(m)@, j);
                }
                lemma_member_views_len(nm);
                assert(member_views(nm) =~= mv.update(i as int, (mv[i as int].0, v@)));
            }
            return;
        }
        i = i + 1;
    }
    proof {
        lemma_key_index(mv, k@);
        assert(key_index(mv, k@) == -1);
        lemma_member_views_push(m@, (k, v));
    }
    m.push((k, v));
}

/// Whether two JSON values are the same.
fn json_eq(a: &Json, b: &Json) -> (r: bool)
    ensures
        r == (a@ == b@),
    decreases a,
{
    match a {
        Json::Null => match b {
            Json::Null => true,
            _ => false,
        },
        Json::Bool(x) => match b {
            Json::Bool(y) => *x == *y,
            _ => false,
        },
        Json::Int(x) => match b {
            Json::Int(y) => *x == *y,
            _ => false,
        },
        Json::Float(x) => match b {
            Json::Float(y) => *x == *y,
            _ => false,
        },
        Json::Str(x) => match b {
            Json::Str(y) => json_str_eq(x, y),
            _ => false,
        },
        Json::Array(x) => match b {
            Json::Array(y) => jsons_eq(x, y),
            _ => false,
        },
        Json::Object(x) => match b {
            Json::Object(y) => members_eq(x, y),
            _ => false,
        },
    }
}

/// Whether two sequences of JSON values are the same.
fn jsons_eq(x: &Vec<Json>, y: &Vec<Json>) -> (r: bool)
    ensures
        r == (json_views(x@) == json_views(y@)),
    decreases x,
{
    proof {
        lemma_json_views_len(x@);
        lemma_json_views_len(y@);
    }
    if x.len() != y.len() {
        return false;
    }
    let mut i: usize = 0;
    while i < x.len()
        invariant
            i <= x.len(),
            x.len() == y.len(),
            forall|j: int| 0 <= j < i ==> json_view(#[trigger] x@[j]) == json_view(y@[j]),
        decreases x.len() - i,
    {
        proof {
            assert(decreases_to!(*x => x[i as int]));
        }
        if !json_eq(&x[i], &y[i]) {
            proof {
                lemma_json_views_index(x@, i as int);
                lemma_json_views_index(y@, i as int);
            }
            return false;
        }
        i = i + 1;
    }
    proof {
        assert forall|j: int| 0 <= j < x.len() implies json_views(x@)[j] == json_views(y@)[j] by {
            lemma_json_views_index(x@, j);
            lemma_json_views_index(y@, j);
        }
        assert(json_views(x@) =~= json_views(y@));
    }
    true
}

/// Whether two sequences of object members are the same.
fn members_eq(x: &Vec<(JsonStr, Json)>, y: &Vec<(JsonStr, Json)>) -> (r: bool)
    ensures
        r == (member_views(x@) == member_views(y@)),
    decreases x,
{
    proof {
        lemma_member_views_len(x@);
        lemma_member_views_len(y@);
    }
    if x.len() != y.len() {
        return false;
    }
    let mut i: usize = 0;
    while i < x.len()
        invariant
            i <= x.len(),
            x.len() == y.len(),
            forall|j: int| 0 <= j < i ==> str_view(#[trigger] x@[j].0) == str_view(y@[j].0) && json_view(x@[j].1) == json_view(y@[j].1),
        decreases x.len() - i,
    {
        proof {
            assert(decreases_to!(*x => x[i as int]));
            assert(decreases_to!(x[i as int] => x[i as int].0));
            assert(decreases_to!(x[i as int] => x[i as int].1));
        }
        if !json_str_eq(&x[i].0, &y[i].0) || !json_eq(&x[i].1, &y[i].1) {
            proof {
                lemma_member_views_index(x@, i as int);
                lemma_member_views_index(y@, i as int);
            }
            return false;
        }
        i = i + 1;
    }
    proof {
        assert forall|j: int| 0 <= j < x.len() implies member_views(x@)[j] == member_views(y@)[j] by {
            lemma_member_views_index(x@, j);
            lemma_member_views_index(y@, j);
        }
        assert(member_views(x@) =~= member_views(y@));
    }
    true
}

/// Whether two JSON strings are the same.
fn json_str_eq(a: &JsonStr, b: &JsonStr) -> (r: bool)
    ensures
        r == (a@ == b@),
    decreases a,
{
    match (a, b) {
        (JsonStr::Text(x), JsonStr::Text(y)) => *x == *y,
        (JsonStr::FloatText(x, fx), JsonStr::FloatText(y, fy)) => {
            let same_bits = match (fx, fy) {
                (Some(p), Some(q)) => *p == *q,
                (None, None) => true,
                _ => false,
            };
            *x == *y && same_bits
        },
        (JsonStr::JsonText(x, rx), JsonStr::JsonText(y, ry)) => {
            if *x != *y {
                return false;
            }
            match (rx, ry) {
                (Ok(p), Ok(q)) => json_eq(p, q),
                (Err(p), Err(q)) => *p == *q,
                _ => false,
            }
        },
        (JsonStr::FloatKey(x), JsonStr::FloatKey(y)) => *x == *y,
        (JsonStr::JsonKey(x), JsonStr::JsonKey(y)) => json_eq(x, y),
        _ => false,
    }
}

} // verus!

verus! {

/// A result of the mapping as mathematics sees it.
pub open spec fn result_view(r: Result<Value>) -> core::result::Result<ValueView, ErrorView> {
    match r {
        Ok(v) => Ok(v@),
        Err(e) => Err(e@),
    }
}

pub proof fn lemma_after_prefix(p: Seq<char>, rest: Seq<char>)
    ensures
        p.is_prefix_of(p + rest),
        after_prefix(p, p + rest) == rest,
{
    assert((p + rest).subrange(0, p.len() as int) =~= p);
    assert((p + rest).subrange(p.len() as int, (p + rest).len() as int) =~= rest);
}

/// The text after a prefix, where the text starts with it.
fn after<'a>(s: &'a str, prefix: &str) -> (r: Option<&'a str>)
    ensures
        r is Some <==> prefix@.is_prefix_of(s@),
        r matches Some(rest) ==> rest@ == after_prefix(prefix@, s@),
{
    let r = strip_prefix(s, prefix);
    proof {
        if let Some(rest) = r {
            lemma_after_prefix(prefix@, rest@);
        }
    }
    r
}

/// Whether two texts are the same.
fn same_text(a: &str, b: &str) -> (r: bool)
    ensures
        r == (a@ == b@),
{
    string_of(a) == string_of(b)
}

fn json_error(msg: &str, detail: &str) -> (r: Error)
    ensures
        r@ == ErrorView::Json(msg@ + crate::text::debug_text(detail@)),
{
    let d = debug_quoted(detail);
    Error::Json(concat(msg, d.as_str()))
}

/// A float after `float:`.
fn float_text_value(rest: &str, bits: Option<u64>) -> (r: Result<Value>)
    ensures
        result_view(r) == decode_float_text(rest@, bits),
{
    if same_text(rest, "nan") {
        Ok(Value::Float(NAN_BITS))
    } else if same_text(rest, "inf") {
        Ok(Value::Float(INF_BITS))
    } else if same_text(rest, "-inf") {
        Ok(Value::Float(NEG_INF_BITS))
    } else {
        match bits {
            Some(b) => Ok(Value::Float(b)),
            None => Err(json_error("bad float literal ", rest)),
        }
    }
}

/// A string that does not start with `json:`, by its prefix.
fn plain_value(t: &str, float: Option<u64>) -> (r: Result<Value>)
    ensures
        result_view(r) == decode_plain(t@, float),
{
    if let Some(rest) = after(t, "long:") {
        return match LongInt::from_decimal(rest) {
            Some(n) => Ok(Value::Long(n)),
            None => Err(json_error("bad long literal ", rest)),
        };
    }
    if let Some(rest) = after(t, "bytes:") {
        if let Some(enc) = after(rest, "b64:") {
            return match b64_decode_text(enc) {
                Ok(b) => {
                    proof {
                        let c = choose|c: Seq<u8>| b64_encode(c) == enc@;
                        lemma_b64_injective(c, b@);
                    }
                    Ok(Value::Bytes(b))
                },
                Err(m) => Err(Error::Json(concat("bad base64 in bytes: ", m.as_str()))),
            };
        }
        return Ok(Value::Bytes(vstd::slice::slice_to_vec(rest.as_bytes())));
    }
    if let Some(rest) = after(t, "utf8:") {
        return Ok(Value::Str(string_of(rest)));
    }
    if let Some(rest) = after(t, "global:") {
        return Ok(Value::Global(string_of(rest)));
    }
    if let Some(rest) = after(t, "float:") {
        return float_text_value(rest, float);
    }
    if let Some(rest) = after(t, "bool:") {
        return if same_text(rest, "true") {
            Ok(Value::Bool(true))
        } else if same_text(rest, "false") {
            Ok(Value::Bool(false))
        } else {
            Err(json_error("bad bool literal ", rest))
        };
    }
    if let Some(rest) = after(t, "int:") {
        return match str_parse_i64(rest) {
            Some(i) => Ok(Value::Int(i)),
            None => Err(json_error("bad int literal ", rest)),
        };
    }
    if same_text(t, "none") {
        return Ok(Value::Null);
    }
    Err(json_error("string value/key without a recognized prefix: ", t))
}

/// The text of a JSON string, where it has one.
fn str_text(s: &JsonStr) -> (r: Option<String>)
    ensures
        match text_of(s@) {
            Some(t) => r matches Some(x) && x@ == t,
            None => r is None,
        },
{
    match s {
        JsonStr::Text(t) => Some(t.clone()),
        JsonStr::FloatText(t, _) => Some(t.clone()),
        JsonStr::JsonText(t, _) => Some(t.clone()),
        _ => None,
    }
}

/// Whether a key's text is the given one.
fn key_is(k: &JsonStr, key: &str) -> (r: bool)
    ensures
        r == (text_of(k@) == Some(key@)),
{
    match k {
        JsonStr::Text(t) => same_text(t.as_str(), key),
        JsonStr::FloatText(t, _) => same_text(t.as_str(), key),
        JsonStr::JsonText(t, _) => same_text(t.as_str(), key),
        _ => false,
    }
}

/// `find` is the first place of a key's text, or -1 where it is missing.
pub proof fn lemma_find(m: Seq<(JsonStrView, JsonView)>, key: Seq<char>)
    ensures
        -1 <= find(m, key) < m.len(),
        find(m, key) >= 0 ==> text_of(m[find(m, key)].0) == Some(key),
        forall|j: int| 0 <= j < m.len() && (j < find(m, key) || find(m, key) == -1) ==> text_of(m[j].0) != Some(key),
    decreases m.len(),
{
    if m.len() > 0 {
        lemma_find(m.drop_last(), key);
        assert forall|j: int| 0 <= j < m.len() - 1 implies m.drop_last()[j] == #[trigger] m[j] by {}
    }
}

/// The place of the first member whose key has the given text.
fn find_member(m: &Vec<(JsonStr, Json)>, key: &str) -> (r: Option<usize>)
    ensures
        match r {
            Some(i) => i < m.len() && find(member_views(m@), key@) == i,
            None => find(member_views(m@), key@) == -1,
        },
{
    let ghost mv = member_views(m@);
    let mut i: usize = 0;
    while i < m.len()
        invariant
            i <= m.len(),
            mv == member_views(m@),
            forall|j: int| 0 <= j < i ==> text_of(#[trigger] mv[j].0) != Some(key@),
        decreases m.len() - i,
    {
        proof {
            lemma_member_views_index(m@, i as int);
        }
        if key_is(&m[i].0, key) {
            proof {
                lemma_find(mv, key@);
            }
            return Some(i);
        }
        i = i + 1;
    }
    proof {
        lemma_find(mv, key@);
        lemma_member_views_len(m@);
    }
    None
}

/// A string value or a dict key, by its prefix.
fn decode_string(s: &JsonStr) -> (r: Result<Value>)
    ensures
        result_view(r) == decode_str(s@),
    decreases s, 0nat,
{
    match s {
        JsonStr::Text(t) => {
            if after(t.as_str(), "json:").is_some() {
                Err(Error::Json(string_of("bad nested json: ")))
            } else {
                plain_value(t.as_str(), None)
            }
        },
        JsonStr::FloatText(t, b) => {
            if after(t.as_str(), "json:").is_some() {
                Err(Error::Json(string_of("bad nested json: ")))
            } else {
                plain_value(t.as_str(), *b)
            }
        },
        JsonStr::JsonText(t, parsed) => {
            if after(t.as_str(), "json:").is_some() {
                match parsed {
                    Ok(j) => from_json(j),
                    Err(m) => Err(Error::Json(concat("bad nested json: ", m.as_str()))),
                }
            } else {
                plain_value(t.as_str(), None)
            }
        },
        JsonStr::FloatKey(b) => Ok(Value::Float(*b)),
        JsonStr::JsonKey(j) => from_json(j),
    }
}

/// The value of a JSON document.
pub fn from_json(j: &Json) -> (r: Result<Value>)
    ensures
        match spec_from_json(j@) {
            Ok(v) => r matches Ok(x) && x@ == v,
            Err(e) => r matches Err(x) && x@ == e,
        },
    decreases j, 0nat,
{
    match j {
        Json::Null => Ok(Value::Null),
        Json::Bool(b) => Ok(Value::Bool(*b)),
        Json::Int(i) => Ok(Value::Int(*i)),
        Json::Float(f) => Ok(Value::Float(*f)),
        Json::Str(s) => decode_string(s),
        Json::Array(items) => match from_json_items(items) {
            Ok(vs) => Ok(Value::List(vs)),
            Err(e) => Err(e),
        },
        Json::Object(m) => object_value(m),
    }
}

/// Once a prefix of the items fails, so do the items.
proof fn lemma_from_json_seq_err(s: Seq<JsonView>, n: int)
    requires
        0 <= n <= s.len(),
        from_json_seq(s.take(n)) is Err,
    ensures
        from_json_seq(s) == from_json_seq(s.take(n)),
    decreases s.len(),
{
    if n == s.len() {
        assert(s.take(n) =~= s);
    } else {
        assert(s.drop_last().take(n) =~= s.take(n));
        lemma_from_json_seq_err(s.drop_last(), n);
    }
}

proof fn lemma_decode_members_err(s: Seq<(JsonStrView, JsonView)>, n: int)
    requires
        0 <= n <= s.len(),
        decode_members(s.take(n)) is Err,
    ensures
        decode_members(s) == decode_members(s.take(n)),
    decreases s.len(),
{
    if n == s.len() {
        assert(s.take(n) =~= s);
    } else {
        assert(s.drop_last().take(n) =~= s.take(n));
        lemma_decode_members_err(s.drop_last(), n);
    }
}

proof fn lemma_decode_dict_items_err(s: Seq<JsonView>, n: int)
    requires
        0 <= n <= s.len(),
        decode_dict_items(s.take(n)) is Err,
    ensures
        decode_dict_items(s) == decode_dict_items(s.take(n)),
    decreases s.len(),
{
    if n == s.len() {
        assert(s.take(n) =~= s);
    } else {
        assert(s.drop_last().take(n) =~= s.take(n));
        lemma_decode_dict_items_err(s.drop_last(), n);
    }
}

/// The value of each item, in order; the first error stops.
fn from_json_items(items: &Vec<Json>) -> (r: Result<Vec<Value>>)
    ensures
        match from_json_seq(json_views(items@)) {
            Ok(vs) => r matches Ok(x) && views_of(x@) == vs,
            Err(e) => r matches Err(x) && x@ == e,
        },
    decreases items, 0nat,
{
    let ghost js = json_views(items@);
    proof {
        lemma_json_views_len(items@);
    }
    let mut out: Vec<Value> = Vec::new();
    let mut i: usize = 0;
    while i < items.len()
        invariant
            i <= items.len(),
            js == json_views(items@),
            js.len() == items.len(),
            from_json_seq(js.take(i as int)) == Ok::<Seq<ValueView>, ErrorView>(views_of(out@)),
        decreases items.len() - i,
    {
        proof {
            assert(decreases_to!(*items => items[i as int]));
            lemma_json_views_index(items@, i as int);
            assert(js.take(i + 1).drop_last() =~= js.take(i as int));
        }
        match from_json(&items[i]) {
            Ok(v) => {
                proof {
                    lemma_views_push(out@, v);
                }
                out.push(v);
            },
            Err(e) => {
                proof {
                    lemma_from_json_seq_err(js, i + 1);
                }
                return Err(e);
            },
        }
        i = i + 1;
    }
    proof {
        assert(js.take(items.len() as int) =~= js);
    }
    Ok(out)
}

/// An object: the four one-member forms, else a dict.
fn object_value(m: &Vec<(JsonStr, Json)>) -> (r: Result<Value>)
    ensures
        result_view(r) == decode_object(member_views(m@)),
    decreases m, 1nat,
{
    proof {
        lemma_member_views_len(m@);
    }
    if m.len() == 1 {
        proof {
            lemma_member_views_index(m@, 0);
            assert(decreases_to!(*m => m[0]));
            assert(decreases_to!(m[0] => m[0].1));
        }
        let k = &m[0].0;
        let val = &m[0].1;
        if key_is(k, "tuple") {
            if let Json::Array(items) = val {
                return match from_json_items(items) {
                    Ok(vs) => Ok(Value::Tuple(vs)),
                    Err(e) => Err(e),
                };
            }
        }
        if key_is(k, "instance") {
            if let Json::Object(inner) = val {
                return instance_value(inner);
            }
        }
        if key_is(k, "reduce") {
            if let Json::Object(inner) = val {
                return reduce_value(inner);
            }
        }
        if key_is(k, "callback") {
            return match from_json(val) {
                Ok(v) => Ok(Value::Callback(Box::new(v))),
                Err(e) => Err(e),
            };
        }
    }
    match members_dict(m) {
        Ok(pairs) => Ok(Value::Dict(pairs)),
        Err(e) => Err(e),
    }
}

/// The pairs of a dict's object: each key, then its value.
fn members_dict(m: &Vec<(JsonStr, Json)>) -> (r: Result<Vec<(Value, Value)>>)
    ensures
        match decode_members(member_views(m@)) {
            Ok(ps) => r matches Ok(x) && pair_views_of(x@) == ps,
            Err(e) => r matches Err(x) && x@ == e,
        },
    decreases m, 0nat,
{
    let ghost mv = member_views(m@);
    proof {
        lemma_member_views_len(m@);
    }
    let mut out: Vec<(Value, Value)> = Vec::new();
    let mut i: usize = 0;
    while i < m.len()
        invariant
            i <= m.len(),
            mv == member_views(m@),
            mv.len() == m.len(),
            decode_members(mv.take(i as int)) == Ok::<Seq<(ValueView, ValueView)>, ErrorView>(pair_views_of(out@)),
        decreases m.len() - i,
    {
        proof {
            assert(decreases_to!(*m => m[i as int]));
            assert(decreases_to!(m[i as int] => m[i as int].0));
            assert(decreases_to!(m[i as int] => m[i as int].1));
            lemma_member_views_index(m@, i as int);
            assert(mv.take(i + 1).drop_last() =~= mv.take(i as int));
        }
        let k = match decode_string(&m[i].0) {
            Ok(k) => k,
            Err(e) => {
                proof {
                    lemma_decode_members_err(mv, i + 1);
                }
                return Err(e);
            },
        };
        let v = match from_json(&m[i].1) {
            Ok(v) => v,
            Err(e) => {
                proof {
                    lemma_decode_members_err(mv, i + 1);
                }
                return Err(e);
            },
        };
        proof {
            lemma_pair_views_push(out@, (k, v));
        }
        out.push((k, v));
        i = i + 1;
    }
    proof {
        assert(mv.take(m.len() as int) =~= mv);
    }
    Ok(out)
}

/// `{"class": ..., "state": ...}`.
fn instance_value(m: &Vec<(JsonStr, Json)>) -> (r: Result<Value>)
    ensures
        result_view(r) == decode_instance(member_views(m@)),
    decreases m, 0nat,
{
    let ghost mv = member_views(m@);
    let class = match find_member(m, "class") {
        Some(i) => {
            proof {
                lemma_member_views_index(m@, i as int);
            }
            match &m[i].1 {
                Json::Str(s) => str_text(s),
                _ => None,
            }
        },
        None => None,
    };
    let class = match class {
        Some(c) => c,
        None => {
            return Err(Error::Json(string_of("instance missing class")));
        },
    };
    match find_member(m, "state") {
        Some(i) => {
            proof {
                lemma_member_views_index(m@, i as int);
                assert(decreases_to!(*m => m[i as int]));
                assert(decreases_to!(m[i as int] => m[i as int].1));
            }
            match from_json(&m[i].1) {
                Ok(st) => Ok(Value::Instance { class, state: Box::new(st) }),
                Err(e) => Err(e),
            }
        },
        None => Err(Error::Json(string_of("instance missing state"))),
    }
}

/// The value of the member with the given key text, where there is one.
fn member_json<'a>(m: &'a Vec<(JsonStr, Json)>, key: &str) -> (r: Option<&'a Json>)
    ensures
        match member_value(member_views(m@), key@) {
            Some(v) => r matches Some(x) && x@ == v,
            None => r is None,
        },
        r matches Some(x) ==> decreases_to!(*m => *x),
{
    match find_member(m, key) {
        Some(i) => {
            proof {
                lemma_member_views_index(m@, i as int);
                assert(decreases_to!(*m => m[i as int]));
                assert(decreases_to!(m[i as int] => m[i as int].1));
            }
            Some(&m[i].1)
        },
        None => {
            proof {
                lemma_member_views_len(m@);
            }
            None
        },
    }
}

/// `{"newobj": .., "callable": .., "args": .., "state": .., "list_items": [..],
/// "dict_items": [[k, v], ..]}`.
fn reduce_value(m: &Vec<(JsonStr, Json)>) -> (r: Result<Value>)
    ensures
        result_view(r) == decode_reduce(member_views(m@)),
    decreases m, 0nat,
{
    let ghost mv = member_views(m@);
    proof {
        lemma_member_views_len(m@);
    }
    let newobj = match member_json(m, "newobj") {
        Some(Json::Bool(b)) => *b,
        _ => false,
    };
    let callable = match member_json(m, "callable") {
        None => {
            return Err(Error::Json(string_of("reduce missing callable")));
        },
        Some(c) => match from_json(c) {
            Ok(c) => c,
            Err(e) => {
                return Err(e);
            },
        },
    };
    let args = match member_json(m, "args") {
        None => {
            return Err(Error::Json(string_of("reduce missing args")));
        },
        Some(a) => match from_json(a) {
            Ok(a) => a,
            Err(e) => {
                return Err(e);
            },
        },
    };
    let state = match member_json(m, "state") {
        None => None,
        Some(Json::Null) => None,
        Some(s) => match from_json(s) {
            Ok(s) => Some(Box::new(s)),
            Err(e) => {
                return Err(e);
            },
        },
    };
    let list_items = match member_json(m, "list_items") {
        Some(Json::Array(items)) => match from_json_items(items) {
            Ok(vs) => vs,
            Err(e) => {
                return Err(e);
            },
        },
        _ => Vec::new(),
    };
    proof {
        let li = find(mv, "list_items"@);
        assert(views_of(list_items@) =~= (if 0 <= li < mv.len() && mv[li].1 is Array {
            from_json_seq(mv[li].1->Array_0)->Ok_0
        } else {
            Seq::empty()
        }));
    }
    let dict_items = match member_json(m, "dict_items") {
        Some(Json::Array(items)) => match dict_items_of(items) {
            Ok(ps) => ps,
            Err(e) => {
                return Err(e);
            },
        },
        _ => Vec::new(),
    };
    proof {
        let di = find(mv, "dict_items"@);
        assert(pair_views_of(dict_items@) =~= (if 0 <= di < mv.len() && mv[di].1 is Array {
            decode_dict_items(mv[di].1->Array_0)->Ok_0
        } else {
            Seq::empty()
        }));
    }
    Ok(Value::Reduce {
        newobj,
        callable: Box::new(callable),
        args: Box::new(args),
        state,
        list_items,
        dict_items,
    })
}

/// Reduce dict items: each a two-element array of key and value.
fn dict_items_of(items: &Vec<Json>) -> (r: Result<Vec<(Value, Value)>>)
    ensures
        match decode_dict_items(json_views(items@)) {
            Ok(ps) => r matches Ok(x) && pair_views_of(x@) == ps,
            Err(e) => r matches Err(x) && x@ == e,
        },
    decreases items, 0nat,
{
    let ghost js = json_views(items@);
    proof {
        lemma_json_views_len(items@);
    }
    let mut out: Vec<(Value, Value)> = Vec::new();
    let mut i: usize = 0;
    while i < items.len()
        invariant
            i <= items.len(),
            js == json_views(items@),
            js.len() == items.len(),
            decode_dict_items(js.take(i as int)) == Ok::<Seq<(ValueView, ValueView)>, ErrorView>(pair_views_of(out@)),
        decreases items.len() - i,
    {
        proof {
            assert(decreases_to!(*items => items[i as int]));
            lemma_json_views_index(items@, i as int);
            assert(js.take(i + 1).drop_last() =~= js.take(i as int));
        }
        let pair = match &items[i] {
            Json::Array(kv) => {
                proof {
                    lemma_json_views_len(kv@);
                }
                if kv.len() == 2 {
                    proof {
                        lemma_json_views_index(kv@, 0);
                        lemma_json_views_index(kv@, 1);
                        assert(decreases_to!(*kv => kv[0]));
                        assert(decreases_to!(*kv => kv[1]));
                    }
                    match from_json(&kv[0]) {
                        Ok(k) => match from_json(&kv[1]) {
                            Ok(v) => Ok((k, v)),
                            Err(e) => Err(e),
                        },
                        Err(e) => Err(e),
                    }
                } else {
                    Err(Error::Json(string_of("bad dict_items entry")))
                }
            },
            _ => Err(Error::Json(string_of("bad dict_items entry"))),
        };
        match pair {
            Ok(p) => {
                proof {
                    lemma_pair_views_push(out@, p);
                }
                out.push(p);
            },
            Err(e) => {
                proof {
                    lemma_decode_dict_items_err(js, i + 1);
                }
                return Err(e);
            },
        }
        i = i + 1;
    }
    proof {
        assert(js.take(items.len() as int) =~= js);
    }
    Ok(out)
}

} // verus!
