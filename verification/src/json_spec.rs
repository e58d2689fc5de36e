//! The JSON mapping of values, as spec functions.
//!
//! Native JSON types are used where the mapping is unambiguous (`null`,
//! booleans, integers, finite floats, arrays); anything else is a prefixed
//! string or a one-member object:
//!
//! | Value                    | JSON form                                      |
//! |--------------------------|------------------------------------------------|
//! | `Float` (NaN/Inf)        | `"float:nan"` / `"float:inf"` / `"float:-inf"` |
//! | `Long`                   | `"long:<decimal>"`                             |
//! | `Str`                    | `"utf8:<text>"`                                |
//! | `Bytes`, valid UTF-8     | `"bytes:<text>"`                               |
//! | `Bytes`, otherwise       | `"bytes:b64:<base64>"`                         |
//! | `Global`                 | `"global:<module.name>"`                       |
//! | `Tuple`                  | `{"tuple": [...]}`                             |
//! | `Dict`                   | an object (keys below)                         |
//! | `Instance`               | `{"instance": {"class": ..., "state": ...}}`   |
//! | `Reduce`                 | `{"reduce": {...}}` (state: `null` when there  |
//! |                          | is none, `"none"` when it is `None`)           |
//! | `Callback`               | `{"callback": ...}`                            |
//!
//! Dict keys are always strings: `"none"`, `"bool:true"`, `"int:5"`, a float
//! form, the string forms above, or `"json:<value as JSON text>"`.

use vstd::prelude::*;
use vstd::utf8::{valid_utf8, decode_utf8, encode_utf8};
use crate::base64::{b64_encode, b64_error_text};
use crate::error::ErrorView;
use crate::json_model::{JsonView, JsonStrView};
use crate::long::parse_bigint_decimal;
use crate::text::{decimal, parse_i64, debug_text};
use crate::value::ValueView;

verus! {

pub open spec fn jtext(s: Seq<char>) -> JsonView {
    JsonView::Str(JsonStrView::Text(s))
}

pub open spec fn member(key: Seq<char>, v: JsonView) -> (JsonStrView, JsonView) {
    (JsonStrView::Text(key), v)
}

/// `f64::NAN`, `f64::INFINITY` and `f64::NEG_INFINITY` by their bits.
pub const NAN_BITS: u64 = 0x7ff8_0000_0000_0000;
pub const INF_BITS: u64 = 0x7ff0_0000_0000_0000;
pub const NEG_INF_BITS: u64 = 0xfff0_0000_0000_0000;

/// Whether float bits are those of a finite number (the exponent is not all
/// ones).
pub open spec fn is_finite_bits(f: u64) -> bool {
    (f as int / 0x10_0000_0000_0000) % 0x800 != 0x7ff
}

/// Whether float bits are those of a NaN.
pub open spec fn is_nan_bits(f: u64) -> bool {
    !is_finite_bits(f) && f as int % 0x10_0000_0000_0000 != 0
}

/// The text of a non-finite float.
pub open spec fn nonfinite_text(f: u64) -> Seq<char> {
    if is_nan_bits(f) {
        "float:nan"@
    } else if f < 0x8000_0000_0000_0000 {
        "float:inf"@
    } else {
        "float:-inf"@
    }
}

/// Bytes as text: as they are when they are valid UTF-8 that does not start
/// with `b64:`, else in base64.
pub open spec fn bytes_text(b: Seq<u8>) -> Seq<char> {
    if valid_utf8(b) && !"b64:"@.is_prefix_of(decode_utf8(b)) {
        "bytes:"@ + decode_utf8(b)
    } else {
        "bytes:b64:"@ + b64_encode(b)
    }
}

/// The first member with a key, or -1.
pub open spec fn key_index(m: Seq<(JsonStrView, JsonView)>, k: JsonStrView) -> int
    decreases m.len(),
{
    if m.len() == 0 {
        -1
    } else if key_index(m.drop_last(), k) >= 0 {
        key_index(m.drop_last(), k)
    } else if m.last().0 == k {
        m.len() - 1
    } else {
        -1
    }
}

/// An object with a member set: an existing key keeps its place and takes
/// the new value; a new key goes last.
pub open spec fn obj_insert(m: Seq<(JsonStrView, JsonView)>, k: JsonStrView, v: JsonView) -> Seq<(JsonStrView, JsonView)> {
    let i = key_index(m, k);
    if i >= 0 {
        m.update(i, (m[i].0, v))
    } else {
        m.push((k, v))
    }
}

/// The JSON form of a reduce state: `null` for no state, `"none"` for a
/// `None` state (so that the two stay apart), else the state's form.
pub open spec fn state_json(state: Option<Box<ValueView>>) -> JsonView
    decreases state, 0nat,
{
    match state {
        Some(s) => if *s == ValueView::Null {
            jtext("none"@)
        } else {
            spec_to_json(*s)
        },
        None => JsonView::Null,
    }
}

/// The JSON form of a value.
pub open spec fn spec_to_json(v: ValueView) -> JsonView
    decreases v, 0nat,
{
    match v {
        ValueView::Null => JsonView::Null,
        ValueView::Bool(b) => JsonView::Bool(b),
        ValueView::Int(i) => JsonView::Int(i),
        ValueView::Float(f) => if is_finite_bits(f) {
            JsonView::Float(f)
        } else {
            jtext(nonfinite_text(f))
        },
        ValueView::Long(n) => jtext("long:"@ + decimal(n)),
        ValueView::Str(s) => jtext("utf8:"@ + s),
        ValueView::Bytes(b) => jtext(bytes_text(b)),
        ValueView::Global(name) => jtext("global:"@ + name),
        ValueView::List(items) => JsonView::Array(to_json_seq(items)),
        ValueView::Tuple(items) => JsonView::Object(seq![member("tuple"@, JsonView::Array(to_json_seq(items)))]),
        ValueView::Dict(pairs) => JsonView::Object(dict_members(pairs)),
        ValueView::Instance { class, state } => JsonView::Object(seq![member(
            "instance"@,
            JsonView::Object(seq![member("class"@, jtext(class)), member("state"@, spec_to_json(*state))]),
        )]),
        ValueView::Reduce { newobj, callable, args, state, list_items, dict_items } => JsonView::Object(seq![member(
            "reduce"@,
            JsonView::Object(seq![
                member("newobj"@, JsonView::Bool(newobj)),
                member("callable"@, spec_to_json(*callable)),
                member("args"@, spec_to_json(*args)),
                member("state"@, state_json(state)),
                member("list_items"@, JsonView::Array(to_json_seq(list_items))),
                member("dict_items"@, JsonView::Array(pair_arrays(dict_items))),
            ]),
        )]),
        ValueView::Callback(inner) => JsonView::Object(seq![member("callback"@, spec_to_json(*inner))]),
    }
}

/// The JSON form of a dict key.
pub open spec fn key_of(v: ValueView) -> JsonStrView
    decreases v, 1nat,
{
    match v {
        ValueView::Null => JsonStrView::Text("none"@),
        ValueView::Bool(b) => JsonStrView::Text(if b { "bool:true"@ } else { "bool:false"@ }),
        ValueView::Int(i) => JsonStrView::Text("int:"@ + decimal(i as int)),
        ValueView::Float(f) => if is_finite_bits(f) {
            JsonStrView::FloatKey(f)
        } else {
            JsonStrView::Text(nonfinite_text(f))
        },
        ValueView::Long(n) => JsonStrView::Text("long:"@ + decimal(n)),
        ValueView::Str(s) => JsonStrView::Text("utf8:"@ + s),
        ValueView::Bytes(b) => JsonStrView::Text(bytes_text(b)),
        ValueView::Global(name) => JsonStrView::Text("global:"@ + name),
        _ => JsonStrView::JsonKey(Box::new(spec_to_json(v))),
    }
}

pub open spec fn to_json_seq(s: Seq<ValueView>) -> Seq<JsonView>
    decreases s, 0nat,
{
    if s.len() == 0 {
        Seq::empty()
    } else {
        to_json_seq(s.drop_last()).push(spec_to_json(s.last()))
    }
}

/// Reduce dict items: each pair as a two-element array.
pub open spec fn pair_arrays(s: Seq<(ValueView, ValueView)>) -> Seq<JsonView>
    decreases s, 0nat,
{
    if s.len() == 0 {
        Seq::empty()
    } else {
        pair_arrays(s.drop_last()).push(JsonView::Array(seq![spec_to_json(s.last().0), spec_to_json(s.last().1)]))
    }
}

/// The members of a dict's object, each pair set in turn.
pub open spec fn dict_members(s: Seq<(ValueView, ValueView)>) -> Seq<(JsonStrView, JsonView)>
    decreases s, 0nat,
{
    if s.len() == 0 {
        Seq::empty()
    } else {
        obj_insert(dict_members(s.drop_last()), key_of(s.last().0), spec_to_json(s.last().1))
    }
}

/// The text of a string as read, where it has one.
pub open spec fn text_of(s: JsonStrView) -> Option<Seq<char>> {
    match s {
        JsonStrView::Text(t) => Some(t),
        JsonStrView::FloatText(t, _) => Some(t),
        JsonStrView::JsonText(t, _) => Some(t),
        _ => None,
    }
}

pub open spec fn after_prefix(p: Seq<char>, s: Seq<char>) -> Seq<char> {
    s.subrange(p.len() as int, s.len() as int)
}

/// The bytes whose base64 text is given, where there are such bytes.
pub open spec fn b64_decode(s: Seq<char>) -> Option<Seq<u8>> {
    if exists|b: Seq<u8>| b64_encode(b) == s {
        Some(choose|b: Seq<u8>| b64_encode(b) == s)
    } else {
        None
    }
}

/// A float after `float:`: the three special names, else what the reading
/// of the literal gave.
pub open spec fn decode_float_text(rest: Seq<char>, bits: Option<u64>) -> Result<ValueView, ErrorView> {
    if rest == "nan"@ {
        Ok(ValueView::Float(NAN_BITS))
    } else if rest == "inf"@ {
        Ok(ValueView::Float(INF_BITS))
    } else if rest == "-inf"@ {
        Ok(ValueView::Float(NEG_INF_BITS))
    } else {
        match bits {
            Some(b) => Ok(ValueView::Float(b)),
            None => Err(ErrorView::Json("bad float literal "@ + debug_text(rest))),
        }
    }
}

/// A string that does not start with `json:`, by its prefix.
pub open spec fn decode_plain(t: Seq<char>, float: Option<u64>) -> Result<ValueView, ErrorView> {
    if "long:"@.is_prefix_of(t) {
        let rest = after_prefix("long:"@, t);
        match parse_bigint_decimal(rest) {
            Some(i) => Ok(ValueView::Long(i)),
            None => Err(ErrorView::Json("bad long literal "@ + debug_text(rest))),
        }
    } else if "bytes:"@.is_prefix_of(t) {
        let rest = after_prefix("bytes:"@, t);
        if "b64:"@.is_prefix_of(rest) {
            let enc = after_prefix("b64:"@, rest);
            match b64_decode(enc) {
                Some(b) => Ok(ValueView::Bytes(b)),
                None => Err(ErrorView::Json("bad base64 in bytes: "@ + b64_error_text(enc))),
            }
        } else {
            Ok(ValueView::Bytes(encode_utf8(rest)))
        }
    } else if "utf8:"@.is_prefix_of(t) {
        Ok(ValueView::Str(after_prefix("utf8:"@, t)))
    } else if "global:"@.is_prefix_of(t) {
        Ok(ValueView::Global(after_prefix("global:"@, t)))
    } else if "float:"@.is_prefix_of(t) {
        decode_float_text(after_prefix("float:"@, t), float)
    } else if "bool:"@.is_prefix_of(t) {
        let rest = after_prefix("bool:"@, t);
        if rest == "true"@ {
            Ok(ValueView::Bool(true))
        } else if rest == "false"@ {
            Ok(ValueView::Bool(false))
        } else {
            Err(ErrorView::Json("bad bool literal "@ + debug_text(rest)))
        }
    } else if "int:"@.is_prefix_of(t) {
        let rest = after_prefix("int:"@, t);
        match parse_i64(rest) {
            Some(i) => Ok(ValueView::Int(i)),
            None => Err(ErrorView::Json("bad int literal "@ + debug_text(rest))),
        }
    } else if t == "none"@ {
        Ok(ValueView::Null)
    } else {
        Err(ErrorView::Json("string value/key without a recognized prefix: "@ + debug_text(t)))
    }
}

/// A string value or a dict key, by its prefix: `json:` gives the value of
/// the nested JSON.
pub open spec fn decode_str(s: JsonStrView) -> Result<ValueView, ErrorView>
    decreases s, 0nat,
{
    match s {
        JsonStrView::Text(t) => if "json:"@.is_prefix_of(t) {
            Err(ErrorView::Json("bad nested json: "@))
        } else {
            decode_plain(t, None)
        },
        JsonStrView::FloatText(t, b) => if "json:"@.is_prefix_of(t) {
            Err(ErrorView::Json("bad nested json: "@))
        } else {
            decode_plain(t, b)
        },
        JsonStrView::JsonText(t, r) => if "json:"@.is_prefix_of(t) {
            match r {
                Ok(j) => spec_from_json(*j),
                Err(m) => Err(ErrorView::Json("bad nested json: "@ + m)),
            }
        } else {
            decode_plain(t, None)
        },
        JsonStrView::FloatKey(b) => Ok(ValueView::Float(b)),
        JsonStrView::JsonKey(j) => spec_from_json(*j),
    }
}

/// The value of a JSON document.
pub open spec fn spec_from_json(j: JsonView) -> Result<ValueView, ErrorView>
    decreases j, 0nat,
{
    match j {
        JsonView::Null => Ok(ValueView::Null),
        JsonView::Bool(b) => Ok(ValueView::Bool(b)),
        JsonView::Int(i) => Ok(ValueView::Int(i)),
        JsonView::Float(f) => Ok(ValueView::Float(f)),
        JsonView::Str(s) => decode_str(s),
        JsonView::Array(items) => match from_json_seq(items) {
            Ok(vs) => Ok(ValueView::List(vs)),
            Err(e) => Err(e),
        },
        JsonView::Object(m) => decode_object(m),
    }
}

pub open spec fn from_json_seq(s: Seq<JsonView>) -> Result<Seq<ValueView>, ErrorView>
    decreases s, 0nat,
{
    if s.len() == 0 {
        Ok(Seq::empty())
    } else {
        match from_json_seq(s.drop_last()) {
            Ok(vs) => match spec_from_json(s.last()) {
                Ok(v) => Ok(vs.push(v)),
                Err(e) => Err(e),
            },
            Err(e) => Err(e),
        }
    }
}

/// The first member whose key has a text, or -1.
pub open spec fn find(m: Seq<(JsonStrView, JsonView)>, key: Seq<char>) -> int
    decreases m.len(),
{
    if m.len() == 0 {
        -1
    } else if find(m.drop_last(), key) >= 0 {
        find(m.drop_last(), key)
    } else if text_of(m.last().0) == Some(key) {
        m.len() - 1
    } else {
        -1
    }
}

/// An object: the four one-member forms, else a dict.
pub open spec fn decode_object(m: Seq<(JsonStrView, JsonView)>) -> Result<ValueView, ErrorView>
    decreases m, 1nat,
{
    if m.len() == 1 && text_of(m[0].0) == Some("tuple"@) && m[0].1 is Array {
        match from_json_seq(m[0].1->Array_0) {
            Ok(vs) => Ok(ValueView::Tuple(vs)),
            Err(e) => Err(e),
        }
    } else if m.len() == 1 && text_of(m[0].0) == Some("instance"@) && m[0].1 is Object {
        decode_instance(m[0].1->Object_0)
    } else if m.len() == 1 && text_of(m[0].0) == Some("reduce"@) && m[0].1 is Object {
        decode_reduce(m[0].1->Object_0)
    } else if m.len() == 1 && text_of(m[0].0) == Some("callback"@) {
        match spec_from_json(m[0].1) {
            Ok(v) => Ok(ValueView::Callback(Box::new(v))),
            Err(e) => Err(e),
        }
    } else {
        match decode_members(m) {
            Ok(pairs) => Ok(ValueView::Dict(pairs)),
            Err(e) => Err(e),
        }
    }
}

/// The members of a dict's object: each key, then its value.
pub open spec fn decode_members(m: Seq<(JsonStrView, JsonView)>) -> Result<Seq<(ValueView, ValueView)>, ErrorView>
    decreases m, 0nat,
{
    if m.len() == 0 {
        Ok(Seq::empty())
    } else {
        match decode_members(m.drop_last()) {
            Ok(pairs) => match decode_str(m.last().0) {
                Ok(k) => match spec_from_json(m.last().1) {
                    Ok(v) => Ok(pairs.push((k, v))),
                    Err(e) => Err(e),
                },
                Err(e) => Err(e),
            },
            Err(e) => Err(e),
        }
    }
}

pub open spec fn member_value(m: Seq<(JsonStrView, JsonView)>, key: Seq<char>) -> Option<JsonView> {
    let i = find(m, key);
    if 0 <= i < m.len() {
        Some(m[i].1)
    } else {
        None
    }
}

/// `{"class": ..., "state": ...}`.
pub open spec fn decode_instance(m: Seq<(JsonStrView, JsonView)>) -> Result<ValueView, ErrorView>
    decreases m, 0nat,
{
    let class = match member_value(m, "class"@) {
        Some(JsonView::Str(s)) => text_of(s),
        _ => None,
    };
    let si = find(m, "state"@);
    match class {
        None => Err(ErrorView::Json("instance missing class"@)),
        Some(class) => if 0 <= si < m.len() {
            match spec_from_json(m[si].1) {
                Ok(state) => Ok(ValueView::Instance { class, state: Box::new(state) }),
                Err(e) => Err(e),
            }
        } else {
            Err(ErrorView::Json("instance missing state"@))
        },
    }
}

/// `{"newobj": .., "callable": .., "args": .., "state": .., "list_items": [..],
/// "dict_items": [[k, v], ..]}`; `newobj`, `state` and the two item lists
/// may be missing.
pub open spec fn decode_reduce(m: Seq<(JsonStrView, JsonView)>) -> Result<ValueView, ErrorView>
    decreases m, 0nat,
{
    let newobj = match member_value(m, "newobj"@) {
        Some(JsonView::Bool(b)) => b,
        _ => false,
    };
    let ci = find(m, "callable"@);
    let ai = find(m, "args"@);
    let si = find(m, "state"@);
    let li = find(m, "list_items"@);
    let di = find(m, "dict_items"@);
    if !(0 <= ci < m.len()) {
        Err(ErrorView::Json("reduce missing callable"@))
    } else {
        match spec_from_json(m[ci].1) {
            Err(e) => Err(e),
            Ok(callable) => if !(0 <= ai < m.len()) {
                Err(ErrorView::Json("reduce missing args"@))
            } else {
                match spec_from_json(m[ai].1) {
                    Err(e) => Err(e),
                    Ok(args) => {
                        let state = if 0 <= si < m.len() && !(m[si].1 is Null) {
                            match spec_from_json(m[si].1) {
                                Ok(s) => Ok(Some(Box::new(s))),
                                Err(e) => Err(e),
                            }
                        } else {
                            Ok(None)
                        };
                        match state {
                            Err(e) => Err(e),
                            Ok(state) => {
                                let list_items = if 0 <= li < m.len() && m[li].1 is Array {
                                    from_json_seq(m[li].1->Array_0)
                                } else {
                                    Ok(Seq::empty())
                                };
                                match list_items {
                                    Err(e) => Err(e),
                                    Ok(list_items) => {
                                        let dict_items = if 0 <= di < m.len() && m[di].1 is Array {
                                            decode_dict_items(m[di].1->Array_0)
                                        } else {
                                            Ok(Seq::empty())
                                        };
                                        match dict_items {
                                            Err(e) => Err(e),
                                            Ok(dict_items) => Ok(ValueView::Reduce {
                                                newobj,
                                                callable: Box::new(callable),
                                                args: Box::new(args),
                                                state,
                                                list_items,
                                                dict_items,
                                            }),
                                        }
                                    },
                                }
                            },
                        }
                    },
                }
            },
        }
    }
}

/// Reduce dict items: each a two-element array of key and value.
pub open spec fn decode_dict_items(items: Seq<JsonView>) -> Result<Seq<(ValueView, ValueView)>, ErrorView>
    decreases items, 0nat,
{
    if items.len() == 0 {
        Ok(Seq::empty())
    } else {
        match decode_dict_items(items.drop_last()) {
            Err(e) => Err(e),
            Ok(pairs) => match items.last() {
                JsonView::Array(kv) => if kv.len() == 2 {
                    match spec_from_json(kv[0]) {
                        Err(e) => Err(e),
                        Ok(k) => match spec_from_json(kv[1]) {
                            Err(e) => Err(e),
                            Ok(v) => Ok(pairs.push((k, v))),
                        },
                    }
                } else {
                    Err(ErrorView::Json("bad dict_items entry"@))
                },
                _ => Err(ErrorView::Json("bad dict_items entry"@)),
            },
        }
    }
}

} // verus!
