//! What the JSON mapping gives back of what it made.

use vstd::prelude::*;
use vstd::utf8::{decode_utf8, encode_utf8, valid_utf8, decode_utf8_encode_utf8};
use crate::base64::{b64_encode, lemma_b64_injective};
use crate::error::ErrorView;
use crate::json::{lemma_after_prefix, lemma_find, lemma_key_index};
use crate::json_model::{JsonView, JsonStrView};
use crate::json_spec::{state_json, jtext, member, is_finite_bits, is_nan_bits, nonfinite_text, bytes_text,
    spec_to_json, key_of, to_json_seq, pair_arrays, dict_members, key_index, text_of, find,
    after_prefix, b64_decode, decode_plain, decode_str, spec_from_json, from_json_seq, decode_object,
    decode_members, decode_instance, decode_reduce, decode_dict_items, NAN_BITS, INF_BITS, NEG_INF_BITS};
use crate::long::lemma_parse_bigint_decimal;
use crate::text::{decimal, lemma_parse_i64_decimal};
use crate::value::ValueView;

verus! {

/// The values that the JSON mapping gives back exactly: every NaN is the
/// canonical one (the JSON form keeps no payload), and no dict holds a key
/// twice (an object holds a key once).
pub open spec fn json_exact(v: ValueView) -> bool
    decreases v,
{
    match v {
        ValueView::Float(f) => is_nan_bits(f) ==> f == NAN_BITS,
        ValueView::Tuple(items) => json_seq_ok(items),
        ValueView::List(items) => json_seq_ok(items),
        ValueView::Dict(pairs) => json_pairs_ok(pairs) && keys_distinct(pairs),
        ValueView::Instance { state, .. } => json_exact(*state),
        ValueView::Reduce { callable, args, state, list_items, dict_items, .. } => {
            &&& json_exact(*callable)
            &&& json_exact(*args)
            &&& (match state {
                Some(s) => json_exact(*s),
                None => true,
            })
            &&& json_seq_ok(list_items)
            &&& json_pairs_ok(dict_items)
        },
        ValueView::Callback(inner) => json_exact(*inner),
        _ => true,
    }
}

pub open spec fn json_seq_ok(s: Seq<ValueView>) -> bool
    decreases s,
{
    if s.len() == 0 {
        true
    } else {
        json_seq_ok(s.drop_last()) && json_exact(s.last())
    }
}

pub open spec fn json_pairs_ok(s: Seq<(ValueView, ValueView)>) -> bool
    decreases s,
{
    if s.len() == 0 {
        true
    } else {
        json_pairs_ok(s.drop_last()) && json_exact(s.last().0) && json_exact(s.last().1)
    }
}

/// No key occurs twice.
pub open spec fn keys_distinct(s: Seq<(ValueView, ValueView)>) -> bool {
    forall|i: int, j: int| 0 <= i < j < s.len() ==> s[i].0 != s[j].0
}

proof fn lemma_literals()
    ensures
        "json:"@ == seq!['j', 's', 'o', 'n', ':'],
        "long:"@ == seq!['l', 'o', 'n', 'g', ':'],
        "bytes:"@ == seq!['b', 'y', 't', 'e', 's', ':'],
        "b64:"@ == seq!['b', '6', '4', ':'],
        "bytes:b64:"@ == seq!['b', 'y', 't', 'e', 's', ':', 'b', '6', '4', ':'],
        "utf8:"@ == seq!['u', 't', 'f', '8', ':'],
        "global:"@ == seq!['g', 'l', 'o', 'b', 'a', 'l', ':'],
        "float:"@ == seq!['f', 'l', 'o', 'a', 't', ':'],
        "bool:"@ == seq!['b', 'o', 'o', 'l', ':'],
        "int:"@ == seq!['i', 'n', 't', ':'],
        "none"@ == seq!['n', 'o', 'n', 'e'],
        "nan"@ == seq!['n', 'a', 'n'],
        "inf"@ == seq!['i', 'n', 'f'],
        "-inf"@ == seq!['-', 'i', 'n', 'f'],
        "float:nan"@ == seq!['f', 'l', 'o', 'a', 't', ':', 'n', 'a', 'n'],
        "float:inf"@ == seq!['f', 'l', 'o', 'a', 't', ':', 'i', 'n', 'f'],
        "float:-inf"@ == seq!['f', 'l', 'o', 'a', 't', ':', '-', 'i', 'n', 'f'],
        "true"@ == seq!['t', 'r', 'u', 'e'],
        "false"@ == seq!['f', 'a', 'l', 's', 'e'],
        "bool:true"@ == seq!['b', 'o', 'o', 'l', ':', 't', 'r', 'u', 'e'],
        "bool:false"@ == seq!['b', 'o', 'o', 'l', ':', 'f', 'a', 'l', 's', 'e'],
        "tuple"@ == seq!['t', 'u', 'p', 'l', 'e'],
        "instance"@ == seq!['i', 'n', 's', 't', 'a', 'n', 'c', 'e'],
        "reduce"@ == seq!['r', 'e', 'd', 'u', 'c', 'e'],
        "callback"@ == seq!['c', 'a', 'l', 'l', 'b', 'a', 'c', 'k'],
        "class"@ == seq!['c', 'l', 'a', 's', 's'],
        "state"@ == seq!['s', 't', 'a', 't', 'e'],
        "newobj"@ == seq!['n', 'e', 'w', 'o', 'b', 'j'],
        "callable"@ == seq!['c', 'a', 'l', 'l', 'a', 'b', 'l', 'e'],
        "args"@ == seq!['a', 'r', 'g', 's'],
        "list_items"@ == seq!['l', 'i', 's', 't', '_', 'i', 't', 'e', 'm', 's'],
        "dict_items"@ == seq!['d', 'i', 'c', 't', '_', 'i', 't', 'e', 'm', 's'],
{
    reveal_strlit("json:");
    reveal_strlit("long:");
    reveal_strlit("bytes:");
    reveal_strlit("b64:");
    reveal_strlit("bytes:b64:");
    reveal_strlit("utf8:");
    reveal_strlit("global:");
    reveal_strlit("float:");
    reveal_strlit("bool:");
    reveal_strlit("int:");
    reveal_strlit("none");
    reveal_strlit("nan");
    reveal_strlit("inf");
    reveal_strlit("-inf");
    reveal_strlit("float:nan");
    reveal_strlit("float:inf");
    reveal_strlit("float:-inf");
    reveal_strlit("true");
    reveal_strlit("false");
    reveal_strlit("bool:true");
    reveal_strlit("bool:false");
    reveal_strlit("tuple");
    reveal_strlit("instance");
    reveal_strlit("reduce");
    reveal_strlit("callback");
    reveal_strlit("class");
    reveal_strlit("state");
    reveal_strlit("newobj");
    reveal_strlit("callable");
    reveal_strlit("args");
    reveal_strlit("list_items");
    reveal_strlit("dict_items");
}

/// The names of the object forms' members differ.
proof fn lemma_names_distinct()
    ensures
        "instance"@ != "tuple"@,
        "reduce"@ != "tuple"@,
        "reduce"@ != "instance"@,
        "callback"@ != "tuple"@,
        "callback"@ != "instance"@,
        "callback"@ != "reduce"@,
        "state"@ != "class"@,
        "callable"@ != "newobj"@,
        "args"@ != "newobj"@,
        "args"@ != "callable"@,
        "state"@ != "newobj"@,
        "state"@ != "callable"@,
        "state"@ != "args"@,
        "list_items"@ != "newobj"@,
        "list_items"@ != "callable"@,
        "list_items"@ != "args"@,
        "list_items"@ != "state"@,
        "dict_items"@ != "newobj"@,
        "dict_items"@ != "callable"@,
        "dict_items"@ != "args"@,
        "dict_items"@ != "state"@,
        "dict_items"@ != "list_items"@,
{
    lemma_literals();
    assert("instance"@.len() != "tuple"@.len());
    assert("reduce"@.len() != "tuple"@.len());
    assert("reduce"@.len() != "instance"@.len());
    assert("callback"@.len() != "tuple"@.len());
    assert("callback"@[0] != "instance"@[0]);
    assert("callback"@.len() != "reduce"@.len());
    assert("state"@[0] != "class"@[0]);
    assert("callable"@.len() != "newobj"@.len());
    assert("args"@.len() != "newobj"@.len());
    assert("args"@.len() != "callable"@.len());
    assert("state"@.len() != "newobj"@.len());
    assert("state"@.len() != "callable"@.len());
    assert("state"@.len() != "args"@.len());
    assert("list_items"@.len() != "newobj"@.len());
    assert("list_items"@.len() != "callable"@.len());
    assert("list_items"@.len() != "args"@.len());
    assert("list_items"@.len() != "state"@.len());
    assert("dict_items"@.len() != "newobj"@.len());
    assert("dict_items"@.len() != "callable"@.len());
    assert("dict_items"@.len() != "args"@.len());
    assert("dict_items"@.len() != "state"@.len());
    assert("dict_items"@[0] != "list_items"@[0]);
}

/// A prefix of a text has the text's first characters.
proof fn lemma_first_chars(t: Seq<char>)
    ensures
        forall|p: Seq<char>| #[trigger] p.is_prefix_of(t) ==> {
            &&& p.len() <= t.len()
            &&& (p.len() > 0 ==> p[0] == t[0])
            &&& (p.len() > 1 ==> p[1] == t[1])
            &&& (p.len() > 2 ==> p[2] == t[2])
        },
{
    assert forall|p: Seq<char>| #[trigger] p.is_prefix_of(t) implies {
        &&& p.len() <= t.len()
        &&& (p.len() > 0 ==> p[0] == t[0])
        &&& (p.len() > 1 ==> p[1] == t[1])
        &&& (p.len() > 2 ==> p[2] == t[2])
    } by {
        assert(p =~= t.subrange(0, p.len() as int));
    }
}

/// A text that does not start with `j` is decoded by its plain prefixes.
proof fn lemma_text(t: Seq<char>, float: Option<u64>)
    requires
        t.len() > 0,
        t[0] != 'j',
    ensures
        decode_str(JsonStrView::Text(t)) == decode_plain(t, None),
        decode_str(JsonStrView::FloatText(t, float)) == decode_plain(t, float),
{
    lemma_literals();
    lemma_first_chars(t);
}

proof fn lemma_text_long(n: int)
    ensures
        decode_str(JsonStrView::Text("long:"@ + decimal(n))) == Ok::<ValueView, ErrorView>(ValueView::Long(n)),
{
    let t = "long:"@ + decimal(n);
    lemma_literals();
    lemma_after_prefix("long:"@, decimal(n));
    lemma_parse_bigint_decimal(n);
    lemma_text(t, None);
}

proof fn lemma_text_str(s: Seq<char>)
    ensures
        decode_str(JsonStrView::Text("utf8:"@ + s)) == Ok::<ValueView, ErrorView>(ValueView::Str(s)),
{
    let t = "utf8:"@ + s;
    lemma_literals();
    lemma_after_prefix("utf8:"@, s);
    lemma_first_chars(t);
    lemma_text(t, None);
}

proof fn lemma_text_global(s: Seq<char>)
    ensures
        decode_str(JsonStrView::Text("global:"@ + s)) == Ok::<ValueView, ErrorView>(ValueView::Global(s)),
{
    let t = "global:"@ + s;
    lemma_literals();
    lemma_after_prefix("global:"@, s);
    lemma_first_chars(t);
    lemma_text(t, None);
}

proof fn lemma_text_bytes(b: Seq<u8>)
    ensures
        decode_str(JsonStrView::Text(bytes_text(b))) == Ok::<ValueView, ErrorView>(ValueView::Bytes(b)),
{
    let t = bytes_text(b);
    lemma_literals();
    if valid_utf8(b) && !"b64:"@.is_prefix_of(decode_utf8(b)) {
        lemma_after_prefix("bytes:"@, decode_utf8(b));
        decode_utf8_encode_utf8(b);
    } else {
        let enc = b64_encode(b);
        assert(t == "bytes:"@ + ("b64:"@ + enc));
        lemma_after_prefix("bytes:"@, "b64:"@ + enc);
        lemma_after_prefix("b64:"@, enc);
        let c = choose|c: Seq<u8>| b64_encode(c) == enc;
        lemma_b64_injective(c, b);
    }
    lemma_first_chars(t);
    lemma_text(t, None);
}

/// The bits of a float that is neither finite nor a NaN are those of an
/// infinity.
proof fn lemma_infinite_bits(f: u64)
    requires
        !is_finite_bits(f),
        !is_nan_bits(f),
    ensures
        f < 0x8000_0000_0000_0000 ==> f == INF_BITS,
        f >= 0x8000_0000_0000_0000 ==> f == NEG_INF_BITS,
{
    let q = f as int / 0x10_0000_0000_0000;
    vstd::arithmetic::div_mod::lemma_fundamental_div_mod(f as int, 0x10_0000_0000_0000);
    assert(f == 0x10_0000_0000_0000 * q);
    assert(0 <= q < 0x1000) by (nonlinear_arith)
        requires
            f == 0x10_0000_0000_0000 * q,
            0 <= f < 0x1_0000_0000_0000_0000,
    {}
    assert(q == 0x7ff || q == 0xfff);
    assert(f < 0x8000_0000_0000_0000 ==> q < 0x800) by (nonlinear_arith)
        requires
            f == 0x10_0000_0000_0000 * q,
    {}
}

proof fn lemma_text_nonfinite(f: u64)
    requires
        !is_finite_bits(f),
        is_nan_bits(f) ==> f == NAN_BITS,
    ensures
        decode_str(JsonStrView::Text(nonfinite_text(f))) == Ok::<ValueView, ErrorView>(ValueView::Float(f)),
{
    let t = nonfinite_text(f);
    lemma_literals();
    if !is_nan_bits(f) {
        lemma_infinite_bits(f);
    }
    lemma_after_prefix("float:"@, "nan"@);
    lemma_after_prefix("float:"@, "inf"@);
    lemma_after_prefix("float:"@, "-inf"@);
    assert("float:nan"@ == "float:"@ + "nan"@);
    assert("float:inf"@ == "float:"@ + "inf"@);
    assert("float:-inf"@ == "float:"@ + "-inf"@);
    lemma_first_chars(t);
    lemma_text(t, None);
}

proof fn lemma_text_none()
    ensures
        decode_str(JsonStrView::Text("none"@)) == Ok::<ValueView, ErrorView>(ValueView::Null),
{
    lemma_literals();
    lemma_first_chars("none"@);
    lemma_text("none"@, None);
}

proof fn lemma_text_bool(b: bool)
    ensures
        decode_str(JsonStrView::Text(if b { "bool:true"@ } else { "bool:false"@ })) == Ok::<ValueView, ErrorView>(ValueView::Bool(b)),
{
    let t = if b { "bool:true"@ } else { "bool:false"@ };
    lemma_literals();
    lemma_after_prefix("bool:"@, "true"@);
    lemma_after_prefix("bool:"@, "false"@);
    assert("bool:true"@ == "bool:"@ + "true"@);
    assert("bool:false"@ == "bool:"@ + "false"@);
    lemma_first_chars(t);
    lemma_text(t, None);
}

proof fn lemma_text_int(i: i64)
    ensures
        decode_str(JsonStrView::Text("int:"@ + decimal(i as int))) == Ok::<ValueView, ErrorView>(ValueView::Int(i)),
{
    let t = "int:"@ + decimal(i as int);
    lemma_literals();
    lemma_after_prefix("int:"@, decimal(i as int));
    lemma_parse_i64_decimal(i);
    lemma_first_chars(t);
    lemma_text(t, None);
}

/// The text of a dict key is never one of the names of the one-member
/// object forms.
proof fn lemma_key_text(k: ValueView)
    ensures
        text_of(key_of(k)) != Some("tuple"@),
        text_of(key_of(k)) != Some("instance"@),
        text_of(key_of(k)) != Some("reduce"@),
        text_of(key_of(k)) != Some("callback"@),
{
    lemma_literals();
    match key_of(k) {
        JsonStrView::Text(t) => {
            lemma_first_chars(t);
            match k {
                ValueView::Float(f) => {
                    assert("float:"@.is_prefix_of(t)) by {
                        lemma_after_prefix("float:"@, "nan"@);
                        lemma_after_prefix("float:"@, "inf"@);
                        lemma_after_prefix("float:"@, "-inf"@);
                        assert("float:nan"@ == "float:"@ + "nan"@);
                        assert("float:inf"@ == "float:"@ + "inf"@);
                        assert("float:-inf"@ == "float:"@ + "-inf"@);
                    }
                },
                ValueView::Int(i) => lemma_after_prefix("int:"@, decimal(i as int)),
                ValueView::Long(n) => lemma_after_prefix("long:"@, decimal(n)),
                ValueView::Str(s) => lemma_after_prefix("utf8:"@, s),
                ValueView::Global(s) => lemma_after_prefix("global:"@, s),
                ValueView::Bytes(b) => {
                    assert("bytes:"@.is_prefix_of(t)) by {
                        lemma_after_prefix("bytes:"@, decode_utf8(b));
                        lemma_after_prefix("bytes:"@, "b64:"@ + b64_encode(b));
                        assert("bytes:b64:"@ + b64_encode(b) == "bytes:"@ + ("b64:"@ + b64_encode(b)));
                    }
                },
                _ => {},
            }
        },
        _ => {},
    }
}

/// The members of a dict's object where no key is met twice.
pub open spec fn plain_members(s: Seq<(ValueView, ValueView)>) -> Seq<(JsonStrView, JsonView)>
    decreases s,
{
    if s.len() == 0 {
        Seq::empty()
    } else {
        plain_members(s.drop_last()).push((key_of(s.last().0), spec_to_json(s.last().1)))
    }
}

proof fn lemma_plain_members_index(s: Seq<(ValueView, ValueView)>, j: int)
    requires
        0 <= j < s.len(),
    ensures
        plain_members(s).len() == s.len(),
        plain_members(s)[j] == (key_of(s[j].0), spec_to_json(s[j].1)),
    decreases s.len(),
{
    lemma_plain_members_len(s);
    if j < s.len() - 1 {
        lemma_plain_members_index(s.drop_last(), j);
    }
}

proof fn lemma_plain_members_len(s: Seq<(ValueView, ValueView)>)
    ensures
        plain_members(s).len() == s.len(),
    decreases s.len(),
{
    if s.len() > 0 {
        lemma_plain_members_len(s.drop_last());
    }
}

proof fn lemma_pairs_ok_index(s: Seq<(ValueView, ValueView)>, j: int)
    requires
        json_pairs_ok(s),
        0 <= j < s.len(),
    ensures
        json_exact(s[j].0),
        json_exact(s[j].1),
    decreases s.len(),
{
    if j < s.len() - 1 {
        lemma_pairs_ok_index(s.drop_last(), j);
    }
}

/// A dict key decodes to itself.
proof fn lemma_json_key(k: ValueView)
    requires
        json_exact(k),
    ensures
        decode_str(key_of(k)) == Ok::<ValueView, ErrorView>(k),
    decreases k, 2nat,
{
    match k {
        ValueView::Null => lemma_text_none(),
        ValueView::Bool(b) => lemma_text_bool(b),
        ValueView::Int(i) => lemma_text_int(i),
        ValueView::Float(f) => {
            if !is_finite_bits(f) {
                lemma_text_nonfinite(f);
            }
        },
        ValueView::Long(n) => lemma_text_long(n),
        ValueView::Str(s) => lemma_text_str(s),
        ValueView::Bytes(b) => lemma_text_bytes(b),
        ValueView::Global(s) => lemma_text_global(s),
        _ => lemma_json_value(k),
    }
}

/// The JSON form of a value decodes to the value.
proof fn lemma_json_value(v: ValueView)
    requires
        json_exact(v),
    ensures
        spec_from_json(spec_to_json(v)) == Ok::<ValueView, ErrorView>(v),
    decreases v, 1nat,
{
    match v {
        ValueView::Float(f) => {
            if !is_finite_bits(f) {
                lemma_text_nonfinite(f);
            }
        },
        ValueView::Long(n) => lemma_text_long(n),
        ValueView::Str(s) => lemma_text_str(s),
        ValueView::Bytes(b) => lemma_text_bytes(b),
        ValueView::Global(s) => lemma_text_global(s),
        ValueView::List(items) => lemma_json_seq(items),
        ValueView::Tuple(items) => {
            lemma_json_seq(items);
            lemma_names_distinct();
        },
        ValueView::Dict(_) => lemma_json_dict(v),
        ValueView::Instance { .. } => lemma_json_instance(v),
        ValueView::Reduce { .. } => lemma_json_reduce(v),
        ValueView::Callback(inner) => {
            lemma_json_value(*inner);
            lemma_names_distinct();
        },
        _ => {},
    }
}

proof fn lemma_json_dict(v: ValueView)
    requires
        json_exact(v),
        v is Dict,
    ensures
        spec_from_json(spec_to_json(v)) == Ok::<ValueView, ErrorView>(v),
    decreases v, 0nat,
{
    let pairs = v->Dict_0;
    lemma_dict_members_plain(pairs);
    lemma_decode_plain_members(pairs);
    lemma_plain_members_len(pairs);
    if pairs.len() == 1 {
        lemma_plain_members_index(pairs, 0);
        lemma_key_text(pairs[0].0);
    }
}

proof fn lemma_json_instance(v: ValueView)
    requires
        json_exact(v),
        v is Instance,
    ensures
        spec_from_json(spec_to_json(v)) == Ok::<ValueView, ErrorView>(v),
    decreases v, 0nat,
{
    if let ValueView::Instance { class, state } = v {
        lemma_json_value(*state);
        lemma_literals();
        lemma_names_distinct();
        let inner = seq![member("class"@, jtext(class)), member("state"@, spec_to_json(*state))];
        assert(text_of(inner[0].0) == Some("class"@));
        assert(text_of(inner[1].0) == Some("state"@));
        lemma_find(inner, "class"@);
        lemma_find(inner, "state"@);
        assert(find(inner, "class"@) == 0);
        assert(find(inner, "state"@) == 1);
        assert(decode_instance(inner) == Ok::<ValueView, ErrorView>(v));
        let m = seq![member("instance"@, JsonView::Object(inner))];
        assert(spec_to_json(v) == JsonView::Object(m));
        assert(decode_object(m) == decode_instance(inner));
    }
}

proof fn lemma_json_reduce(v: ValueView)
    requires
        json_exact(v),
        v is Reduce,
    ensures
        spec_from_json(spec_to_json(v)) == Ok::<ValueView, ErrorView>(v),
    decreases v, 0nat,
{
    if let ValueView::Reduce { newobj, callable, args, state, list_items, dict_items } = v {
        let inner = seq![
            member("newobj"@, JsonView::Bool(newobj)),
            member("callable"@, spec_to_json(*callable)),
            member("args"@, spec_to_json(*args)),
            member("state"@, state_json(state)),
            member("list_items"@, JsonView::Array(to_json_seq(list_items))),
            member("dict_items"@, JsonView::Array(pair_arrays(dict_items))),
        ];
        assert({
            &&& find(inner, "newobj"@) == 0
            &&& find(inner, "callable"@) == 1
            &&& find(inner, "args"@) == 2
            &&& find(inner, "state"@) == 3
            &&& find(inner, "list_items"@) == 4
            &&& find(inner, "dict_items"@) == 5
        }) by {
            lemma_names_distinct();
            assert(text_of(inner[0].0) == Some("newobj"@));
            assert(text_of(inner[1].0) == Some("callable"@));
            assert(text_of(inner[2].0) == Some("args"@));
            assert(text_of(inner[3].0) == Some("state"@));
            assert(text_of(inner[4].0) == Some("list_items"@));
            assert(text_of(inner[5].0) == Some("dict_items"@));
            lemma_find(inner, "newobj"@);
            lemma_find(inner, "callable"@);
            lemma_find(inner, "args"@);
            lemma_find(inner, "state"@);
            lemma_find(inner, "list_items"@);
            lemma_find(inner, "dict_items"@);
        }
        assert(decode_reduce(inner) == Ok::<ValueView, ErrorView>(v)) by {
            lemma_json_value(*callable);
            lemma_json_value(*args);
            match state {
                Some(s) => {
                    lemma_json_value(*s);
                    lemma_text_none();
                },
                None => {},
            }
            lemma_json_seq(list_items);
            lemma_json_pair_arrays(dict_items);
        }
        let m = seq![member("reduce"@, JsonView::Object(inner))];
        assert(spec_to_json(v) == JsonView::Object(m)) by {
            let sp = spec_to_json(v);
            assert(sp->Object_0[0].1->Object_0 =~= inner);
            assert(sp->Object_0 =~= m);
        }
        assert(decode_object(m) == decode_reduce(inner)) by {
            lemma_names_distinct();
        }
    }
}

proof fn lemma_json_seq(s: Seq<ValueView>)
    requires
        json_seq_ok(s),
    ensures
        from_json_seq(to_json_seq(s)) == Ok::<Seq<ValueView>, ErrorView>(s),
    decreases s, 0nat,
{
    if s.len() > 0 {
        let dl = s.drop_last();
        lemma_json_seq(dl);
        lemma_json_value(s.last());
        assert(to_json_seq(s).drop_last() =~= to_json_seq(dl));
        assert(dl.push(s.last()) =~= s);
    } else {
        assert(s =~= Seq::empty());
    }
}

proof fn lemma_json_pair_arrays(s: Seq<(ValueView, ValueView)>)
    requires
        json_pairs_ok(s),
    ensures
        decode_dict_items(pair_arrays(s)) == Ok::<Seq<(ValueView, ValueView)>, ErrorView>(s),
    decreases s, 0nat,
{
    if s.len() > 0 {
        lemma_json_pair_arrays(s.drop_last());
        lemma_json_value(s.last().0);
        lemma_json_value(s.last().1);
        assert(pair_arrays(s).drop_last() =~= pair_arrays(s.drop_last()));
        assert(s.drop_last().push(s.last()) =~= s);
    } else {
        assert(s =~= Seq::empty());
    }
}

/// With no key twice, the members of a dict's object are its pairs in order.
proof fn lemma_dict_members_plain(s: Seq<(ValueView, ValueView)>)
    requires
        json_pairs_ok(s),
        keys_distinct(s),
    ensures
        dict_members(s) == plain_members(s),
    decreases s, 0nat,
{
    if s.len() > 0 {
        let d = s.drop_last();
        let x = s.last();
        assert(keys_distinct(d)) by {
            assert forall|i: int, j: int| 0 <= i < j < d.len() implies d[i].0 != d[j].0 by {
                assert(d[i] == s[i] && d[j] == s[j]);
            }
        }
        lemma_dict_members_plain(d);
        let pm = plain_members(d);
        lemma_plain_members_len(d);
        lemma_key_index(pm, key_of(x.0));
        let ki = key_index(pm, key_of(x.0));
        if ki >= 0 {
            lemma_plain_members_index(d, ki);
            assert(d[ki] == s[ki]);
            lemma_pairs_ok_index(s, ki);
            lemma_pairs_ok_index(s, s.len() - 1);
            lemma_json_key(s[ki].0);
            lemma_json_key(s[s.len() - 1].0);
            assert(false);
        }
    }
}

proof fn lemma_decode_plain_members(s: Seq<(ValueView, ValueView)>)
    requires
        json_pairs_ok(s),
    ensures
        decode_members(plain_members(s)) == Ok::<Seq<(ValueView, ValueView)>, ErrorView>(s),
    decreases s, 0nat,
{
    if s.len() > 0 {
        lemma_decode_plain_members(s.drop_last());
        lemma_json_key(s.last().0);
        lemma_json_value(s.last().1);
        assert(plain_members(s).drop_last() =~= plain_members(s.drop_last()));
        assert(s.drop_last().push(s.last()) =~= s);
    } else {
        assert(s =~= Seq::empty());
    }
}

/// A value with every NaN made the canonical one.
pub open spec fn nan_norm(v: ValueView) -> ValueView
    decreases v,
{
    match v {
        ValueView::Float(f) => if is_nan_bits(f) {
            ValueView::Float(NAN_BITS)
        } else {
            v
        },
        ValueView::Tuple(items) => ValueView::Tuple(nan_norm_seq(items)),
        ValueView::List(items) => ValueView::List(nan_norm_seq(items)),
        ValueView::Dict(pairs) => ValueView::Dict(nan_norm_pairs(pairs)),
        ValueView::Instance { class, state } => ValueView::Instance { class, state: Box::new(nan_norm(*state)) },
        ValueView::Reduce { newobj, callable, args, state, list_items, dict_items } => ValueView::Reduce {
            newobj,
            callable: Box::new(nan_norm(*callable)),
            args: Box::new(nan_norm(*args)),
            state: match state {
                Some(s) => Some(Box::new(nan_norm(*s))),
                None => None,
            },
            list_items: nan_norm_seq(list_items),
            dict_items: nan_norm_pairs(dict_items),
        },
        ValueView::Callback(inner) => ValueView::Callback(Box::new(nan_norm(*inner))),
        _ => v,
    }
}

pub open spec fn nan_norm_seq(s: Seq<ValueView>) -> Seq<ValueView>
    decreases s,
{
    if s.len() == 0 {
        Seq::empty()
    } else {
        nan_norm_seq(s.drop_last()).push(nan_norm(s.last()))
    }
}

pub open spec fn nan_norm_pairs(s: Seq<(ValueView, ValueView)>) -> Seq<(ValueView, ValueView)>
    decreases s,
{
    if s.len() == 0 {
        Seq::empty()
    } else {
        nan_norm_pairs(s.drop_last()).push((nan_norm(s.last().0), nan_norm(s.last().1)))
    }
}

/// The values that the JSON mapping gives back (with their NaNs made the
/// canonical one): no dict holds two keys that are equal once their NaNs
/// are the canonical one.
pub open spec fn json_ok(v: ValueView) -> bool {
    json_exact(nan_norm(v))
}

proof fn lemma_nan_bits()
    ensures
        is_nan_bits(NAN_BITS),
{
}

/// The JSON form keeps no NaN payload: a value and the value with its NaNs
/// made canonical have the same form, as values and as keys.
proof fn lemma_nan_norm(v: ValueView)
    ensures
        spec_to_json(nan_norm(v)) == spec_to_json(v),
        key_of(nan_norm(v)) == key_of(v),
    decreases v,
{
    match v {
        ValueView::Float(f) => {
            lemma_nan_bits();
        },
        ValueView::Tuple(items) => {
            lemma_nan_norm_seq(items);
        },
        ValueView::List(items) => {
            lemma_nan_norm_seq(items);
        },
        ValueView::Dict(pairs) => {
            lemma_nan_norm_pairs(pairs);
        },
        ValueView::Instance { class, state } => {
            lemma_nan_norm(*state);
            let a = spec_to_json(nan_norm(v));
            let b = spec_to_json(v);
            assert(a->Object_0[0].1->Object_0 =~= b->Object_0[0].1->Object_0);
            assert(a->Object_0 =~= b->Object_0);
        },
        ValueView::Reduce { newobj, callable, args, state, list_items, dict_items } => {
            lemma_nan_norm(*callable);
            lemma_nan_norm(*args);
            match state {
                Some(s) => lemma_nan_norm(*s),
                None => {},
            }
            lemma_nan_norm_seq(list_items);
            lemma_nan_norm_pairs(dict_items);
            let a = spec_to_json(nan_norm(v));
            let b = spec_to_json(v);
            assert(a->Object_0[0].1->Object_0 =~= b->Object_0[0].1->Object_0);
            assert(a->Object_0 =~= b->Object_0);
        },
        ValueView::Callback(inner) => {
            lemma_nan_norm(*inner);
            let a = spec_to_json(nan_norm(v));
            let b = spec_to_json(v);
            assert(a->Object_0 =~= b->Object_0);
        },
        _ => {},
    }
}

proof fn lemma_nan_norm_seq(s: Seq<ValueView>)
    ensures
        to_json_seq(nan_norm_seq(s)) == to_json_seq(s),
    decreases s,
{
    if s.len() > 0 {
        lemma_nan_norm_seq(s.drop_last());
        lemma_nan_norm(s.last());
        assert(nan_norm_seq(s).drop_last() =~= nan_norm_seq(s.drop_last()));
        assert(to_json_seq(nan_norm_seq(s)) =~= to_json_seq(s));
    }
}

proof fn lemma_nan_norm_pairs(s: Seq<(ValueView, ValueView)>)
    ensures
        dict_members(nan_norm_pairs(s)) == dict_members(s),
        pair_arrays(nan_norm_pairs(s)) == pair_arrays(s),
    decreases s,
{
    if s.len() > 0 {
        lemma_nan_norm_pairs(s.drop_last());
        lemma_nan_norm(s.last().0);
        lemma_nan_norm(s.last().1);
        assert(nan_norm_pairs(s).drop_last() =~= nan_norm_pairs(s.drop_last()));
        assert(pair_arrays(nan_norm_pairs(s)).last() =~~= pair_arrays(s).last());
        assert(pair_arrays(nan_norm_pairs(s)) =~~= pair_arrays(s));
    }
}

/// Decoding the JSON form of a value gives the value back, with its NaNs
/// made the canonical one (the form keeps no NaN payload), for any value
/// whose dicts hold no two keys equal up to NaN payloads.
pub proof fn law_from_json_to_json(v: ValueView)
    requires
        json_ok(v),
    ensures
        spec_from_json(spec_to_json(v)) == Ok::<ValueView, ErrorView>(nan_norm(v)),
{
    lemma_nan_norm(v);
    lemma_json_value(nan_norm(v));
}

/// A dict key's form decodes to the key, with its NaNs made the canonical
/// one.
pub proof fn law_key_roundtrip(k: ValueView)
    requires
        json_ok(k),
    ensures
        decode_str(key_of(k)) == Ok::<ValueView, ErrorView>(nan_norm(k)),
{
    lemma_nan_norm(k);
    lemma_json_key(nan_norm(k));
}

/// Dict keys are unambiguous: two such values with the same key form are
/// the same value, up to NaN payloads.
pub proof fn law_key_injective(a: ValueView, b: ValueView)
    requires
        json_ok(a),
        json_ok(b),
        key_of(a) == key_of(b),
    ensures
        nan_norm(a) == nan_norm(b),
{
    law_key_roundtrip(a);
    law_key_roundtrip(b);
}

/// A `bytes:` text: what the mapping writes for bytes decodes to them; a
/// text that does not start with `b64:` stands for its UTF-8 bytes; and a
/// `b64:` text that is no padded standard base64 is an error.
pub proof fn law_bytes_text(b: Seq<u8>, rest: Seq<char>)
    ensures
        decode_str(JsonStrView::Text(bytes_text(b))) == Ok::<ValueView, ErrorView>(ValueView::Bytes(b)),
        !"b64:"@.is_prefix_of(rest) ==> decode_str(JsonStrView::Text("bytes:"@ + rest))
            == Ok::<ValueView, ErrorView>(ValueView::Bytes(encode_utf8(rest))),
        "b64:"@.is_prefix_of(rest) && b64_decode(after_prefix("b64:"@, rest)) is None
            ==> decode_str(JsonStrView::Text("bytes:"@ + rest)) is Err,
{
    lemma_text_bytes(b);
    let t = "bytes:"@ + rest;
    lemma_literals();
    lemma_after_prefix("bytes:"@, rest);
    lemma_first_chars(t);
    lemma_text(t, None);
}

/// Bytes that are valid UTF-8 and do not start with `b64:` are written as
/// `bytes:` and their text; any other bytes as `bytes:b64:` and their
/// base64. A dict key of bytes takes the same text.
pub proof fn law_bytes_form(b: Seq<u8>)
    ensures
        valid_utf8(b) && !"b64:"@.is_prefix_of(decode_utf8(b)) ==> {
            &&& spec_to_json(ValueView::Bytes(b)) == JsonView::Str(JsonStrView::Text("bytes:"@ + decode_utf8(b)))
            &&& key_of(ValueView::Bytes(b)) == JsonStrView::Text("bytes:"@ + decode_utf8(b))
        },
        !(valid_utf8(b) && !"b64:"@.is_prefix_of(decode_utf8(b))) ==> {
            &&& spec_to_json(ValueView::Bytes(b)) == JsonView::Str(JsonStrView::Text("bytes:b64:"@ + b64_encode(b)))
            &&& key_of(ValueView::Bytes(b)) == JsonStrView::Text("bytes:b64:"@ + b64_encode(b))
        },
{
}

/// A `{"reduce": {...}}` object whose `state` member is missing or `null`
/// decodes, when it decodes, to a reduce with no state.
pub proof fn law_reduce_without_state(m: Seq<(JsonStrView, JsonView)>)
    requires
        forall|i: int| 0 <= i < m.len() && text_of(#[trigger] m[i].0) == Some("state"@) ==> m[i].1 == JsonView::Null,
    ensures
        spec_from_json(JsonView::Object(seq![(JsonStrView::Text("reduce"@), JsonView::Object(m))])) matches Ok(v)
            ==> (v matches ValueView::Reduce { state, .. } && state is None),
{
    lemma_names_distinct();
    lemma_find(m, "state"@);
    let o = seq![(JsonStrView::Text("reduce"@), JsonView::Object(m))];
    assert(text_of(o[0].0) == Some("reduce"@));
    assert(spec_from_json(JsonView::Object(o)) == decode_object(o));
    assert(decode_object(o) == decode_reduce(m));
    let si = find(m, "state"@);
    assert(0 <= si < m.len() ==> m[si].1 == JsonView::Null);
}

} // verus!
