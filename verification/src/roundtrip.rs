//! What the reader gives back of what the writer wrote.

use vstd::prelude::*;
use vstd::bytes::{spec_u16_from_le_bytes, spec_u16_to_le_bytes, spec_u32_from_le_bytes,
    spec_u32_to_le_bytes, spec_u64_from_le_bytes, spec_u64_to_le_bytes,
    lemma_auto_spec_u16_to_from_le_bytes, lemma_auto_spec_u32_to_from_le_bytes,
    lemma_auto_spec_u64_to_from_le_bytes};
use vstd::utf8::{encode_utf8, decode_utf8, valid_utf8, encode_utf8_valid_utf8, encode_utf8_decode_utf8};
use crate::format::{le_i16, le_i32, le_i64, ser_integer, ser_buff, ser_int, ser_long, ser_float,
    ser_bytes, ser_str, ser, ser_seq, ser_pairs_vk, ser_pairs_kv, tuple_head, list_head, write_depth,
    seq_depth, pairs_depth, max, is_zero_float};
use crate::long::{min_signed_le, signed_le_value, lemma_min_signed_le};
use crate::parse::{Parsed, Ctx, St, remaining, at, p_bytes, p_u8, p_i32, p_integer, p_buff,
    p_scalar, p_object, p_inner, p_items, p_pairs, p_list_iter, p_dict_iter, p_compound,
    is_compound, str_like, seq_value, reduce_value, p_alloc_if, store, p_mark_and_store};
use crate::tags::{TY_MARK, TY_NONE, TY_TRUE, TY_FALSE, TY_INT_N1, TY_INT_0, TY_INT_1, TY_INT8,
    TY_INT16, TY_INT32, TY_INT64, TY_FLOAT, TY_FLOAT_0, TY_LONG, TY_STR_EMPTY, TY_STR_CHAR,
    TY_BUFFER, TY_UNICODE_0, TY_UTF8, TY_GLOBAL, TY_TUPLE0, TY_TUPLE1, TY_TUPLE2, TY_TUPLE,
    TY_LIST0, TY_LIST1, TY_LIST, TY_DICT, TY_INSTANCE, TY_NEWOBJ, TY_REDUCE, TY_CALLBACK};
use crate::value::ValueView;

verus! {

/// The values that come back exactly from a trip through the writer and the
/// reader: no `-0.0` (written as `TY_FLOAT_0`, read back as `0.0`), no
/// length beyond `i32::MAX` (written as an `i32`), and no callable beside
/// `TY_NEWOBJ` (whose callable is implicit).
pub open spec fn rt_ok(v: ValueView) -> bool
    decreases v,
{
    match v {
        ValueView::Float(b) => b != 0x8000_0000_0000_0000,
        ValueView::Long(n) => min_signed_le(n).len() <= i32::MAX,
        ValueView::Bytes(b) => b.len() <= i32::MAX,
        ValueView::Str(s) => encode_utf8(s).len() <= i32::MAX,
        ValueView::Global(name) => encode_utf8(name).len() <= i32::MAX,
        ValueView::Tuple(items) => items.len() <= i32::MAX && seq_ok(items),
        ValueView::List(items) => items.len() <= i32::MAX && seq_ok(items),
        ValueView::Dict(pairs) => pairs.len() <= i32::MAX && pairs_ok(pairs),
        ValueView::Instance { class, state } => encode_utf8(class).len() <= i32::MAX && rt_ok(*state),
        ValueView::Reduce { newobj, callable, args, state, list_items, dict_items } => {
            &&& (if newobj { *callable == ValueView::Null } else { rt_ok(*callable) })
            &&& rt_ok(*args)
            &&& (match state {
                Some(s) => rt_ok(*s),
                None => true,
            })
            &&& seq_ok(list_items)
            &&& pairs_ok(dict_items)
        },
        ValueView::Callback(inner) => rt_ok(*inner),
        _ => true,
    }
}

pub open spec fn seq_ok(s: Seq<ValueView>) -> bool
    decreases s,
{
    if s.len() == 0 {
        true
    } else {
        seq_ok(s.drop_last()) && rt_ok(s.last())
    }
}

pub open spec fn pairs_ok(s: Seq<(ValueView, ValueView)>) -> bool
    decreases s,
{
    if s.len() == 0 {
        true
    } else {
        pairs_ok(s.drop_last()) && rt_ok(s.last().0) && rt_ok(s.last().1)
    }
}

/// The buffer holds `b` from the state's position, before the end of the
/// object data.
pub open spec fn holds(c: Ctx, s: St, b: Seq<u8>) -> bool {
    &&& 0 <= s.pos
    &&& s.pos + b.len() <= c.ssize <= c.buf.len()
    &&& c.buf.subrange(s.pos, s.pos + b.len()) == b
}

pub open spec fn after(s: St, b: Seq<u8>) -> St {
    at(s, s.pos + b.len())
}

proof fn lemma_split(c: Ctx, s: St, a: Seq<u8>, b: Seq<u8>)
    requires
        holds(c, s, a + b),
    ensures
        holds(c, s, a),
        holds(c, after(s, a), b),
        after(after(s, a), b) == after(s, a + b),
{
    let whole = c.buf.subrange(s.pos, s.pos + a.len() + b.len());
    assert(whole == a + b);
    assert(c.buf.subrange(s.pos, s.pos + a.len()) =~= whole.subrange(0, a.len() as int));
    assert(whole.subrange(0, a.len() as int) =~= a);
    assert(c.buf.subrange(s.pos + a.len(), s.pos + a.len() + b.len()) =~= whole.subrange(
        a.len() as int,
        whole.len() as int,
    ));
    assert(whole.subrange(a.len() as int, whole.len() as int) =~= b);
}

proof fn lemma_byte(c: Ctx, s: St, b: Seq<u8>)
    requires
        holds(c, s, b),
        b.len() >= 1,
    ensures
        p_u8(c, s) == Parsed::Ok((b[0], at(s, s.pos + 1))),
{
    assert(c.buf.subrange(s.pos, s.pos + 1) =~= b.subrange(0, 1));
}

proof fn lemma_bytes(c: Ctx, s: St, b: Seq<u8>)
    requires
        holds(c, s, b),
    ensures
        p_bytes(c, s, b.len() as int) == Parsed::Ok((b, after(s, b))),
{
}

proof fn lemma_casts(x: i64)
    ensures
        -128 <= x <= 127 ==> (((x as i8) as u8) as i8) as i64 == x,
        -32768 <= x <= 32767 ==> (((x as i16) as u16) as i16) as i64 == x,
        i32::MIN <= x <= i32::MAX ==> (((x as i32) as u32) as i32) as i64 == x,
        (x as u64) as i64 == x,
{
    assert(-128 <= x <= 127 ==> (((x as i8) as u8) as i8) as i64 == x) by (bit_vector);
    assert(-32768 <= x <= 32767 ==> (((x as i16) as u16) as i16) as i64 == x) by (bit_vector);
    assert(-2147483648 <= x <= 2147483647 ==> (((x as i32) as u32) as i32) as i64 == x) by (bit_vector);
    assert((x as u64) as i64 == x) by (bit_vector);
}

proof fn lemma_i32_cast(x: i32)
    ensures
        (x as u32) as i32 == x,
{
    assert((x as u32) as i32 == x) by (bit_vector);
}

proof fn lemma_integer(c: Ctx, s: St, v: i32)
    requires
        holds(c, s, ser_integer(v)),
    ensures
        p_integer(c, s) == Parsed::Ok((v, after(s, ser_integer(v)))),
{
    lemma_byte(c, s, ser_integer(v));
    if !(0 <= v < 255) {
        let s1 = at(s, s.pos + 1);
        lemma_split(c, s, seq![255u8], le_i32(v));
        lemma_auto_spec_u32_to_from_le_bytes();
        lemma_i32_cast(v);
        lemma_bytes(c, s1, le_i32(v));
    }
}

proof fn lemma_buff(c: Ctx, s: St, b: Seq<u8>)
    requires
        holds(c, s, ser_buff(b)),
        b.len() <= i32::MAX,
    ensures
        p_buff(c, s) == Parsed::Ok((b, after(s, ser_buff(b)))),
{
    lemma_split(c, s, ser_integer(b.len() as i32), b);
    lemma_integer(c, s, b.len() as i32);
    lemma_bytes(c, after(s, ser_integer(b.len() as i32)), b);
}

/// The type byte of a tag below 64: not shared, and the tag itself.
proof fn lemma_tag(raw: u8)
    requires
        raw < 64,
    ensures
        !(raw % 128 >= 64),
        (raw % 64) as u8 == raw,
{
}

pub open spec fn is_leaf(v: ValueView) -> bool {
    match v {
        ValueView::Null | ValueView::Bool(_) | ValueView::Int(_) | ValueView::Long(_)
        | ValueView::Float(_) | ValueView::Bytes(_) | ValueView::Str(_) | ValueView::Global(_) => true,
        _ => false,
    }
}

/// Reading an object whose bytes start with a tag below 64: the tag, then
/// what the tag says.
proof fn lemma_head(c: Ctx, s: St, k: nat, b: Seq<u8>)
    requires
        holds(c, s, b),
        b.len() >= 1,
        b[0] < 64,
    ensures
        p_inner(c, s, k) == (if is_compound(b[0]) {
            p_compound(c, at(s, s.pos + 1), k, b[0], false)
        } else {
            p_scalar(c, at(s, s.pos + 1), b[0], false)
        }),
        holds(c, at(s, s.pos + 1), b.subrange(1, b.len() as int)),
        after(at(s, s.pos + 1), b.subrange(1, b.len() as int)) == after(s, b),
{
    lemma_byte(c, s, b);
    lemma_tag(b[0]);
    assert(seq![b[0]] + b.subrange(1, b.len() as int) =~= b);
    lemma_split(c, s, seq![b[0]], b.subrange(1, b.len() as int));
}

proof fn lemma_int(c: Ctx, s: St, i: i64)
    requires
        holds(c, s, ser_int(i).subrange(1, ser_int(i).len() as int)),
    ensures
        p_scalar(c, s, ser_int(i)[0], false) == Parsed::Ok((ValueView::Int(i), after(s, ser_int(i).subrange(1, ser_int(i).len() as int)))),
{
    let rest = ser_int(i).subrange(1, ser_int(i).len() as int);
    lemma_casts(i);
    if i == -1 || i == 0 || i == 1 {
        assert(rest =~= Seq::<u8>::empty());
    } else if -128 <= i <= 127 {
        assert(rest =~= seq![(i as i8) as u8]);
        lemma_byte(c, s, rest);
    } else if -32768 <= i <= 32767 {
        lemma_auto_spec_u16_to_from_le_bytes();
        assert(rest =~= le_i16(i as i16));
        lemma_bytes(c, s, rest);
    } else if i32::MIN <= i <= i32::MAX {
        lemma_auto_spec_u32_to_from_le_bytes();
        assert(rest =~= le_i32(i as i32));
        lemma_bytes(c, s, rest);
    } else {
        lemma_auto_spec_u64_to_from_le_bytes();
        assert(rest =~= le_i64(i));
        lemma_bytes(c, s, rest);
    }
}

proof fn lemma_float(c: Ctx, s: St, f: u64)
    requires
        f != 0x8000_0000_0000_0000,
        holds(c, s, ser_float(f).subrange(1, ser_float(f).len() as int)),
    ensures
        p_scalar(c, s, ser_float(f)[0], false) == Parsed::Ok((ValueView::Float(f), after(s, ser_float(f).subrange(1, ser_float(f).len() as int)))),
{
    let rest = ser_float(f).subrange(1, ser_float(f).len() as int);
    if is_zero_float(f) {
        assert(rest =~= Seq::<u8>::empty());
    } else {
        lemma_auto_spec_u64_to_from_le_bytes();
        assert(rest =~= spec_u64_to_le_bytes(f));
        lemma_bytes(c, s, rest);
    }
}

proof fn lemma_long(c: Ctx, s: St, n: int)
    requires
        min_signed_le(n).len() <= i32::MAX,
        holds(c, s, ser_long(n).subrange(1, ser_long(n).len() as int)),
    ensures
        p_scalar(c, s, ser_long(n)[0], false) == Parsed::Ok((ValueView::Long(n), after(s, ser_long(n).subrange(1, ser_long(n).len() as int)))),
{
    let rest = ser_long(n).subrange(1, ser_long(n).len() as int);
    let bytes = if n == 0 { Seq::<u8>::empty() } else { min_signed_le(n) };
    assert(rest =~= ser_buff(bytes));
    lemma_buff(c, s, bytes);
    if n != 0 {
        lemma_min_signed_le(n);
    }
}

proof fn lemma_byte_string(c: Ctx, s: St, bytes: Seq<u8>)
    requires
        bytes.len() <= i32::MAX,
        holds(c, s, ser_bytes(bytes).subrange(1, ser_bytes(bytes).len() as int)),
    ensures
        p_scalar(c, s, ser_bytes(bytes)[0], false) == Parsed::Ok((ValueView::Bytes(bytes), after(s, ser_bytes(bytes).subrange(1, ser_bytes(bytes).len() as int)))),
{
    let rest = ser_bytes(bytes).subrange(1, ser_bytes(bytes).len() as int);
    if bytes.len() == 1 {
        assert(rest =~= seq![bytes[0]]);
        lemma_byte(c, s, rest);
        assert(seq![bytes[0]] =~= bytes);
    } else if bytes.len() > 1 {
        assert(rest =~= ser_buff(bytes));
        lemma_buff(c, s, bytes);
    } else {
        assert(bytes =~= Seq::<u8>::empty());
    }
}

proof fn lemma_str(c: Ctx, s: St, t: Seq<char>)
    requires
        encode_utf8(t).len() <= i32::MAX,
        holds(c, s, ser_str(t).subrange(1, ser_str(t).len() as int)),
    ensures
        p_scalar(c, s, ser_str(t)[0], false) == Parsed::Ok((ValueView::Str(t), after(s, ser_str(t).subrange(1, ser_str(t).len() as int)))),
{
    let rest = ser_str(t).subrange(1, ser_str(t).len() as int);
    if t.len() > 0 {
        let e = encode_utf8(t);
        assert(rest =~= ser_integer(e.len() as i32) + e);
        lemma_split(c, s, ser_integer(e.len() as i32), e);
        lemma_integer(c, s, e.len() as i32);
        lemma_bytes(c, after(s, ser_integer(e.len() as i32)), e);
        encode_utf8_valid_utf8(t);
        encode_utf8_decode_utf8(t);
    } else {
        assert(t =~= Seq::<char>::empty());
    }
}

proof fn lemma_global(c: Ctx, s: St, name: Seq<char>)
    requires
        encode_utf8(name).len() <= i32::MAX,
        holds(c, s, ser_buff(encode_utf8(name))),
    ensures
        p_scalar(c, s, TY_GLOBAL, false) == Parsed::Ok((ValueView::Global(name), after(s, ser_buff(encode_utf8(name))))),
{
    lemma_buff(c, s, encode_utf8(name));
    encode_utf8_valid_utf8(name);
    encode_utf8_decode_utf8(name);
}

/// A value that holds no other value reads back as written.
proof fn lemma_leaf(c: Ctx, s: St, k: nat, v: ValueView)
    requires
        is_leaf(v),
        rt_ok(v),
        holds(c, s, ser(v)),
    ensures
        p_inner(c, s, k) == Parsed::Ok((v, after(s, ser(v)))),
{
    let b = ser(v);
    let s1 = at(s, s.pos + 1);
    let rest = b.subrange(1, b.len() as int);
    match v {
        ValueView::Int(i) => {
            lemma_head(c, s, k, b);
            lemma_int(c, s1, i);
        },
        ValueView::Float(f) => {
            lemma_head(c, s, k, b);
            lemma_float(c, s1, f);
        },
        ValueView::Long(n) => {
            lemma_head(c, s, k, b);
            lemma_long(c, s1, n);
        },
        ValueView::Bytes(bytes) => {
            lemma_head(c, s, k, b);
            lemma_byte_string(c, s1, bytes);
        },
        ValueView::Str(t) => {
            lemma_head(c, s, k, b);
            lemma_str(c, s1, t);
        },
        ValueView::Global(name) => {
            lemma_head(c, s, k, b);
            assert(rest =~= ser_buff(encode_utf8(name)));
            lemma_global(c, s1, name);
        },
        _ => {
            lemma_head(c, s, k, b);
        },
    }
}

/// Every value is written starting with its tag: below 64, never `TY_MARK`.
proof fn lemma_first_byte(v: ValueView)
    ensures
        ser(v).len() >= 1,
        ser(v)[0] < 64,
        ser(v)[0] != TY_MARK,
        is_compound(ser(v)[0]) <==> !is_leaf(v) && !(v matches ValueView::Tuple(items) && items.len() == 0)
            && !(v matches ValueView::List(items) && items.len() == 0),
{
    match v {
        ValueView::Tuple(items) => {
            assert(ser(v) == tuple_head(items.len()) + ser_seq(items));
        },
        ValueView::List(items) => {
            assert(ser(v) == list_head(items.len()) + ser_seq(items));
        },
        _ => {},
    }
}

proof fn lemma_ser_seq_len(s: Seq<ValueView>)
    ensures
        ser_seq(s).len() >= s.len(),
    decreases s.len(),
{
    if s.len() > 0 {
        lemma_ser_seq_len(s.drop_last());
        lemma_first_byte(s.last());
    }
}

proof fn lemma_pairs_len(s: Seq<(ValueView, ValueView)>)
    ensures
        ser_pairs_vk(s).len() >= 2 * s.len(),
        ser_pairs_kv(s).len() >= 2 * s.len(),
    decreases s.len(),
{
    if s.len() > 0 {
        lemma_pairs_len(s.drop_last());
        lemma_first_byte(s.last().0);
        lemma_first_byte(s.last().1);
    }
}

/// The values one after another, seen from the front.
proof fn lemma_ser_seq_front(s: Seq<ValueView>)
    requires
        s.len() > 0,
    ensures
        ser_seq(s) == ser(s[0]) + ser_seq(s.drop_first()),
    decreases s.len(),
{
    if s.len() == 1 {
        assert(s.drop_last() =~= Seq::<ValueView>::empty());
        assert(s.drop_first() =~= Seq::<ValueView>::empty());
        assert(ser_seq(s) =~= ser(s[0]) + ser_seq(s.drop_first()));
    } else {
        lemma_ser_seq_front(s.drop_last());
        assert(s.drop_last().drop_first() =~= s.drop_first().drop_last());
        assert(s.drop_first().last() == s.last());
        assert(ser_seq(s) =~= ser(s[0]) + ser_seq(s.drop_first()));
    }
}

proof fn lemma_pairs_kv_front(s: Seq<(ValueView, ValueView)>)
    requires
        s.len() > 0,
    ensures
        ser_pairs_kv(s) == ser(s[0].0) + ser(s[0].1) + ser_pairs_kv(s.drop_first()),
    decreases s.len(),
{
    if s.len() == 1 {
        assert(s.drop_last() =~= Seq::<(ValueView, ValueView)>::empty());
        assert(s.drop_first() =~= Seq::<(ValueView, ValueView)>::empty());
        assert(ser_pairs_kv(s) =~= ser(s[0].0) + ser(s[0].1) + ser_pairs_kv(s.drop_first()));
    } else {
        lemma_pairs_kv_front(s.drop_last());
        assert(s.drop_last().drop_first() =~= s.drop_first().drop_last());
        assert(s.drop_first().last() == s.last());
        assert(ser_pairs_kv(s) =~= ser(s[0].0) + ser(s[0].1) + ser_pairs_kv(s.drop_first()));
    }
}

proof fn lemma_seq_parts(s: Seq<ValueView>, i: int)
    requires
        0 <= i < s.len(),
    ensures
        seq_ok(s) ==> rt_ok(s[i]),
        write_depth(s[i]) <= seq_depth(s),
        seq_ok(s) ==> seq_ok(s.drop_first()),
        seq_depth(s.drop_first()) <= seq_depth(s),
    decreases s.len(),
{
    if i < s.len() - 1 {
        lemma_seq_parts(s.drop_last(), i);
    }
    if s.len() > 1 {
        lemma_seq_parts(s.drop_last(), 0);
        assert(s.drop_last().drop_first() =~= s.drop_first().drop_last());
        assert(s.drop_first().last() == s.last());
    } else {
        assert(s.drop_first() =~= Seq::<ValueView>::empty());
    }
}

proof fn lemma_pairs_parts(s: Seq<(ValueView, ValueView)>, i: int)
    requires
        0 <= i < s.len(),
    ensures
        pairs_ok(s) ==> rt_ok(s[i].0) && rt_ok(s[i].1),
        write_depth(s[i].0) <= pairs_depth(s),
        write_depth(s[i].1) <= pairs_depth(s),
        pairs_ok(s) ==> pairs_ok(s.drop_first()),
        pairs_depth(s.drop_first()) <= pairs_depth(s),
    decreases s.len(),
{
    if i < s.len() - 1 {
        lemma_pairs_parts(s.drop_last(), i);
    }
    if s.len() > 1 {
        lemma_pairs_parts(s.drop_last(), 0);
        assert(s.drop_last().drop_first() =~= s.drop_first().drop_last());
        assert(s.drop_first().last() == s.last());
    } else {
        assert(s.drop_first() =~= Seq::<(ValueView, ValueView)>::empty());
    }
}

/// A value written by the writer reads back as written, from where it
/// starts, with `k` levels of nesting left.
pub proof fn lemma_object(c: Ctx, s: St, k: nat, v: ValueView)
    requires
        rt_ok(v),
        write_depth(v) <= k,
        holds(c, s, ser(v)),
    ensures
        p_object(c, s, k) == Parsed::Ok((v, after(s, ser(v)))),
    decreases v, 4nat,
{
    lemma_inner(c, s, (k - 1) as nat, v);
}

proof fn lemma_inner(c: Ctx, s: St, k: nat, v: ValueView)
    requires
        rt_ok(v),
        write_depth(v) <= k + 1,
        holds(c, s, ser(v)),
    ensures
        p_inner(c, s, k) == Parsed::Ok((v, after(s, ser(v)))),
    decreases v, 3nat,
{
    lemma_first_byte(v);
    if is_leaf(v) {
        lemma_leaf(c, s, k, v);
    } else {
        let b = ser(v);
        let s1 = at(s, s.pos + 1);
        let rest = b.subrange(1, b.len() as int);
        lemma_head(c, s, k, b);
        match v {
            ValueView::Tuple(items) => {
                lemma_sequence(c, s1, k, v);
            },
            ValueView::List(items) => {
                lemma_sequence(c, s1, k, v);
            },
            ValueView::Dict(pairs) => {
                lemma_dict(c, s1, k, v);
            },
            ValueView::Instance { class, state } => {
                lemma_instance(c, s1, k, v);
            },
            ValueView::Reduce { .. } => {
                lemma_reduce(c, s1, k, v);
            },
            ValueView::Callback(inner) => {
                assert(rest =~= ser(*inner));
                lemma_object(c, s1, k, *inner);
            },
            _ => {},
        }
    }
}

proof fn lemma_sequence(c: Ctx, s: St, k: nat, v: ValueView)
    requires
        v is Tuple || v is List,
        rt_ok(v),
        write_depth(v) <= k + 1,
        holds(c, s, ser(v).subrange(1, ser(v).len() as int)),
    ensures
        ({
            let b = ser(v);
            let rest = b.subrange(1, b.len() as int);
            &&& is_compound(b[0]) ==> p_compound(c, s, k, b[0], false) == Parsed::Ok((v, after(s, rest)))
            &&& !is_compound(b[0]) ==> p_scalar(c, s, b[0], false) == Parsed::Ok((v, after(s, rest)))
        }),
    decreases v, 2nat,
{
    let b = ser(v);
    let rest = b.subrange(1, b.len() as int);
    let items = match v {
        ValueView::Tuple(items) => items,
        ValueView::List(items) => items,
        _ => Seq::empty(),
    };
    let n = items.len();
    let is_tuple = v is Tuple;
    if n == 0 {
        assert(items =~= Seq::<ValueView>::empty());
    } else if n == 1 || (n == 2 && is_tuple) {
        assert(rest =~= ser_seq(items));
        lemma_items(c, s, k, items);
    } else {
        assert(rest =~= ser_integer(n as i32) + ser_seq(items));
        lemma_split(c, s, ser_integer(n as i32), ser_seq(items));
        lemma_integer(c, s, n as i32);
        lemma_ser_seq_len(items);
        lemma_items(c, after(s, ser_integer(n as i32)), k, items);
    }
}

proof fn lemma_items(c: Ctx, s: St, k: nat, items: Seq<ValueView>)
    requires
        seq_ok(items),
        seq_depth(items) <= k,
        holds(c, s, ser_seq(items)),
    ensures
        p_items(c, s, k, items.len()) == Parsed::Ok((items, after(s, ser_seq(items)))),
    decreases items, 0nat,
{
    if items.len() > 0 {
        let init = items.drop_last();
        let last = items.last();
        lemma_split(c, s, ser_seq(init), ser(last));
        assert(decreases_to!(items => items[items.len() - 1]));
        lemma_items(c, s, k, init);
        lemma_object(c, after(s, ser_seq(init)), k, last);
        assert(init.push(last) =~= items);
    } else {
        assert(items =~= Seq::<ValueView>::empty());
    }
}

proof fn lemma_pairs(c: Ctx, s: St, k: nat, pairs: Seq<(ValueView, ValueView)>)
    requires
        pairs_ok(pairs),
        pairs_depth(pairs) <= k,
        holds(c, s, ser_pairs_vk(pairs)),
    ensures
        p_pairs(c, s, k, pairs.len()) == Parsed::Ok((pairs, after(s, ser_pairs_vk(pairs)))),
    decreases pairs, 0nat,
{
    if pairs.len() > 0 {
        let init = pairs.drop_last();
        let last = pairs.last();
        lemma_split(c, s, ser_pairs_vk(init) + ser(last.1), ser(last.0));
        lemma_split(c, s, ser_pairs_vk(init), ser(last.1));
        assert(decreases_to!(pairs => pairs[pairs.len() - 1]));
        lemma_pairs(c, s, k, init);
        lemma_object(c, after(s, ser_pairs_vk(init)), k, last.1);
        lemma_object(c, after(s, ser_pairs_vk(init) + ser(last.1)), k, last.0);
        assert(init.push((last.0, last.1)) =~= pairs);
    } else {
        assert(pairs =~= Seq::<(ValueView, ValueView)>::empty());
    }
}

proof fn lemma_list_iter(c: Ctx, s: St, k: nat, items: Seq<ValueView>)
    requires
        seq_ok(items),
        seq_depth(items) <= k,
        holds(c, s, ser_seq(items) + seq![TY_MARK]),
    ensures
        p_list_iter(c, s, k) == Parsed::Ok((items, after(s, ser_seq(items) + seq![TY_MARK]))),
    decreases items, 0nat,
{
    let b = ser_seq(items) + seq![TY_MARK];
    if items.len() == 0 {
        assert(ser_seq(items) =~= Seq::<u8>::empty());
        assert(b =~= seq![TY_MARK]);
        lemma_byte(c, s, b);
        assert(items =~= Seq::<ValueView>::empty());
    } else {
        let first = items[0];
        let tail = items.drop_first();
        lemma_ser_seq_front(items);
        lemma_seq_parts(items, 0);
        lemma_first_byte(first);
        assert(b =~= ser(first) + (ser_seq(tail) + seq![TY_MARK]));
        lemma_split(c, s, ser(first), ser_seq(tail) + seq![TY_MARK]);
        lemma_byte(c, s, b);
        assert(b[0] == ser(first)[0]);
        assert(decreases_to!(items => items[0]));
        lemma_object(c, s, k, first);
        lemma_list_iter(c, after(s, ser(first)), k, tail);
        assert(seq![first] + tail =~= items);
    }
}

proof fn lemma_dict_iter(c: Ctx, s: St, k: nat, pairs: Seq<(ValueView, ValueView)>)
    requires
        pairs_ok(pairs),
        pairs_depth(pairs) <= k,
        holds(c, s, ser_pairs_kv(pairs) + seq![TY_MARK]),
    ensures
        p_dict_iter(c, s, k) == Parsed::Ok((pairs, after(s, ser_pairs_kv(pairs) + seq![TY_MARK]))),
    decreases pairs, 0nat,
{
    let b = ser_pairs_kv(pairs) + seq![TY_MARK];
    if pairs.len() == 0 {
        assert(ser_pairs_kv(pairs) =~= Seq::<u8>::empty());
        assert(b =~= seq![TY_MARK]);
        lemma_byte(c, s, b);
        assert(pairs =~= Seq::<(ValueView, ValueView)>::empty());
    } else {
        let first = pairs[0];
        let tail = pairs.drop_first();
        lemma_pairs_kv_front(pairs);
        lemma_pairs_parts(pairs, 0);
        lemma_first_byte(first.0);
        assert(b =~= ser(first.0) + (ser(first.1) + (ser_pairs_kv(tail) + seq![TY_MARK])));
        lemma_split(c, s, ser(first.0), ser(first.1) + (ser_pairs_kv(tail) + seq![TY_MARK]));
        lemma_split(c, after(s, ser(first.0)), ser(first.1), ser_pairs_kv(tail) + seq![TY_MARK]);
        lemma_byte(c, s, b);
        assert(b[0] == ser(first.0)[0]);
        assert(decreases_to!(pairs => pairs[0]));
        lemma_object(c, s, k, first.0);
        lemma_object(c, after(s, ser(first.0)), k, first.1);
        lemma_dict_iter(c, after(after(s, ser(first.0)), ser(first.1)), k, tail);
        assert(seq![(first.0, first.1)] + tail =~= pairs);
    }
}

proof fn lemma_dict(c: Ctx, s: St, k: nat, v: ValueView)
    requires
        v is Dict,
        rt_ok(v),
        write_depth(v) <= k + 1,
        holds(c, s, ser(v).subrange(1, ser(v).len() as int)),
    ensures
        p_compound(c, s, k, crate::tags::TY_DICT, false) == Parsed::Ok((v, after(s, ser(v).subrange(1, ser(v).len() as int)))),
    decreases v, 2nat,
{
    let pairs = v->Dict_0;
    let n = pairs.len();
    let rest = ser(v).subrange(1, ser(v).len() as int);
    assert(rest =~= ser_integer(n as i32) + ser_pairs_vk(pairs));
    lemma_split(c, s, ser_integer(n as i32), ser_pairs_vk(pairs));
    lemma_integer(c, s, n as i32);
    lemma_pairs_len(pairs);
    lemma_pairs(c, after(s, ser_integer(n as i32)), k, pairs);
}

proof fn lemma_instance(c: Ctx, s: St, k: nat, v: ValueView)
    requires
        v is Instance,
        rt_ok(v),
        write_depth(v) <= k + 1,
        holds(c, s, ser(v).subrange(1, ser(v).len() as int)),
    ensures
        p_compound(c, s, k, crate::tags::TY_INSTANCE, false) == Parsed::Ok((v, after(s, ser(v).subrange(1, ser(v).len() as int)))),
    decreases v, 2nat,
{
    let class = v->Instance_class;
    let state = v->Instance_state;
    let rest = ser(v).subrange(1, ser(v).len() as int);
    let e = encode_utf8(class);
    let guid = ValueView::Bytes(e);
    assert(rest =~= ser(guid) + ser(*state));
    lemma_split(c, s, ser(guid), ser(*state));
    lemma_leaf(c, s, (k - 1) as nat, guid);
    encode_utf8_valid_utf8(class);
    encode_utf8_decode_utf8(class);
    assert(str_like(guid) == Some(class));
    lemma_object(c, after(s, ser(guid)), k, *state);
}

/// The payload tuple of a reduce, as the reader sees it.
pub open spec fn payload_items(newobj: bool, callable: ValueView, args: ValueView, state: Option<Box<ValueView>>) -> Seq<ValueView> {
    let front = if newobj { seq![args] } else { seq![callable, args] };
    match state {
        Some(s) => front.push(*s),
        None => front,
    }
}

proof fn lemma_payload(c: Ctx, s: St, k: nat, v: ValueView)
    requires
        v is Reduce,
        rt_ok(v),
        write_depth(v) <= k + 1,
        k >= 1,
        holds(c, s, crate::format::reduce_payload(v->Reduce_newobj, *v->Reduce_callable, *v->Reduce_args, v->Reduce_state)),
    ensures
        p_object(c, s, k) == Parsed::Ok((
            ValueView::Tuple(payload_items(v->Reduce_newobj, *v->Reduce_callable, *v->Reduce_args, v->Reduce_state)),
            after(s, crate::format::reduce_payload(v->Reduce_newobj, *v->Reduce_callable, *v->Reduce_args, v->Reduce_state)),
        )),
    decreases v, 1nat,
{
    let newobj = v->Reduce_newobj;
    let state = v->Reduce_state;
    let b = crate::format::reduce_payload(newobj, *v->Reduce_callable, *v->Reduce_args, state);
    let body = payload_body(newobj, *v->Reduce_callable, *v->Reduce_args, state);
    let j = (k - 1) as nat;
    let s1 = at(s, s.pos + 1);
    lemma_payload_rest(v);
    lemma_head(c, s, j, b);
    if !newobj && state is Some {
        lemma_split(c, s1, ser_integer(3), body);
        lemma_integer(c, s1, 3);
        lemma_payload_items(c, after(s1, ser_integer(3)), j, v);
    } else {
        lemma_payload_items(c, s1, j, v);
    }
}

/// The bytes of the payload's items, after its tag (and count).
pub open spec fn payload_body(newobj: bool, callable: ValueView, args: ValueView, state: Option<Box<ValueView>>) -> Seq<u8> {
    let front = if newobj { ser(args) } else { ser(callable) + ser(args) };
    match state {
        Some(s) => front + ser(*s),
        None => front,
    }
}

proof fn lemma_payload_items(c: Ctx, s: St, j: nat, v: ValueView)
    requires
        v is Reduce,
        rt_ok(v),
        write_depth(v) <= j + 2,
        holds(c, s, payload_body(v->Reduce_newobj, *v->Reduce_callable, *v->Reduce_args, v->Reduce_state)),
    ensures
        p_items(c, s, j, payload_items(v->Reduce_newobj, *v->Reduce_callable, *v->Reduce_args, v->Reduce_state).len())
            == Parsed::Ok((
            payload_items(v->Reduce_newobj, *v->Reduce_callable, *v->Reduce_args, v->Reduce_state),
            after(s, payload_body(v->Reduce_newobj, *v->Reduce_callable, *v->Reduce_args, v->Reduce_state)),
        )),
    decreases v, 0nat,
{
    let newobj = v->Reduce_newobj;
    let callable = *v->Reduce_callable;
    let args = *v->Reduce_args;
    let state = v->Reduce_state;
    let items = payload_items(newobj, callable, args, state);
    let body = payload_body(newobj, callable, args, state);
    assert(p_items(c, s, j, 0) == Parsed::Ok((Seq::<ValueView>::empty(), s)));
    let front = if newobj { seq![args] } else { seq![callable, args] };
    let fbody = if newobj { ser(args) } else { ser(callable) + ser(args) };
    if newobj {
        match state {
            Some(st) => { lemma_split(c, s, ser(args), ser(*st)); },
            None => {},
        }
        lemma_object(c, s, j, args);
        assert(Seq::<ValueView>::empty().push(args) =~= front);
    } else {
        match state {
            Some(st) => { lemma_split(c, s, ser(callable) + ser(args), ser(*st)); },
            None => {},
        }
        lemma_split(c, s, ser(callable), ser(args));
        lemma_object(c, s, j, callable);
        lemma_object(c, after(s, ser(callable)), j, args);
        assert(Seq::<ValueView>::empty().push(callable) =~= seq![callable]);
        assert(seq![callable].push(args) =~= front);
        assert(p_items(c, s, j, 1) == Parsed::Ok((seq![callable], after(s, ser(callable)))));
    }
    assert(p_items(c, s, j, front.len()) == Parsed::Ok((front, after(s, fbody))));
    match state {
        Some(st) => {
            lemma_object(c, after(s, fbody), j, *st);
            assert(front.push(*st) =~= items);
        },
        None => {},
    }
}

/// The bytes of a reduce's payload after its first byte.
proof fn lemma_payload_rest(v: ValueView)
    requires
        v is Reduce,
    ensures
        ({
            let b = crate::format::reduce_payload(v->Reduce_newobj, *v->Reduce_callable, *v->Reduce_args, v->Reduce_state);
            let rest = b.subrange(1, b.len() as int);
            let body = payload_body(v->Reduce_newobj, *v->Reduce_callable, *v->Reduce_args, v->Reduce_state);
            &&& b.len() >= 1
            &&& b[0] < 64
            &&& is_compound(b[0])
            &&& (v->Reduce_newobj || v->Reduce_state is None) ==> rest == body
            &&& !(v->Reduce_newobj || v->Reduce_state is None) ==> rest == ser_integer(3) + body
            &&& b[0] == (if v->Reduce_newobj { if v->Reduce_state is Some { TY_TUPLE2 } else { TY_TUPLE1 } }
                else { if v->Reduce_state is Some { TY_TUPLE } else { TY_TUPLE2 } })
        }),
{
    let b = crate::format::reduce_payload(v->Reduce_newobj, *v->Reduce_callable, *v->Reduce_args, v->Reduce_state);
    let rest = b.subrange(1, b.len() as int);
    let body = payload_body(v->Reduce_newobj, *v->Reduce_callable, *v->Reduce_args, v->Reduce_state);
    if v->Reduce_newobj || v->Reduce_state is None {
        assert(rest =~= body);
    } else {
        assert(rest =~= ser_integer(3) + body);
    }
}

proof fn lemma_reduce(c: Ctx, s: St, k: nat, v: ValueView)
    requires
        v is Reduce,
        rt_ok(v),
        write_depth(v) <= k + 1,
        holds(c, s, ser(v).subrange(1, ser(v).len() as int)),
    ensures
        p_compound(c, s, k, ser(v)[0], false) == Parsed::Ok((v, after(s, ser(v).subrange(1, ser(v).len() as int)))),
    decreases v, 2nat,
{
    let newobj = v->Reduce_newobj;
    let callable = v->Reduce_callable;
    let args = v->Reduce_args;
    let state = v->Reduce_state;
    let list_items = v->Reduce_list_items;
    let dict_items = v->Reduce_dict_items;
    let rest = ser(v).subrange(1, ser(v).len() as int);
    let pay = crate::format::reduce_payload(newobj, *callable, *args, state);
    let li = ser_seq(list_items) + seq![TY_MARK];
    let di = ser_pairs_kv(dict_items) + seq![TY_MARK];
    assert(rest =~= pay + li + di);
    lemma_split(c, s, pay + li, di);
    lemma_split(c, s, pay, li);
    lemma_payload(c, s, k, v);
    lemma_list_iter(c, after(s, pay), k, list_items);
    lemma_dict_iter(c, after(s, pay + li), k, dict_items);
    let items = payload_items(newobj, *callable, *args, state);
    assert(reduce_value(newobj, items, list_items, dict_items) == v);
}

/// The checksum header as the reader reads it: the stored sum, then the
/// object after it.
proof fn lemma_crc(c: Ctx, s: St, k: nat, v: ValueView)
    requires
        rt_ok(v),
        write_depth(v) <= k,
        c.ssize == c.buf.len(),
        holds(c, s, seq![crate::tags::TY_CRC_CHECK] + spec_u32_to_le_bytes(crate::adler32::spec_adler32(1, ser(v))) + ser(v)),
        s.pos + 5 + ser(v).len() == c.buf.len(),
    ensures
        p_inner(c, s, k) == Parsed::Ok((v, St {
            got_crc: true,
            crc_val: crate::adler32::spec_adler32(1, ser(v)) as i32,
            crc_pos: s.pos + 5,
            pos: c.buf.len() as int,
            ..s
        })),
        c.buf.subrange(s.pos + 5, c.buf.len() as int) == ser(v),
{
    let sum = crate::adler32::spec_adler32(1, ser(v));
    let crc = spec_u32_to_le_bytes(sum);
    let b = seq![crate::tags::TY_CRC_CHECK] + crc + ser(v);
    lemma_auto_spec_u32_to_from_le_bytes();
    lemma_head(c, s, k, b);
    let s1 = at(s, s.pos + 1);
    assert(b.subrange(1, b.len() as int) =~= crc + ser(v));
    lemma_split(c, s1, crc, ser(v));
    lemma_bytes(c, s1, crc);
    let s2 = St { got_crc: true, crc_val: sum as i32, crc_pos: s.pos + 5, ..after(s1, crc) };
    assert(after(s1, crc).pos == s.pos + 5);
    assert(holds(c, s2, ser(v)));
    lemma_object(c, s2, k, v);
    assert(c.buf.subrange(s.pos + 5, c.buf.len() as int) == ser(v));
}

/// Decoding what `encode` wrote gives the value back exactly, with `had_crc`
/// as the options asked and every byte consumed.
proof fn lemma_decode_encode_exact(v: ValueView, version: u8, checksum: bool)
    requires
        rt_ok(v),
        write_depth(v) + (if checksum { 1int } else { 0int }) <= crate::tags::RECURSION_LIMIT,
    ensures
        crate::parse::spec_decode(crate::writer::spec_encode(v, version, checksum)) == Ok::<crate::parse::DecodedView, crate::error::ErrorView>(
            crate::parse::DecodedView {
                value: v,
                had_crc: checksum,
                consumed: crate::writer::spec_encode(v, version, checksum).len() as int,
            },
        ),
{
    let buf = crate::writer::spec_encode(v, version, checksum);
    let head = crate::writer::header(version);
    let body = if checksum {
        seq![crate::tags::TY_CRC_CHECK] + spec_u32_to_le_bytes(crate::adler32::spec_adler32(1, ser(v))) + ser(v)
    } else {
        ser(v)
    };
    assert(buf =~= head + body);
    let c0 = crate::parse::start_ctx(buf);
    let s0 = crate::parse::start_st();
    lemma_auto_spec_u32_to_from_le_bytes();
    assert(holds(c0, s0, head + body)) by {
        assert(buf.subrange(0, buf.len() as int) =~= buf);
    }
    lemma_split(c0, s0, head, body);
    let sb = after(s0, head);
    let c = if version == 0 { c0 } else { Ctx { version, ..c0 } };
    if version == 0 {
        assert(head =~= seq![crate::tags::TY_SIGNATURE] + le_i32(0));
        lemma_split(c0, s0, seq![crate::tags::TY_SIGNATURE], le_i32(0));
        lemma_byte(c0, s0, head);
        lemma_bytes(c0, at(s0, 1), le_i32(0));
        lemma_i32_cast(0);
        assert(crate::parse::p_header(buf) == Ok::<(Ctx, St), crate::error::ErrorView>((c0, sb)));
    } else {
        lemma_byte(c0, s0, head);
        assert(head =~= seq![crate::tags::TY_SIGNATURE2, version]);
        assert(c0.buf.subrange(1, 2) =~= head.subrange(1, 2));
        assert(crate::parse::p_header(buf) == Ok::<(Ctx, St), crate::error::ErrorView>((c, sb)));
    }
    assert(holds(c, sb, body));
    let k = crate::tags::RECURSION_LIMIT as nat;
    if checksum {
        lemma_crc(c, sb, (k - 1) as nat, v);
        let sum = crate::adler32::spec_adler32(1, ser(v));
        let s_end = St { got_crc: true, crc_val: sum as i32, crc_pos: sb.pos + 5, pos: c.buf.len() as int, ..sb };
        assert(p_object(c, sb, k) == Parsed::Ok((v, s_end)));
        lemma_i32_cast(sum as i32);
        assert((sum as i32) as u32 == sum) by (bit_vector);
        assert(crate::parse::p_verify(c, s_end, c.buf.len() as int) == Ok::<(), crate::error::ErrorView>(()));
    } else {
        lemma_object(c, sb, k, v);
    }
}

/// A value with every `-0.0` made `0.0` (the writer writes both as
/// `TY_FLOAT_0`).
pub open spec fn zero_norm(v: ValueView) -> ValueView
    decreases v,
{
    match v {
        ValueView::Float(f) => ValueView::Float(if f == 0x8000_0000_0000_0000 { 0 } else { f }),
        ValueView::Tuple(items) => ValueView::Tuple(zero_norm_seq(items)),
        ValueView::List(items) => ValueView::List(zero_norm_seq(items)),
        ValueView::Dict(pairs) => ValueView::Dict(zero_norm_pairs(pairs)),
        ValueView::Instance { class, state } => ValueView::Instance { class, state: Box::new(zero_norm(*state)) },
        ValueView::Reduce { newobj, callable, args, state, list_items, dict_items } => ValueView::Reduce {
            newobj,
            callable: Box::new(zero_norm(*callable)),
            args: Box::new(zero_norm(*args)),
            state: match state {
                Some(s) => Some(Box::new(zero_norm(*s))),
                None => None,
            },
            list_items: zero_norm_seq(list_items),
            dict_items: zero_norm_pairs(dict_items),
        },
        ValueView::Callback(inner) => ValueView::Callback(Box::new(zero_norm(*inner))),
        _ => v,
    }
}

pub open spec fn zero_norm_seq(s: Seq<ValueView>) -> Seq<ValueView>
    decreases s,
{
    if s.len() == 0 {
        Seq::empty()
    } else {
        zero_norm_seq(s.drop_last()).push(zero_norm(s.last()))
    }
}

pub open spec fn zero_norm_pairs(s: Seq<(ValueView, ValueView)>) -> Seq<(ValueView, ValueView)>
    decreases s,
{
    if s.len() == 0 {
        Seq::empty()
    } else {
        zero_norm_pairs(s.drop_last()).push((zero_norm(s.last().0), zero_norm(s.last().1)))
    }
}

/// The values that survive a trip through the writer and the reader, up to
/// `-0.0` coming back as `0.0`: no length beyond `i32::MAX` and no callable
/// beside `TY_NEWOBJ`.
pub open spec fn encodable(v: ValueView) -> bool {
    rt_ok(zero_norm(v))
}

/// The writer writes a value and the value with its `-0.0`s made `0.0` the
/// same, at the same depth.
proof fn lemma_zero_norm(v: ValueView)
    ensures
        ser(zero_norm(v)) == ser(v),
        write_depth(zero_norm(v)) == write_depth(v),
    decreases v,
{
    match v {
        ValueView::Tuple(items) => lemma_zero_norm_seq(items),
        ValueView::List(items) => lemma_zero_norm_seq(items),
        ValueView::Dict(pairs) => lemma_zero_norm_pairs(pairs),
        ValueView::Instance { state, .. } => lemma_zero_norm(*state),
        ValueView::Reduce { callable, args, state, list_items, dict_items, .. } => {
            lemma_zero_norm(*callable);
            lemma_zero_norm(*args);
            match state {
                Some(s) => lemma_zero_norm(*s),
                None => {},
            }
            lemma_zero_norm_seq(list_items);
            lemma_zero_norm_pairs(dict_items);
        },
        ValueView::Callback(inner) => lemma_zero_norm(*inner),
        _ => {},
    }
}

proof fn lemma_zero_norm_seq(s: Seq<ValueView>)
    ensures
        zero_norm_seq(s).len() == s.len(),
        ser_seq(zero_norm_seq(s)) == ser_seq(s),
        seq_depth(zero_norm_seq(s)) == seq_depth(s),
    decreases s,
{
    if s.len() > 0 {
        lemma_zero_norm_seq(s.drop_last());
        lemma_zero_norm(s.last());
        assert(zero_norm_seq(s).drop_last() =~= zero_norm_seq(s.drop_last()));
    }
}

proof fn lemma_zero_norm_pairs(s: Seq<(ValueView, ValueView)>)
    ensures
        zero_norm_pairs(s).len() == s.len(),
        ser_pairs_vk(zero_norm_pairs(s)) == ser_pairs_vk(s),
        ser_pairs_kv(zero_norm_pairs(s)) == ser_pairs_kv(s),
        pairs_depth(zero_norm_pairs(s)) == pairs_depth(s),
    decreases s,
{
    if s.len() > 0 {
        lemma_zero_norm_pairs(s.drop_last());
        lemma_zero_norm(s.last().0);
        lemma_zero_norm(s.last().1);
        assert(zero_norm_pairs(s).drop_last() =~= zero_norm_pairs(s.drop_last()));
    }
}

/// Decoding what `encode` wrote gives the value back, with every `-0.0`
/// read as `0.0`, `had_crc` as the options asked and every byte consumed:
/// for any value with no length beyond `i32::MAX`, no callable beside
/// `TY_NEWOBJ`, and a depth that leaves room for the checksum header.
pub proof fn law_decode_encode(v: ValueView, version: u8, checksum: bool)
    requires
        encodable(v),
        write_depth(v) + (if checksum { 1int } else { 0int }) <= crate::tags::RECURSION_LIMIT,
    ensures
        crate::parse::spec_decode(crate::writer::spec_encode(v, version, checksum)) == Ok::<crate::parse::DecodedView, crate::error::ErrorView>(
            crate::parse::DecodedView {
                value: zero_norm(v),
                had_crc: checksum,
                consumed: crate::writer::spec_encode(v, version, checksum).len() as int,
            },
        ),
{
    lemma_zero_norm(v);
    lemma_decode_encode_exact(zero_norm(v), version, checksum);
}

/// The writer emits no shared references: reading back what it wrote for a
/// value, from any state of the reader, registers no shared object and
/// follows no reference; only the position moves.
pub proof fn law_written_values_share_nothing(c: Ctx, s: St, k: nat, v: ValueView)
    requires
        encodable(v),
        write_depth(v) <= k,
        holds(c, s, ser(v)),
    ensures
        p_object(c, s, k) == Parsed::Ok((zero_norm(v), St { pos: s.pos + ser(v).len(), ..s })),
{
    lemma_zero_norm(v);
    lemma_object(c, s, k, zero_norm(v));
}

/// An `int` is written in the smallest `TY_INT*` form that holds it (see
/// `ser_int`) and reads back as the same `int`.
pub proof fn law_int_form(c: Ctx, s: St, k: nat, i: i64)
    requires
        k >= 1,
        holds(c, s, ser_int(i)),
    ensures
        ser(ValueView::Int(i)) == ser_int(i),
        p_object(c, s, k) == Parsed::Ok((ValueView::Int(i), St { pos: s.pos + ser_int(i).len(), ..s })),
{
    lemma_object(c, s, k, ValueView::Int(i));
}

/// A shared byte string (`TY_STR` or `TY_BUFFER` with the shared flag)
/// takes the next slot of the shared-object table, so that a later
/// `TY_REFERENCE` to that slot gives the same bytes: in a version-1 stream,
/// a pair of such a string and a reference to slot 0 decodes to the string
/// twice.
pub proof fn law_shared_byte_string(tag: u8, b: Seq<u8>)
    requires
        tag == 13 || tag == 19,
        b.len() < 255,
    ensures
        ({
            let buf = seq![125u8, 1u8, 44u8, (tag + 64) as u8, b.len() as u8] + b + seq![27u8, 0u8];
            crate::parse::spec_decode(buf) == Ok::<crate::parse::DecodedView, crate::error::ErrorView>(
                crate::parse::DecodedView {
                    value: ValueView::Tuple(seq![ValueView::Bytes(b), ValueView::Bytes(b)]),
                    had_crc: false,
                    consumed: buf.len() as int,
                },
            )
        }),
{
    let n = b.len() as int;
    let buf = seq![125u8, 1u8, 44u8, (tag + 64) as u8, b.len() as u8] + b + seq![27u8, 0u8];
    let c0 = crate::parse::start_ctx(buf);
    let s0 = crate::parse::start_st();
    let c = Ctx { version: 1, ..c0 };
    assert(buf.len() == n + 7);
    assert(buf[0] == 125u8 && buf[1] == 1u8 && buf[2] == 44u8 && buf[3] == (tag + 64) as u8);
    assert(buf[4] == b.len() as u8 && buf[5 + n] == 27u8 && buf[6 + n] == 0u8);
    assert(c0.buf.subrange(0, 1) =~= seq![125u8]);
    assert(c0.buf.subrange(1, 2) =~= seq![1u8]);
    assert(crate::parse::p_header(buf) == Ok::<(Ctx, St), crate::error::ErrorView>((c, at(s0, 2))));
    let s3 = at(s0, 3);
    assert(buf.subrange(2, 3) =~= seq![44u8]);
    assert(p_u8(c, at(s0, 2)) == Parsed::Ok((44u8, s3)));
    // The string.
    assert(buf.subrange(3, 4) =~= seq![(tag + 64) as u8]);
    assert(buf.subrange(4, 5) =~= seq![b.len() as u8]);
    assert(buf.subrange(5, 5 + n) =~= b);
    let s4 = at(s0, 4);
    assert(p_u8(c, s3) == Parsed::Ok(((tag + 64) as u8, s4)));
    assert(((tag + 64) as u8) % 128 >= 64 && (((tag + 64) as u8) % 64) as u8 == tag);
    assert(p_integer(c, s4) == Parsed::Ok((n as i32, at(s0, 5))));
    assert(p_buff(c, s4) == Parsed::Ok((b, at(s0, 5 + n))));
    let s7 = St { shared: seq![ValueView::Bytes(b)], ..at(s0, 5 + n) };
    assert(Seq::<ValueView>::empty().push(ValueView::Null).update(0, ValueView::Bytes(b)) =~= seq![ValueView::Bytes(b)]);
    assert(crate::parse::p_mark_and_store(c, at(s0, 5 + n), ValueView::Bytes(b), true) == Parsed::Ok((ValueView::Bytes(b), s7)));
    assert(crate::parse::p_scalar(c, s4, tag, true) == Parsed::Ok((ValueView::Bytes(b), s7)));
    assert(p_object(c, s3, 999) == Parsed::Ok((ValueView::Bytes(b), s7)));
    // The reference.
    assert(buf.subrange(5 + n, 6 + n) =~= seq![27u8]);
    assert(buf.subrange(6 + n, 7 + n) =~= seq![0u8]);
    assert(p_u8(c, s7) == Parsed::Ok((27u8, at(s7, 6 + n))));
    assert(p_integer(c, at(s7, 6 + n)) == Parsed::Ok((0i32, at(s7, 7 + n))));
    assert(crate::parse::p_scalar(c, at(s7, 6 + n), 27u8, false) == Parsed::Ok((ValueView::Bytes(b), at(s7, 7 + n))));
    assert(p_object(c, s7, 999) == Parsed::Ok((ValueView::Bytes(b), at(s7, 7 + n))));
    // The pair.
    assert(crate::parse::p_items(c, s3, 998 + 1, 0) == Parsed::Ok((Seq::<ValueView>::empty(), s3)));
    assert(crate::parse::p_items(c, s3, 999, 1) == Parsed::Ok((seq![ValueView::Bytes(b)], s7)));
    assert(seq![ValueView::Bytes(b)].push(ValueView::Bytes(b)) =~= seq![ValueView::Bytes(b), ValueView::Bytes(b)]);
    assert(crate::parse::p_items(c, s3, 999, 2) == Parsed::Ok((seq![ValueView::Bytes(b), ValueView::Bytes(b)], at(s7, 7 + n))));
    let pair = ValueView::Tuple(seq![ValueView::Bytes(b), ValueView::Bytes(b)]);
    assert(crate::parse::p_alloc_if(c, s3, false) == Parsed::Ok((-1int, s3)));
    assert(crate::parse::p_sequence(c, s3, 999, 44u8, false) == Parsed::Ok((pair, at(s7, 7 + n))));
    assert(crate::parse::p_compound(c, s3, 999, 44u8, false) == Parsed::Ok((pair, at(s7, 7 + n))));
    assert(crate::parse::is_compound(44u8));
    assert(p_inner(c, at(s0, 2), 999) == Parsed::Ok((pair, at(s7, 7 + n))));
    assert(p_object(c, at(s0, 2), 1000) == Parsed::Ok((pair, at(s7, 7 + n))));
}

/// A shared container takes its slot of the shared-object table when its
/// tag is read, before any object nested in it: in a version-1 stream, a
/// pair of a shared one-entry dict (whose key is itself a shared byte string)
/// and a reference to slot 0 decodes to the dict twice.
#[verifier::rlimit(40)]
pub proof fn law_container_slot_first(val: ValueView, b: Seq<u8>)
    requires
        rt_ok(val),
        write_depth(val) <= 997,
        b.len() < 255,
    ensures
        ({
            let buf = seq![125u8, 1u8, 44u8, 86u8, 1u8] + ser(val) + seq![83u8, b.len() as u8] + b + seq![27u8, 0u8];
            let d = ValueView::Dict(seq![(ValueView::Bytes(b), val)]);
            crate::parse::spec_decode(buf) == Ok::<crate::parse::DecodedView, crate::error::ErrorView>(
                crate::parse::DecodedView { value: ValueView::Tuple(seq![d, d]), had_crc: false, consumed: buf.len() as int },
            )
        }),
{
    let n = b.len() as int;
    let w = ser(val);
    let l = w.len() as int;
    let buf = seq![125u8, 1u8, 44u8, 86u8, 1u8] + w + seq![83u8, b.len() as u8] + b + seq![27u8, 0u8];
    let d = ValueView::Dict(seq![(ValueView::Bytes(b), val)]);
    let c0 = crate::parse::start_ctx(buf);
    let s0 = crate::parse::start_st();
    let c = Ctx { version: 1, ..c0 };
    assert(buf.len() == l + n + 9);
    let s3 = at(s0, 3);
    let s4 = at(s0, 4);
    let s5 = at(s0, 5);
    let sa = St { shared: seq![ValueView::Null], ..s5 };
    let sb = at(sa, 5 + l);
    let sc = St { shared: seq![ValueView::Null, ValueView::Bytes(b)], ..at(sb, 7 + l + n) };
    let sd = St { shared: seq![d, ValueView::Bytes(b)], ..sc };
    let se = at(sd, 9 + l + n);
    assert(crate::parse::p_header(buf) == Ok::<(Ctx, St), crate::error::ErrorView>((c, at(s0, 2)))) by {
        assert(c0.buf.subrange(0, 1) =~= seq![125u8]);
        assert(c0.buf.subrange(1, 2) =~= seq![1u8]);
    }
    assert(p_object(c, sa, 998) == Parsed::Ok((val, sb))) by {
        assert(buf.subrange(5, 5 + l) =~= w);
        lemma_object(c, sa, 998, val);
    }
    assert(p_object(c, sb, 998) == Parsed::Ok((ValueView::Bytes(b), sc))) by {
        assert(buf.subrange(5 + l, 6 + l) =~= seq![83u8]);
        assert(buf.subrange(6 + l, 7 + l) =~= seq![b.len() as u8]);
        assert(buf.subrange(7 + l, 7 + l + n) =~= b);
        assert(p_u8(c, sb) == Parsed::Ok((83u8, at(sb, 6 + l))));
        assert(p_buff(c, at(sb, 6 + l)) == Parsed::Ok((b, at(sb, 7 + l + n))));
        assert(seq![ValueView::Null].push(ValueView::Null).update(1, ValueView::Bytes(b)) =~= seq![ValueView::Null, ValueView::Bytes(b)]);
        assert(crate::parse::p_mark_and_store(c, at(sb, 7 + l + n), ValueView::Bytes(b), true) == Parsed::Ok((ValueView::Bytes(b), sc)));
        assert(crate::parse::p_scalar(c, at(sb, 6 + l), 19u8, true) == Parsed::Ok((ValueView::Bytes(b), sc)));
        assert(p_inner(c, sb, 997) == Parsed::Ok((ValueView::Bytes(b), sc)));
    }
    assert(p_object(c, s3, 999) == Parsed::Ok((d, sd))) by {
        assert(buf.subrange(3, 4) =~= seq![86u8]);
        assert(buf.subrange(4, 5) =~= seq![1u8]);
        assert(p_u8(c, s3) == Parsed::Ok((86u8, s4)));
        assert(p_integer(c, s4) == Parsed::Ok((1i32, s5)));
        assert(Seq::<ValueView>::empty().push(ValueView::Null) =~= seq![ValueView::Null]);
        assert(crate::parse::p_alloc_if(c, s5, true) == Parsed::Ok((0int, sa)));
        assert(crate::parse::p_pairs(c, sa, 998, 0) == Parsed::Ok((Seq::<(ValueView, ValueView)>::empty(), sa)));
        assert(Seq::<(ValueView, ValueView)>::empty().push((ValueView::Bytes(b), val)) =~= seq![(ValueView::Bytes(b), val)]);
        assert(crate::parse::p_pairs(c, sa, 998, 1) == Parsed::Ok((seq![(ValueView::Bytes(b), val)], sc)));
        assert(sc.shared.update(0, d) =~= seq![d, ValueView::Bytes(b)]);
        assert(crate::parse::p_dict(c, s4, 998, true) == Parsed::Ok((d, sd)));
        assert(crate::parse::p_compound(c, s4, 998, 22u8, true) == Parsed::Ok((d, sd)));
        assert(crate::parse::is_compound(22u8));
        assert(p_inner(c, s3, 998) == Parsed::Ok((d, sd)));
    }
    assert(p_object(c, sd, 999) == Parsed::Ok((d, se))) by {
        assert(buf.subrange(7 + l + n, 8 + l + n) =~= seq![27u8]);
        assert(buf.subrange(8 + l + n, 9 + l + n) =~= seq![0u8]);
        assert(p_u8(c, sd) == Parsed::Ok((27u8, at(sd, 8 + l + n))));
        assert(p_integer(c, at(sd, 8 + l + n)) == Parsed::Ok((0i32, se)));
        assert(crate::parse::p_scalar(c, at(sd, 8 + l + n), 27u8, false) == Parsed::Ok((d, se)));
    }
    let pair = ValueView::Tuple(seq![d, d]);
    assert(p_object(c, at(s0, 2), 1000) == Parsed::Ok((pair, se))) by {
        assert(buf.subrange(2, 3) =~= seq![44u8]);
        assert(p_u8(c, at(s0, 2)) == Parsed::Ok((44u8, s3)));
        assert(crate::parse::p_items(c, s3, 999, 0) == Parsed::Ok((Seq::<ValueView>::empty(), s3)));
        assert(crate::parse::p_items(c, s3, 999, 1) == Parsed::Ok((seq![d], sd)));
        assert(seq![d].push(d) =~= seq![d, d]);
        assert(crate::parse::p_items(c, s3, 999, 2) == Parsed::Ok((seq![d, d], se)));
        assert(crate::parse::p_alloc_if(c, s3, false) == Parsed::Ok((-1int, s3)));
        assert(crate::parse::p_sequence(c, s3, 999, 44u8, false) == Parsed::Ok((pair, se)));
        assert(crate::parse::p_compound(c, s3, 999, 44u8, false) == Parsed::Ok((pair, se)));
        assert(crate::parse::is_compound(44u8));
        assert(p_inner(c, at(s0, 2), 999) == Parsed::Ok((pair, se)));
    }
}

/// The writer opens a reduce with `TY_NEWOBJ` (35) exactly when it is a
/// `__newobj__` reduce, and with `TY_REDUCE` (34) otherwise.
pub proof fn law_reduce_tag_written(v: ValueView)
    ensures
        match v {
            ValueView::Reduce { newobj, .. } => ser(v).len() > 0 && ser(v)[0] == (if newobj { 35u8 } else { 34u8 }),
            _ => true,
        },
{
}

/// The reader reads an object tagged `TY_NEWOBJ` (35) as a `__newobj__`
/// reduce and one tagged `TY_REDUCE` (34) as a plain reduce, wherever it
/// stands and whatever follows.
pub proof fn law_reduce_tag_read(c: Ctx, s: St, k: nat)
    requires
        0 <= s.pos < c.ssize <= c.buf.len(),
        c.buf[s.pos] == 34u8 || c.buf[s.pos] == 35u8,
    ensures
        p_object(c, s, k) matches Ok((v, _)) ==> (v matches ValueView::Reduce { newobj, .. } && newobj == (c.buf[s.pos] == 35u8)),
{
    if k > 0 {
        let raw = c.buf[s.pos];
        assert(c.buf.subrange(s.pos, s.pos + 1)[0] == raw);
        assert(p_u8(c, s) == Parsed::Ok((raw, at(s, s.pos + 1))));
        assert(raw % 128 < 64 && (raw % 64) as u8 == raw);
        assert(crate::parse::is_compound(raw));
        let s1 = at(s, s.pos + 1);
        let k1 = (k - 1) as nat;
        assert(p_object(c, s, k) == p_inner(c, s, k1));
        assert(p_inner(c, s, k1) == p_compound(c, s1, k1, raw, false));
        assert(p_compound(c, s1, k1, raw, false) == crate::parse::p_reduce(c, s1, k1, raw == 35u8, false));
        lemma_p_reduce_newobj(c, s1, k1, raw == 35u8, false);
    }
}

proof fn lemma_p_reduce_newobj(c: Ctx, s: St, k: nat, newobj: bool, shared: bool)
    ensures
        crate::parse::p_reduce(c, s, k, newobj, shared) matches Ok((v, _)) ==> (v matches ValueView::Reduce { newobj: n, .. } && n == newobj),
{
}

} // verus!
