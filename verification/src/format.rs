//! The wire format as the writer produces it: what each value is written as.

use vstd::prelude::*;
use vstd::bytes::*;
use vstd::utf8::encode_utf8;
use crate::long::min_signed_le;
use crate::tags::{TY_NONE, TY_TRUE, TY_FALSE, TY_INT_N1, TY_INT_0, TY_INT_1, TY_INT8, TY_INT16, TY_INT32, TY_INT64, TY_FLOAT, TY_FLOAT_0, TY_LONG, TY_STR_EMPTY, TY_STR_CHAR, TY_BUFFER, TY_UNICODE_0, TY_UTF8, TY_TUPLE0, TY_TUPLE1, TY_TUPLE2, TY_TUPLE, TY_LIST0, TY_LIST1, TY_LIST, TY_GLOBAL, TY_DICT, TY_INSTANCE, TY_NEWOBJ, TY_REDUCE, TY_MARK, TY_CALLBACK};
use crate::value::ValueView;

verus! {

/// Little-endian bytes of an `i16`.
pub open spec fn le_i16(v: i16) -> Seq<u8> {
    spec_u16_to_le_bytes(v as u16)
}

/// Little-endian bytes of an `i32`.
pub open spec fn le_i32(v: i32) -> Seq<u8> {
    spec_u32_to_le_bytes(v as u32)
}

/// Little-endian bytes of an `i64`.
pub open spec fn le_i64(v: i64) -> Seq<u8> {
    spec_u64_to_le_bytes(v as u64)
}

/// A length or count: one byte below 255, else 255 and four bytes.
pub open spec fn ser_integer(v: i32) -> Seq<u8> {
    if 0 <= v < 255 {
        seq![v as u8]
    } else {
        seq![255u8] + le_i32(v)
    }
}

/// A byte buffer: its length, then the bytes.
pub open spec fn ser_buff(b: Seq<u8>) -> Seq<u8> {
    ser_integer(b.len() as i32) + b
}

/// An `int` in the smallest `TY_INT*` form that holds it.
pub open spec fn ser_int(i: i64) -> Seq<u8> {
    if i == -1 {
        seq![TY_INT_N1]
    } else if i == 0 {
        seq![TY_INT_0]
    } else if i == 1 {
        seq![TY_INT_1]
    } else if -128 <= i <= 127 {
        seq![TY_INT8, (i as i8) as u8]
    } else if -32768 <= i <= 32767 {
        seq![TY_INT16] + le_i16(i as i16)
    } else if i32::MIN <= i <= i32::MAX {
        seq![TY_INT32] + le_i32(i as i32)
    } else {
        seq![TY_INT64] + le_i64(i)
    }
}

/// Whether float bits are those of `0.0` or `-0.0`.
pub open spec fn is_zero_float(bits: u64) -> bool {
    bits == 0 || bits == 0x8000_0000_0000_0000
}

pub open spec fn ser_float(bits: u64) -> Seq<u8> {
    if is_zero_float(bits) {
        seq![TY_FLOAT_0]
    } else {
        seq![TY_FLOAT] + spec_u64_to_le_bytes(bits)
    }
}

/// A `long`: zero as no bytes, else its shortest two's-complement bytes.
pub open spec fn ser_long(n: int) -> Seq<u8> {
    seq![TY_LONG] + ser_buff(if n == 0 { Seq::empty() } else { min_signed_le(n) })
}

/// A byte string: `TY_STR_EMPTY`, `TY_STR_CHAR`, else `TY_BUFFER`.
pub open spec fn ser_bytes(b: Seq<u8>) -> Seq<u8> {
    if b.len() == 0 {
        seq![TY_STR_EMPTY]
    } else if b.len() == 1 {
        seq![TY_STR_CHAR, b[0]]
    } else {
        seq![TY_BUFFER] + ser_buff(b)
    }
}

/// A unicode string: `TY_UNICODE_0`, else `TY_UTF8` with its UTF-8 bytes.
pub open spec fn ser_str(s: Seq<char>) -> Seq<u8> {
    if s.len() == 0 {
        seq![TY_UNICODE_0]
    } else {
        seq![TY_UTF8] + ser_integer(encode_utf8(s).len() as i32) + encode_utf8(s)
    }
}

/// The tag (and count) that open a tuple of `n` items.
pub open spec fn tuple_head(n: nat) -> Seq<u8> {
    if n == 0 {
        seq![TY_TUPLE0]
    } else if n == 1 {
        seq![TY_TUPLE1]
    } else if n == 2 {
        seq![TY_TUPLE2]
    } else {
        seq![TY_TUPLE] + ser_integer(n as i32)
    }
}

/// The tag (and count) that open a list of `n` items.
pub open spec fn list_head(n: nat) -> Seq<u8> {
    if n == 0 {
        seq![TY_LIST0]
    } else if n == 1 {
        seq![TY_LIST1]
    } else {
        seq![TY_LIST] + ser_integer(n as i32)
    }
}

/// The bytes the writer produces for a value.
pub open spec fn ser(v: ValueView) -> Seq<u8>
    decreases v,
{
    match v {
        ValueView::Null => seq![TY_NONE],
        ValueView::Bool(b) => seq![if b { TY_TRUE } else { TY_FALSE }],
        ValueView::Int(i) => ser_int(i),
        ValueView::Long(n) => ser_long(n),
        ValueView::Float(f) => ser_float(f),
        ValueView::Bytes(b) => ser_bytes(b),
        ValueView::Str(s) => ser_str(s),
        ValueView::Global(name) => seq![TY_GLOBAL] + ser_buff(encode_utf8(name)),
        ValueView::Tuple(items) => tuple_head(items.len()) + ser_seq(items),
        ValueView::List(items) => list_head(items.len()) + ser_seq(items),
        ValueView::Dict(pairs) => seq![TY_DICT] + ser_integer(pairs.len() as i32) + ser_pairs_vk(pairs),
        ValueView::Instance { class, state } => seq![TY_INSTANCE] + ser_bytes(encode_utf8(class)) + ser(*state),
        ValueView::Reduce { newobj, callable, args, state, list_items, dict_items } => {
            let data = if newobj {
                match state {
                    None => seq![TY_TUPLE1] + ser(*args),
                    Some(s) => seq![TY_TUPLE2] + ser(*args) + ser(*s),
                }
            } else {
                match state {
                    None => seq![TY_TUPLE2] + ser(*callable) + ser(*args),
                    Some(s) => seq![TY_TUPLE] + ser_integer(3) + ser(*callable) + ser(*args) + ser(*s),
                }
            };
            seq![if newobj { TY_NEWOBJ } else { TY_REDUCE }] + data + ser_seq(list_items) + seq![TY_MARK]
                + ser_pairs_kv(dict_items) + seq![TY_MARK]
        },
        ValueView::Callback(inner) => seq![TY_CALLBACK] + ser(*inner),
    }
}

/// The values one after another.
pub open spec fn ser_seq(s: Seq<ValueView>) -> Seq<u8>
    decreases s,
{
    if s.len() == 0 {
        Seq::empty()
    } else {
        ser_seq(s.drop_last()) + ser(s.last())
    }
}

/// Dict pairs as a dict writes them: value, then key.
pub open spec fn ser_pairs_vk(s: Seq<(ValueView, ValueView)>) -> Seq<u8>
    decreases s,
{
    if s.len() == 0 {
        Seq::empty()
    } else {
        ser_pairs_vk(s.drop_last()) + ser(s.last().1) + ser(s.last().0)
    }
}

/// Pairs as a reduce writes its dict items: key, then value.
pub open spec fn ser_pairs_kv(s: Seq<(ValueView, ValueView)>) -> Seq<u8>
    decreases s,
{
    if s.len() == 0 {
        Seq::empty()
    } else {
        ser_pairs_kv(s.drop_last()) + ser(s.last().0) + ser(s.last().1)
    }
}

pub open spec fn max(a: nat, b: nat) -> nat {
    if a >= b { a } else { b }
}

/// How many objects deep the writer nests to write a value (each one counts
/// against `RECURSION_LIMIT`).
pub open spec fn write_depth(v: ValueView) -> nat
    decreases v,
{
    match v {
        ValueView::Tuple(items) => 1 + seq_depth(items),
        ValueView::List(items) => 1 + seq_depth(items),
        ValueView::Dict(pairs) => 1 + pairs_depth(pairs),
        ValueView::Instance { class, state } => 1 + write_depth(*state),
        ValueView::Reduce { newobj, callable, args, state, list_items, dict_items } => {
            let c = if newobj { 0 } else { write_depth(*callable) };
            let s = match state {
                None => 0,
                Some(s) => write_depth(*s),
            };
            let data = 1 + max(max(c, write_depth(*args)), s);
            1 + max(max(data, seq_depth(list_items)), pairs_depth(dict_items))
        },
        ValueView::Callback(inner) => 1 + write_depth(*inner),
        _ => 1,
    }
}

pub open spec fn seq_depth(s: Seq<ValueView>) -> nat
    decreases s,
{
    if s.len() == 0 {
        0
    } else {
        max(seq_depth(s.drop_last()), write_depth(s.last()))
    }
}

pub open spec fn pairs_depth(s: Seq<(ValueView, ValueView)>) -> nat
    decreases s,
{
    if s.len() == 0 {
        0
    } else {
        max(pairs_depth(s.drop_last()), max(write_depth(s.last().0), write_depth(s.last().1)))
    }
}

/// The payload of a reduce: the tuple `(args[, state])` for `TY_NEWOBJ`,
/// `(callable, args[, state])` for `TY_REDUCE` (as `ser` writes it).
pub open spec fn reduce_payload(
    newobj: bool,
    callable: ValueView,
    args: ValueView,
    state: Option<Box<ValueView>>,
) -> Seq<u8> {
    if newobj {
        match state {
            None => seq![TY_TUPLE1] + ser(args),
            Some(s) => seq![TY_TUPLE2] + ser(args) + ser(*s),
        }
    } else {
        match state {
            None => seq![TY_TUPLE2] + ser(callable) + ser(args),
            Some(s) => seq![TY_TUPLE] + ser_integer(3) + ser(callable) + ser(args) + ser(*s),
        }
    }
}

/// How deep the writer nests for the payload of a reduce (as `write_depth`
/// counts it).
pub open spec fn reduce_payload_depth(
    newobj: bool,
    callable: ValueView,
    args: ValueView,
    state: Option<Box<ValueView>>,
) -> nat {
    let c = if newobj { 0 } else { write_depth(callable) };
    let s = match state {
        None => 0,
        Some(s) => write_depth(*s),
    };
    1 + max(max(c, write_depth(args)), s)
}

} // verus!
