//! The wire format as the reader reads it: a parser written as spec
//! functions, over the whole buffer and the reader's state.

use vstd::prelude::*;
use vstd::bytes::{spec_u16_from_le_bytes, spec_u32_from_le_bytes, spec_u64_from_le_bytes};
use vstd::utf8::{valid_utf8, decode_utf8, encode_utf8};
use crate::adler32::spec_adler32;
use crate::error::ErrorView;
use crate::long::signed_le_value;
use crate::tags::{RECURSION_LIMIT, TY_SIGNATURE, TY_SIGNATURE2, TY_NONE, TY_TRUE, TY_FALSE,
    TY_INT_N1, TY_INT_0, TY_INT_1, TY_INT8, TY_INT16, TY_INT32, TY_INT64, TY_FLOAT, TY_FLOAT_0,
    TY_LONG, TY_STR_EMPTY, TY_STR_CHAR, TY_STR_SHORT, TY_STR_TABLE, TY_STR, TY_BUFFER,
    TY_UNICODE_0, TY_UNICODE_1, TY_UNICODE, TY_UTF8, TY_GLOBAL, TY_TUPLE0, TY_TUPLE1, TY_TUPLE2,
    TY_TUPLE, TY_LIST0, TY_LIST1, TY_LIST, TY_DICT, TY_INSTANCE, TY_REDUCE, TY_NEWOBJ,
    TY_CALLBACK, TY_REFERENCE, TY_CRC_CHECK, TY_DBROW, TY_WSTREAM, TY_PICKLE, TY_PICKLER,
    TY_COMPLEX, TY_MARK, spec_tag_name};
use crate::text::{decimal, utf16_decode, utf8_lossy};
use crate::value::ValueView;

verus! {

/// What stays fixed while the objects of a stream are read: the buffer, the
/// end of the object data (before a version-0 shared-object map), the format
/// version and the version-0 map.
pub struct Ctx {
    pub buf: Seq<u8>,
    pub ssize: int,
    pub version: u8,
    pub mapping: Seq<i32>,
}

/// What changes while the objects of a stream are read.
pub struct St {
    pub pos: int,
    pub shared: Seq<ValueView>,
    pub seen: int,
    pub got_crc: bool,
    pub crc_pos: int,
    pub crc_val: i32,
}

/// What a parsing step gives: the value read and the state after it, or an error.
pub type Parsed<T> = Result<(T, St), ErrorView>;

pub open spec fn remaining(c: Ctx, s: St) -> int {
    if c.ssize > s.pos {
        c.ssize - s.pos
    } else {
        0
    }
}

pub open spec fn at(s: St, pos: int) -> St {
    St { pos, ..s }
}

pub open spec fn p_bytes(c: Ctx, s: St, n: int) -> Result<(Seq<u8>, St), ErrorView> {
    if n > remaining(c, s) {
        Err(ErrorView::Eof)
    } else {
        Ok((c.buf.subrange(s.pos, s.pos + n), at(s, s.pos + n)))
    }
}

pub open spec fn p_u8(c: Ctx, s: St) -> Result<(u8, St), ErrorView> {
    match p_bytes(c, s, 1) {
        Ok((b, s1)) => Ok((b[0], s1)),
        Err(e) => Err(e),
    }
}

pub open spec fn p_i32(c: Ctx, s: St) -> Result<(i32, St), ErrorView> {
    match p_bytes(c, s, 4) {
        Ok((b, s1)) => Ok((spec_u32_from_le_bytes(b) as i32, s1)),
        Err(e) => Err(e),
    }
}

/// A length or count: one byte, or 255 and four bytes.
pub open spec fn p_integer(c: Ctx, s: St) -> Result<(i32, St), ErrorView> {
    match p_u8(c, s) {
        Ok((b, s1)) => if b == 255 {
            p_i32(c, s1)
        } else {
            Ok((b as i32, s1))
        },
        Err(e) => Err(e),
    }
}

/// `ReadStream::GetBuff`: a length, then that many bytes.
pub open spec fn p_buff(c: Ctx, s: St) -> Result<(Seq<u8>, St), ErrorView> {
    match p_integer(c, s) {
        Ok((len, s1)) => if len < 0 {
            Err(ErrorView::Invalid("negative buffer length"@))
        } else {
            p_bytes(c, s1, len as int)
        },
        Err(e) => Err(e),
    }
}

/// A fresh slot of the shared-object table: the next entry of the map for
/// version 0, a new slot at the end otherwise.
pub open spec fn p_alloc(c: Ctx, s: St) -> Result<(int, St), ErrorView> {
    if c.version == 0 {
        if s.seen >= c.mapping.len() {
            Err(ErrorView::Invalid("shared object table overflow"@))
        } else {
            Ok((c.mapping[s.seen] - 1, St { seen: s.seen + 1, ..s }))
        }
    } else {
        Ok((s.shared.len() as int, St { shared: s.shared.push(ValueView::Null), ..s }))
    }
}

/// A slot when the object is shared; -1 when it is not.
pub open spec fn p_alloc_if(c: Ctx, s: St, shared: bool) -> Result<(int, St), ErrorView> {
    if shared {
        p_alloc(c, s)
    } else {
        Ok((-1, s))
    }
}

pub open spec fn store(s: St, ix: int, v: ValueView) -> St {
    if ix >= 0 {
        St { shared: s.shared.update(ix, v), ..s }
    } else {
        s
    }
}

/// A value that is complete when it is read: enter it in the table when it
/// is shared.
pub open spec fn p_mark_and_store(c: Ctx, s: St, v: ValueView, shared: bool) -> Result<(ValueView, St), ErrorView> {
    match p_alloc_if(c, s, shared) {
        Ok((ix, s1)) => Ok((v, store(s1, ix, v))),
        Err(e) => Err(e),
    }
}

/// `TY_REFERENCE`: the value in a slot of the table (the ids count from 1
/// for version 0, from 0 otherwise).
pub open spec fn p_reference(c: Ctx, s: St, id: i32) -> Result<(ValueView, St), ErrorView> {
    let ix = if c.version == 0 { id - 1 } else { id as int };
    if ix < 0 || ix >= s.shared.len() {
        Err(ErrorView::BadReference(id as i64))
    } else {
        Ok((s.shared[ix], s))
    }
}

/// The stored checksum against the Adler-32 of the bytes from `crc_pos` to
/// `end` (at most the end of the buffer).
pub open spec fn p_verify(c: Ctx, s: St, end: int) -> Result<(), ErrorView> {
    let end = if end < c.buf.len() { end } else { c.buf.len() as int };
    if end < s.crc_pos {
        Err(ErrorView::Invalid("crc range invalid"@))
    } else if spec_adler32(1, c.buf.subrange(s.crc_pos, end)) as i32 != s.crc_val {
        Err(ErrorView::ChecksumMismatch)
    } else {
        Ok(())
    }
}

/// Whether decoding a tag reads nested objects.
pub open spec fn is_compound(ty: u8) -> bool {
    ty == TY_TUPLE1 || ty == TY_TUPLE2 || ty == TY_TUPLE || ty == TY_LIST1 || ty == TY_LIST
        || ty == TY_DICT || ty == TY_INSTANCE || ty == TY_REDUCE || ty == TY_NEWOBJ
        || ty == TY_CALLBACK || ty == TY_CRC_CHECK
}

/// UTF-16 code units from little-endian byte pairs.
pub open spec fn utf16_units(b: Seq<u8>) -> Seq<u16> {
    Seq::new(b.len() / 2, |i: int| spec_u16_from_le_bytes(b.subrange(2 * i, 2 * i + 2)))
}

pub open spec fn unknown_tag_text(ty: u8) -> Seq<char> {
    "unknown type tag "@ + decimal(ty as int) + " ("@ + spec_tag_name(ty) + ")"@
}

pub open spec fn bad_index_text(idx: u8) -> Seq<char> {
    "invalid string table index "@ + decimal(idx as int)
}

/// A tag whose object holds no nested object (or refers to one already read).
pub open spec fn p_scalar(c: Ctx, s: St, ty: u8, shared: bool) -> Result<(ValueView, St), ErrorView> {
    if ty == TY_NONE {
        Ok((ValueView::Null, s))
    } else if ty == TY_TRUE {
        Ok((ValueView::Bool(true), s))
    } else if ty == TY_FALSE {
        Ok((ValueView::Bool(false), s))
    } else if ty == TY_INT_N1 {
        Ok((ValueView::Int(-1i64), s))
    } else if ty == TY_INT_0 {
        Ok((ValueView::Int(0), s))
    } else if ty == TY_INT_1 {
        Ok((ValueView::Int(1), s))
    } else if ty == TY_INT8 {
        match p_u8(c, s) {
            Ok((b, s1)) => Ok((ValueView::Int((b as i8) as i64), s1)),
            Err(e) => Err(e),
        }
    } else if ty == TY_INT16 {
        match p_bytes(c, s, 2) {
            Ok((b, s1)) => Ok((ValueView::Int((spec_u16_from_le_bytes(b) as i16) as i64), s1)),
            Err(e) => Err(e),
        }
    } else if ty == TY_INT32 {
        match p_bytes(c, s, 4) {
            Ok((b, s1)) => Ok((ValueView::Int((spec_u32_from_le_bytes(b) as i32) as i64), s1)),
            Err(e) => Err(e),
        }
    } else if ty == TY_INT64 {
        match p_bytes(c, s, 8) {
            Ok((b, s1)) => Ok((ValueView::Int(spec_u64_from_le_bytes(b) as i64), s1)),
            Err(e) => Err(e),
        }
    } else if ty == TY_FLOAT_0 {
        Ok((ValueView::Float(0), s))
    } else if ty == TY_FLOAT {
        match p_bytes(c, s, 8) {
            Ok((b, s1)) => Ok((ValueView::Float(spec_u64_from_le_bytes(b)), s1)),
            Err(e) => Err(e),
        }
    } else if ty == TY_LONG {
        match p_buff(c, s) {
            Ok((b, s1)) => p_mark_and_store(c, s1, ValueView::Long(signed_le_value(b)), shared),
            Err(e) => Err(e),
        }
    } else if ty == TY_STR_EMPTY {
        Ok((ValueView::Bytes(Seq::empty()), s))
    } else if ty == TY_STR_CHAR {
        match p_u8(c, s) {
            Ok((b, s1)) => Ok((ValueView::Bytes(seq![b]), s1)),
            Err(e) => Err(e),
        }
    } else if ty == TY_STR_SHORT {
        match p_u8(c, s) {
            Ok((n, s1)) => match p_bytes(c, s1, n as int) {
                Ok((b, s2)) => Ok((ValueView::Bytes(b), s2)),
                Err(e) => Err(e),
            },
            Err(e) => Err(e),
        }
    } else if ty == TY_STR_TABLE {
        match p_u8(c, s) {
            Ok((idx, s1)) => match crate::strtable::spec_lookup(idx) {
                Some(t) => Ok((ValueView::Bytes(encode_utf8(t)), s1)),
                None => Err(ErrorView::Invalid(bad_index_text(idx))),
            },
            Err(e) => Err(e),
        }
    } else if ty == TY_STR || ty == TY_BUFFER {
        match p_buff(c, s) {
            Ok((b, s1)) => p_mark_and_store(c, s1, ValueView::Bytes(b), shared),
            Err(e) => Err(e),
        }
    } else if ty == TY_UNICODE_0 {
        Ok((ValueView::Str(Seq::empty()), s))
    } else if ty == TY_UNICODE_1 {
        match p_bytes(c, s, 2) {
            Ok((b, s1)) => match utf16_decode(seq![spec_u16_from_le_bytes(b)]) {
                Some(t) => Ok((ValueView::Str(t), s1)),
                None => Err(ErrorView::Invalid("bad utf-16 code unit"@)),
            },
            Err(e) => Err(e),
        }
    } else if ty == TY_UNICODE {
        match p_integer(c, s) {
            Ok((len, s1)) => if len < 0 {
                Err(ErrorView::Invalid("negative unicode length"@))
            } else if len * 2 > usize::MAX {
                Err(ErrorView::Invalid("unicode length overflow"@))
            } else {
                match p_bytes(c, s1, len * 2) {
                    Ok((b, s2)) => match utf16_decode(utf16_units(b)) {
                        Some(t) => Ok((ValueView::Str(t), s2)),
                        None => Err(ErrorView::Invalid("bad utf-16 data"@)),
                    },
                    Err(e) => Err(e),
                }
            },
            Err(e) => Err(e),
        }
    } else if ty == TY_UTF8 {
        match p_integer(c, s) {
            Ok((len, s1)) => if len < 0 {
                Err(ErrorView::Invalid("negative utf8 length"@))
            } else {
                match p_bytes(c, s1, len as int) {
                    Ok((b, s2)) => if valid_utf8(b) {
                        Ok((ValueView::Str(decode_utf8(b)), s2))
                    } else {
                        Err(ErrorView::Invalid("bad utf-8 data"@))
                    },
                    Err(e) => Err(e),
                }
            },
            Err(e) => Err(e),
        }
    } else if ty == TY_GLOBAL {
        match p_buff(c, s) {
            Ok((b, s1)) => if valid_utf8(b) {
                p_mark_and_store(c, s1, ValueView::Global(decode_utf8(b)), shared)
            } else {
                Err(ErrorView::Invalid("bad utf-8 in global name"@))
            },
            Err(e) => Err(e),
        }
    } else if ty == TY_TUPLE0 {
        Ok((ValueView::Tuple(Seq::empty()), s))
    } else if ty == TY_LIST0 {
        Ok((ValueView::List(Seq::empty()), s))
    } else if ty == TY_REFERENCE {
        match p_integer(c, s) {
            Ok((id, s1)) => p_reference(c, s1, id),
            Err(e) => Err(e),
        }
    } else if ty == TY_DBROW {
        Err(ErrorView::Unsupported("TY_DBROW"@))
    } else if ty == TY_WSTREAM {
        Err(ErrorView::Unsupported("TY_WSTREAM"@))
    } else if ty == TY_PICKLE {
        Err(ErrorView::Unsupported("TY_PICKLE"@))
    } else if ty == TY_PICKLER {
        Err(ErrorView::Unsupported("TY_PICKLER"@))
    } else if ty == TY_COMPLEX {
        Err(ErrorView::Unsupported("TY_COMPLEX"@))
    } else {
        Err(ErrorView::Invalid(unknown_tag_text(ty)))
    }
}

/// The class name that `Value::as_str_like` gives for an instance's guid.
pub open spec fn str_like(v: ValueView) -> Option<Seq<char>> {
    match v {
        ValueView::Bytes(b) => Some(utf8_lossy(b)),
        ValueView::Str(t) => Some(t),
        _ => None,
    }
}

/// One object, with `k` levels of nesting left before `RECURSION_LIMIT`.
pub open spec fn p_object(c: Ctx, s: St, k: nat) -> Result<(ValueView, St), ErrorView>
    decreases k, 0nat, 0nat,
{
    if k == 0 {
        Err(ErrorView::RecursionLimit)
    } else {
        p_inner(c, s, (k - 1) as nat)
    }
}

/// An object: its raw type byte (bit `0x40` marks it shared), then the rest.
pub open spec fn p_inner(c: Ctx, s: St, k: nat) -> Result<(ValueView, St), ErrorView>
    decreases k, 3nat, 0nat,
{
    match p_u8(c, s) {
        Ok((raw, s1)) => {
            let shared = raw % 128 >= 64;
            let ty = (raw % 64) as u8;
            if is_compound(ty) {
                p_compound(c, s1, k, ty, shared)
            } else {
                p_scalar(c, s1, ty, shared)
            }
        },
        Err(e) => Err(e),
    }
}

/// `n` objects one after another.
pub open spec fn p_items(c: Ctx, s: St, k: nat, n: nat) -> Result<(Seq<ValueView>, St), ErrorView>
    decreases k, 1nat, n,
{
    if n == 0 {
        Ok((Seq::empty(), s))
    } else {
        match p_items(c, s, k, (n - 1) as nat) {
            Ok((items, s1)) => match p_object(c, s1, k) {
                Ok((v, s2)) => Ok((items.push(v), s2)),
                Err(e) => Err(e),
            },
            Err(e) => Err(e),
        }
    }
}

/// `n` dict entries, each a value and then its key.
pub open spec fn p_pairs(c: Ctx, s: St, k: nat, n: nat) -> Result<(Seq<(ValueView, ValueView)>, St), ErrorView>
    decreases k, 1nat, n,
{
    if n == 0 {
        Ok((Seq::empty(), s))
    } else {
        match p_pairs(c, s, k, (n - 1) as nat) {
            Ok((pairs, s1)) => match p_object(c, s1, k) {
                Ok((val, s2)) => match p_object(c, s2, k) {
                    Ok((key, s3)) => Ok((pairs.push((key, val)), s3)),
                    Err(e) => Err(e),
                },
                Err(e) => Err(e),
            },
            Err(e) => Err(e),
        }
    }
}

/// List items of a `__reduce__` object: objects until a `TY_MARK` byte.
pub open spec fn p_list_iter(c: Ctx, s: St, k: nat) -> Result<(Seq<ValueView>, St), ErrorView>
    decreases k, 1nat, remaining(c, s),
{
    match p_u8(c, s) {
        Ok((t, s1)) => if t % 64 == TY_MARK {
            Ok((Seq::empty(), s1))
        } else {
            match p_object(c, s, k) {
                Ok((v, s2)) => if s2.pos > s.pos && remaining(c, s2) < remaining(c, s) {
                    match p_list_iter(c, s2, k) {
                        Ok((rest, s3)) => Ok((seq![v] + rest, s3)),
                        Err(e) => Err(e),
                    }
                } else {
                    Err(ErrorView::Eof)
                },
                Err(e) => Err(e),
            }
        },
        Err(e) => Err(e),
    }
}

/// Dict items of a `__reduce__` object: key and value pairs until a `TY_MARK` byte.
pub open spec fn p_dict_iter(c: Ctx, s: St, k: nat) -> Result<(Seq<(ValueView, ValueView)>, St), ErrorView>
    decreases k, 1nat, remaining(c, s),
{
    match p_u8(c, s) {
        Ok((t, s1)) => if t % 64 == TY_MARK {
            Ok((Seq::empty(), s1))
        } else {
            match p_object(c, s, k) {
                Ok((key, s2)) => match p_object(c, s2, k) {
                    Ok((val, s3)) => if s3.pos > s.pos && remaining(c, s3) < remaining(c, s) {
                        match p_dict_iter(c, s3, k) {
                            Ok((rest, s4)) => Ok((seq![(key, val)] + rest, s4)),
                            Err(e) => Err(e),
                        }
                    } else {
                        Err(ErrorView::Eof)
                    },
                    Err(e) => Err(e),
                },
                Err(e) => Err(e),
            }
        },
        Err(e) => Err(e),
    }
}

/// The checked count of a tuple, list or dict: the error for a negative one.
pub open spec fn negative_len_text(ty: u8) -> Seq<char> {
    if ty == TY_TUPLE {
        "negative tuple length"@
    } else if ty == TY_LIST {
        "negative list length"@
    } else {
        "negative dict length"@
    }
}

/// A tuple or list value from its items.
pub open spec fn seq_value(ty: u8, items: Seq<ValueView>) -> ValueView {
    if ty == TY_TUPLE1 || ty == TY_TUPLE2 || ty == TY_TUPLE {
        ValueView::Tuple(items)
    } else {
        ValueView::List(items)
    }
}

/// The reduce value from its payload tuple and its two item runs.
pub open spec fn reduce_value(
    newobj: bool,
    items: Seq<ValueView>,
    list_items: Seq<ValueView>,
    dict_items: Seq<(ValueView, ValueView)>,
) -> ValueView {
    if newobj {
        ValueView::Reduce {
            newobj,
            callable: Box::new(ValueView::Null),
            args: Box::new(items[0]),
            state: if items.len() > 1 { Some(Box::new(items[1])) } else { None },
            list_items,
            dict_items,
        }
    } else {
        ValueView::Reduce {
            newobj,
            callable: Box::new(items[0]),
            args: Box::new(items[1]),
            state: if items.len() > 2 { Some(Box::new(items[2])) } else { None },
            list_items,
            dict_items,
        }
    }
}

/// A tag whose object holds nested objects.
pub open spec fn p_compound(c: Ctx, s: St, k: nat, ty: u8, shared: bool) -> Parsed<ValueView>
    decreases k, 2nat, 1nat,
{
    if ty == TY_TUPLE1 || ty == TY_TUPLE2 || ty == TY_LIST1 || ty == TY_TUPLE || ty == TY_LIST {
        p_sequence(c, s, k, ty, shared)
    } else if ty == TY_DICT {
        p_dict(c, s, k, shared)
    } else if ty == TY_INSTANCE {
        p_instance(c, s, k, shared)
    } else if ty == TY_REDUCE || ty == TY_NEWOBJ {
        p_reduce(c, s, k, ty == TY_NEWOBJ, shared)
    } else if ty == TY_CALLBACK {
        match p_object(c, s, k) {
            Ok((data, s1)) => Ok((ValueView::Callback(Box::new(data)), s1)),
            Err(e) => Err(e),
        }
    } else {
        p_crc(c, s, k)
    }
}

/// A tuple or a list: one or two items (`TY_TUPLE1`, `TY_TUPLE2`,
/// `TY_LIST1`), or a count and that many items.
pub open spec fn p_sequence(c: Ctx, s: St, k: nat, ty: u8, shared: bool) -> Parsed<ValueView>
    decreases k, 2nat, 0nat,
{
    if ty == TY_TUPLE1 || ty == TY_TUPLE2 || ty == TY_LIST1 {
        let n: nat = if ty == TY_TUPLE2 { 2 } else { 1 };
        match p_alloc_if(c, s, shared) {
            Ok((ix, s1)) => match p_items(c, s1, k, n) {
                Ok((items, s2)) => Ok((seq_value(ty, items), store(s2, ix, seq_value(ty, items)))),
                Err(e) => Err(e),
            },
            Err(e) => Err(e),
        }
    } else {
        match p_integer(c, s) {
            Ok((len, s1)) => if len < 0 {
                Err(ErrorView::Invalid(negative_len_text(ty)))
            } else if len > remaining(c, s1) {
                Err(ErrorView::Eof)
            } else {
                match p_alloc_if(c, s1, shared) {
                    Ok((ix, s2)) => match p_items(c, s2, k, len as nat) {
                        Ok((items, s3)) => Ok((seq_value(ty, items), store(s3, ix, seq_value(ty, items)))),
                        Err(e) => Err(e),
                    },
                    Err(e) => Err(e),
                }
            },
            Err(e) => Err(e),
        }
    }
}

/// A dict: a count, then that many entries (at least two bytes each).
pub open spec fn p_dict(c: Ctx, s: St, k: nat, shared: bool) -> Parsed<ValueView>
    decreases k, 2nat, 0nat,
{
    match p_integer(c, s) {
        Ok((len, s1)) => if len < 0 {
            Err(ErrorView::Invalid(negative_len_text(TY_DICT)))
        } else if (if 2 * len > usize::MAX { usize::MAX as int } else { 2 * len }) > remaining(c, s1) {
            Err(ErrorView::Eof)
        } else {
            match p_alloc_if(c, s1, shared) {
                Ok((ix, s2)) => match p_pairs(c, s2, k, len as nat) {
                    Ok((pairs, s3)) => Ok((ValueView::Dict(pairs), store(s3, ix, ValueView::Dict(pairs)))),
                    Err(e) => Err(e),
                },
                Err(e) => Err(e),
            }
        },
        Err(e) => Err(e),
    }
}

/// An old-style instance: its class name (a string object), then its state.
pub open spec fn p_instance(c: Ctx, s: St, k: nat, shared: bool) -> Parsed<ValueView>
    decreases k, 2nat, 0nat,
{
    match p_alloc_if(c, s, shared) {
        Ok((ix, s1)) => match p_object(c, s1, k) {
            Ok((guid, s2)) => match str_like(guid) {
                Some(class) => match p_object(c, s2, k) {
                    Ok((data, s3)) => {
                        let v = ValueView::Instance { class, state: Box::new(data) };
                        Ok((v, store(s3, ix, v)))
                    },
                    Err(e) => Err(e),
                },
                None => Err(ErrorView::Invalid("TY_INSTANCE guid isn't a string"@)),
            },
            Err(e) => Err(e),
        },
        Err(e) => Err(e),
    }
}

/// A reduce: its payload tuple, then the list items and the dict items.
pub open spec fn p_reduce(c: Ctx, s: St, k: nat, newobj: bool, shared: bool) -> Parsed<ValueView>
    decreases k, 2nat, 0nat,
{
    match p_alloc_if(c, s, shared) {
        Ok((ix, s1)) => match p_object(c, s1, k) {
            Ok((rv, s2)) => match rv {
                ValueView::Tuple(items) => if newobj && items.len() == 0 {
                    Err(ErrorView::Invalid("empty newobj tuple"@))
                } else if !newobj && items.len() < 2 {
                    Err(ErrorView::Invalid("reduce tuple too short"@))
                } else {
                    match p_list_iter(c, s2, k) {
                        Ok((list_items, s3)) => match p_dict_iter(c, s3, k) {
                            Ok((dict_items, s4)) => {
                                let v = reduce_value(newobj, items, list_items, dict_items);
                                Ok((v, store(s4, ix, v)))
                            },
                            Err(e) => Err(e),
                        },
                        Err(e) => Err(e),
                    }
                },
                _ => Err(ErrorView::Invalid("reduce payload isn't a tuple"@)),
            },
            Err(e) => Err(e),
        },
        Err(e) => Err(e),
    }
}

/// `TY_CRC_CHECK`: the checksum, then the object it covers.
pub open spec fn p_crc(c: Ctx, s: St, k: nat) -> Parsed<ValueView>
    decreases k, 2nat, 0nat,
{
    match p_i32(c, s) {
        Ok((crc, s1)) => {
            let s2 = St { got_crc: true, crc_val: crc, crc_pos: s1.pos, ..s1 };
            if c.version == 0 {
                match p_verify(c, s2, c.buf.len() as int) {
                    Ok(()) => p_object(c, s2, k),
                    Err(e) => Err(e),
                }
            } else {
                p_object(c, s2, k)
            }
        },
        Err(e) => Err(e),
    }
}

/// The shared-object map at the end of a version-0 buffer: `count` entries
/// from `start`.
pub open spec fn map_entries(buf: Seq<u8>, start: int, count: int) -> Seq<i32> {
    Seq::new(count as nat, |i: int| spec_u32_from_le_bytes(buf.subrange(start + 4 * i, start + 4 * i + 4)) as i32)
}

/// The buffer before its header is read: nothing known but the buffer.
pub open spec fn start_ctx(buf: Seq<u8>) -> Ctx {
    Ctx { buf, ssize: buf.len() as int, version: 0, mapping: Seq::empty() }
}

pub open spec fn start_st() -> St {
    St { pos: 0, shared: Seq::empty(), seen: 0, got_crc: false, crc_pos: 0, crc_val: 0 }
}

/// The signature and the version it gives.
pub open spec fn p_signature(c: Ctx, s: St) -> Parsed<u8> {
    match p_u8(c, s) {
        Ok((tag, s1)) => if tag == TY_SIGNATURE {
            Ok((0u8, s1))
        } else if tag == TY_SIGNATURE2 {
            p_u8(c, s1)
        } else {
            Err(ErrorView::Invalid("missing marshal signature"@))
        },
        Err(e) => Err(e),
    }
}

/// The version-0 shared-object map of `mapcount` entries at the end of the
/// buffer, whose object data then ends where the map starts.
pub open spec fn p_shared_map(c: Ctx, s: St, mapcount: i32) -> Result<(Ctx, St), ErrorView> {
    if mapcount < 0 {
        Err(ErrorView::Invalid("negative mapcount"@))
    } else if mapcount == 0 {
        Ok((c, s))
    } else if mapcount * 4 > usize::MAX {
        Err(ErrorView::Invalid("mapcount overflow"@))
    } else if mapcount * 4 > c.buf.len() || remaining(c, s) < mapcount * 4 {
        Err(ErrorView::Invalid("truncated shared-object map"@))
    } else {
        let start = c.buf.len() - mapcount * 4;
        let m = map_entries(c.buf, start, mapcount as int);
        if exists|i: int| 0 <= i < m.len() && (m[i] < 1 || m[i] > mapcount) {
            Err(ErrorView::Invalid("bogus shared-object map entry"@))
        } else {
            Ok((
                Ctx { ssize: start, mapping: m, ..c },
                St { shared: Seq::new(mapcount as nat, |i: int| ValueView::Null), ..s },
            ))
        }
    }
}

/// The header: the signature, the version and (for version 0) the
/// shared-object map.
pub open spec fn p_header(buf: Seq<u8>) -> Result<(Ctx, St), ErrorView> {
    let c0 = start_ctx(buf);
    match p_signature(c0, start_st()) {
        Ok((version, s2)) => if version == 0 {
            match p_i32(c0, s2) {
                Ok((mapcount, s3)) => p_shared_map(c0, s3, mapcount),
                Err(e) => Err(e),
            }
        } else {
            Ok((Ctx { version, ..c0 }, s2))
        },
        Err(e) => Err(e),
    }
}

/// A decoded stream: the value, whether it carried a checksum, and how many
/// bytes were read.
pub struct DecodedView {
    pub value: ValueView,
    pub had_crc: bool,
    pub consumed: int,
}

/// What decoding a buffer gives.
pub open spec fn spec_decode(buf: Seq<u8>) -> Result<DecodedView, ErrorView> {
    match p_header(buf) {
        Ok((c, s)) => match p_object(c, s, RECURSION_LIMIT as nat) {
            Ok((v, s1)) => {
                let d = DecodedView { value: v, had_crc: s1.got_crc, consumed: s1.pos };
                if s1.got_crc && c.version > 0 {
                    match p_verify(c, s1, s1.pos) {
                        Ok(()) => Ok(d),
                        Err(e) => Err(e),
                    }
                } else {
                    Ok(d)
                }
            },
            Err(e) => Err(e),
        },
        Err(e) => Err(e),
    }
}

} // verus!
