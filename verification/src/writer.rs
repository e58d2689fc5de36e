//! Encoding a `Value` into a marshal stream.

use vstd::prelude::*;
use vstd::bytes::*;
use vstd::utf8::encode_utf8;
use crate::adler32::{adler32, spec_adler32};
use crate::error::{Error, ErrorView, Result};
use crate::format::{le_i32, ser_integer, ser_buff, ser_int, ser_long, ser_float, ser_bytes, ser_str, ser, ser_seq, ser_pairs_vk, ser_pairs_kv, tuple_head, list_head, write_depth, seq_depth, pairs_depth, max, reduce_payload, reduce_payload_depth};
use crate::tags::{RECURSION_LIMIT, TY_SIGNATURE, TY_SIGNATURE2, TY_CRC_CHECK, TY_NONE, TY_TRUE,
    TY_FALSE, TY_INT_N1, TY_INT_0, TY_INT_1, TY_INT8, TY_INT16, TY_INT32, TY_INT64, TY_FLOAT,
    TY_FLOAT_0, TY_LONG, TY_STR_EMPTY, TY_STR_CHAR, TY_BUFFER, TY_UNICODE_0, TY_UTF8, TY_TUPLE0,
    TY_TUPLE1, TY_TUPLE2, TY_TUPLE, TY_LIST0, TY_LIST1, TY_LIST, TY_GLOBAL, TY_DICT, TY_INSTANCE,
    TY_NEWOBJ, TY_REDUCE, TY_MARK, TY_CALLBACK};
use crate::value::{Value, ValueView, views_of, pair_views_of, lemma_views_index, lemma_views_len,
    lemma_pair_views_index, lemma_pair_views_len};

verus! {

/// Options controlling how a `Value` is written.
pub struct EncodeOptions {
    /// Stream format version: 0 writes `TY_SIGNATURE` and an empty
    /// shared-object map; any other value writes `TY_SIGNATURE2` and the
    /// version byte.
    pub version: u8,
    /// Whether to write a `TY_CRC_CHECK` (Adler-32 of the rest of the stream).
    pub checksum: bool,
}

impl Default for EncodeOptions {
    fn default() -> (r: EncodeOptions)
        ensures
            r.version == 1,
            r.checksum,
    {
        EncodeOptions { version: 1, checksum: true }
    }
}

/// The stream header for a format version.
pub open spec fn header(version: u8) -> Seq<u8> {
    if version == 0 {
        seq![TY_SIGNATURE] + le_i32(0)
    } else {
        seq![TY_SIGNATURE2, version]
    }
}

/// The whole stream for a value: header, the optional checksum of the body,
/// then the body.
pub open spec fn spec_encode(v: ValueView, version: u8, checksum: bool) -> Seq<u8> {
    let body = ser(v);
    if checksum {
        header(version) + seq![TY_CRC_CHECK] + spec_u32_to_le_bytes(spec_adler32(1, body)) + body
    } else {
        header(version) + body
    }
}

/// Encode a `Value` into a blue.Marshal stream.
///
/// Shared references are never written: every occurrence of a repeated value
/// is written in full, which any reader accepts.
pub fn encode(value: &Value, opts: &EncodeOptions) -> (r: Result<Vec<u8>>)
    ensures
        write_depth(value@) <= RECURSION_LIMIT ==> (r matches Ok(b) && b@ == spec_encode(
            value@,
            opts.version,
            opts.checksum,
        )),
        write_depth(value@) > RECURSION_LIMIT ==> (r matches Err(e) && e@ == ErrorView::RecursionLimit),
{
    let mut w = Writer { buf: Vec::new(), recursion: 0 };
    if opts.version == 0 {
        w.buf.push(TY_SIGNATURE);
        let z = u32_to_le_bytes(0u32);
        push_all(&mut w.buf, z.as_slice());
        proof {
            assert((0i32 as u32) == 0u32);
        }
    } else {
        w.buf.push(TY_SIGNATURE2);
        w.buf.push(opts.version);
    }
    let ghost head = w.buf@;
    assert(head =~= header(opts.version));
    let crc_pos: usize = w.buf.len();
    if opts.checksum {
        w.buf.push(TY_CRC_CHECK);
        w.buf.push(0);
        w.buf.push(0);
        w.buf.push(0);
        w.buf.push(0);
    }
    let start: usize = w.buf.len();
    let ghost before = w.buf@;
    match w.write_value(value) {
        Ok(()) => {},
        Err(e) => {
            return Err(e);
        },
    }
    assert(w.buf@.subrange(start as int, w.buf@.len() as int) =~= ser(value@));
    if opts.checksum {
        let a32 = adler32(1, slice_range(&w.buf, start, w.buf.len()));
        let crc = u32_to_le_bytes(a32);
        w.buf.set(crc_pos + 1, crc[0]);
        w.buf.set(crc_pos + 2, crc[1]);
        w.buf.set(crc_pos + 3, crc[2]);
        w.buf.set(crc_pos + 4, crc[3]);
        assert(w.buf@ =~= spec_encode(value@, opts.version, opts.checksum));
    } else {
        assert(w.buf@ =~= spec_encode(value@, opts.version, opts.checksum));
    }
    Ok(w.buf)
}

/// The bytes of `v` from `start` to `end`.
fn slice_range(v: &Vec<u8>, start: usize, end: usize) -> (r: &[u8])
    requires
        start <= end <= v@.len(),
    ensures
        r@ == v@.subrange(start as int, end as int),
{
    &v.as_slice()[start..end]
}

/// Append bytes.
fn push_all(buf: &mut Vec<u8>, b: &[u8])
    ensures
        final(buf)@ == old(buf)@ + b@,
{
    buf.extend_from_slice(b);
    assert(final(buf)@ =~= old(buf)@ + b@);
}

proof fn lemma_ser_seq_push(s: Seq<ValueView>, v: ValueView)
    ensures
        ser_seq(s.push(v)) == ser_seq(s) + ser(v),
        seq_depth(s.push(v)) == max(seq_depth(s), write_depth(v)),
{
    assert(s.push(v).drop_last() == s);
}

proof fn lemma_pairs_push(s: Seq<(ValueView, ValueView)>, p: (ValueView, ValueView))
    ensures
        ser_pairs_vk(s.push(p)) == ser_pairs_vk(s) + ser(p.1) + ser(p.0),
        ser_pairs_kv(s.push(p)) == ser_pairs_kv(s) + ser(p.0) + ser(p.1),
        pairs_depth(s.push(p)) == max(pairs_depth(s), max(write_depth(p.0), write_depth(p.1))),
{
    assert(s.push(p).drop_last() == s);
}

struct Writer {
    buf: Vec<u8>,
    recursion: u32,
}

impl Writer {
    fn write_raw_type(&mut self, t: u8)
        ensures
            final(self).buf@ == old(self).buf@.push(t),
            final(self).recursion == old(self).recursion,
    {
        self.buf.push(t);
    }

    /// A length or count: one byte below 255, else 255 and four bytes.
    fn write_integer(&mut self, v: i32)
        ensures
            final(self).buf@ == old(self).buf@ + ser_integer(v),
            final(self).recursion == old(self).recursion,
    {
        if 0 <= v && v < 255 {
            self.buf.push(v as u8);
            assert(final(self).buf@ =~= old(self).buf@ + ser_integer(v));
        } else {
            self.buf.push(255u8);
            let b = u32_to_le_bytes(v as u32);
            push_all(&mut self.buf, b.as_slice());
            assert(final(self).buf@ =~= old(self).buf@ + ser_integer(v));
        }
    }

    /// Length-prefixed bytes.
    fn write_buff(&mut self, data: &[u8])
        ensures
            final(self).buf@ == old(self).buf@ + ser_buff(data@),
            final(self).recursion == old(self).recursion,
    {
        self.write_integer(data.len() as i32);
        push_all(&mut self.buf, data);
        assert(final(self).buf@ =~= old(self).buf@ + ser_buff(data@));
    }

    fn write_int(&mut self, i: i64)
        ensures
            final(self).buf@ == old(self).buf@ + ser_int(i),
            final(self).recursion == old(self).recursion,
    {
        if i == -1 {
            self.write_raw_type(TY_INT_N1);
        } else if i == 0 {
            self.write_raw_type(TY_INT_0);
        } else if i == 1 {
            self.write_raw_type(TY_INT_1);
        } else if -128 <= i && i <= 127 {
            self.write_raw_type(TY_INT8);
            self.buf.push(i as i8 as u8);
        } else if -32768 <= i && i <= 32767 {
            self.write_raw_type(TY_INT16);
            let b = u16_to_le_bytes(i as i16 as u16);
            push_all(&mut self.buf, b.as_slice());
        } else if i32::MIN as i64 <= i && i <= i32::MAX as i64 {
            self.write_raw_type(TY_INT32);
            let b = u32_to_le_bytes(i as i32 as u32);
            push_all(&mut self.buf, b.as_slice());
        } else {
            self.write_raw_type(TY_INT64);
            let b = u64_to_le_bytes(i as u64);
            push_all(&mut self.buf, b.as_slice());
        }
        assert(final(self).buf@ =~= old(self).buf@ + ser_int(i));
    }

    fn write_long(&mut self, n: &crate::long::LongInt)
        ensures
            final(self).buf@ == old(self).buf@ + ser_long(n@),
            final(self).recursion == old(self).recursion,
    {
        self.write_raw_type(TY_LONG);
        if n.is_zero() {
            let empty: Vec<u8> = Vec::new();
            self.write_buff(empty.as_slice());
            assert(empty@ =~= Seq::<u8>::empty());
        } else {
            self.write_buff(n.to_signed_bytes_le());
        }
        assert(final(self).buf@ =~= old(self).buf@ + ser_long(n@));
    }

    fn write_float(&mut self, f: u64)
        ensures
            final(self).buf@ == old(self).buf@ + ser_float(f),
            final(self).recursion == old(self).recursion,
    {
        if f == 0 || f == 0x8000_0000_0000_0000 {
            self.write_raw_type(TY_FLOAT_0);
        } else {
            self.write_raw_type(TY_FLOAT);
            let b = u64_to_le_bytes(f);
            push_all(&mut self.buf, b.as_slice());
        }
        assert(final(self).buf@ =~= old(self).buf@ + ser_float(f));
    }

    fn write_bytes(&mut self, b: &[u8])
        ensures
            final(self).buf@ == old(self).buf@ + ser_bytes(b@),
            final(self).recursion == old(self).recursion,
    {
        if b.len() == 0 {
            self.write_raw_type(TY_STR_EMPTY);
        } else if b.len() == 1 {
            self.write_raw_type(TY_STR_CHAR);
            self.buf.push(b[0]);
        } else {
            // TY_BUFFER is valid for any length and never enters the
            // string table or the shared-object table.
            self.write_raw_type(TY_BUFFER);
            self.write_buff(b);
        }
        assert(final(self).buf@ =~= old(self).buf@ + ser_bytes(b@));
    }

    fn write_str(&mut self, s: &str)
        ensures
            final(self).buf@ == old(self).buf@ + ser_str(s@),
            final(self).recursion == old(self).recursion,
    {
        if s.is_empty() {
            self.write_raw_type(TY_UNICODE_0);
            assert(final(self).buf@ =~= old(self).buf@ + ser_str(s@));
            return;
        }
        // TY_UTF8 is valid for any non-empty unicode string.
        self.write_raw_type(TY_UTF8);
        let bytes = s.as_bytes();
        self.write_integer(bytes.len() as i32);
        push_all(&mut self.buf, bytes);
        assert(final(self).buf@ =~= old(self).buf@ + ser_str(s@));
    }

    fn write_value(&mut self, v: &Value) -> (r: Result<()>)
        requires
            old(self).recursion <= RECURSION_LIMIT,
        ensures
            r is Ok <==> old(self).recursion + write_depth(v@) <= RECURSION_LIMIT,
            r is Ok ==> final(self).buf@ == old(self).buf@ + ser(v@) && final(self).recursion
                == old(self).recursion,
            r matches Err(e) ==> e@ == ErrorView::RecursionLimit && final(self).recursion
                == old(self).recursion + 1,
        decreases v, 3nat,
    {
        self.recursion = self.recursion + 1;
        if self.recursion > RECURSION_LIMIT {
            return Err(Error::RecursionLimit);
        }
        let r = self.write_value_inner(v);
        self.recursion = self.recursion - 1;
        r
    }

    fn write_value_inner(&mut self, v: &Value) -> (r: Result<()>)
        requires
            1 <= old(self).recursion <= RECURSION_LIMIT,
        ensures
            r is Ok <==> old(self).recursion + write_depth(v@) <= RECURSION_LIMIT + 1,
            r is Ok ==> final(self).buf@ == old(self).buf@ + ser(v@) && final(self).recursion
                == old(self).recursion,
            r matches Err(e) ==> e@ == ErrorView::RecursionLimit && final(self).recursion
                == old(self).recursion + 1,
        decreases v, 2nat,
    {
        let ghost b0 = self.buf@;
        match v {
            Value::Null => self.write_raw_type(TY_NONE),
            Value::Bool(b) => {
                if *b {
                    self.write_raw_type(TY_TRUE)
                } else {
                    self.write_raw_type(TY_FALSE)
                }
            },
            Value::Int(i) => self.write_int(*i),
            Value::Long(n) => self.write_long(n),
            Value::Float(f) => self.write_float(*f),
            Value::Bytes(b) => self.write_bytes(b.as_slice()),
            Value::Str(s) => self.write_str(s.as_str()),
            Value::Global(name) => {
                self.write_raw_type(TY_GLOBAL);
                self.write_buff(name.as_str().as_bytes());
                assert(self.buf@ =~= b0 + ser(v@));
            },
            Value::Tuple(items) => {
                return self.write_tuple(v);
            },
            Value::List(items) => {
                return self.write_list(v);
            },
            Value::Dict(pairs) => {
                return self.write_dict(v);
            },
            Value::Instance { class, state } => {
                self.write_raw_type(TY_INSTANCE);
                // The class is written as a plain byte string, not as TY_GLOBAL.
                self.write_bytes(class.as_str().as_bytes());
                let ghost b1 = self.buf@;
                let r = self.write_value(state);
                if r.is_ok() {
                    assert(self.buf@ =~= b0 + ser(v@));
                }
                return r;
            },
            Value::Reduce { .. } => {
                return self.write_reduce(v);
            },
            Value::Callback(inner) => {
                self.write_raw_type(TY_CALLBACK);
                let r = self.write_value(inner);
                if r.is_ok() {
                    assert(self.buf@ =~= b0 + ser(v@));
                }
                return r;
            },
        }
        assert(self.buf@ =~= b0 + ser(v@));
        Ok(())
    }

    /// The items of a tuple or list, one after another.
    fn write_items(&mut self, items: &Vec<Value>) -> (r: Result<()>)
        requires
            1 <= old(self).recursion <= RECURSION_LIMIT,
        ensures
            r is Ok <==> old(self).recursion + seq_depth(views_of(items@)) <= RECURSION_LIMIT,
            r is Ok ==> final(self).buf@ == old(self).buf@ + ser_seq(views_of(items@))
                && final(self).recursion == old(self).recursion,
            r matches Err(e) ==> e@ == ErrorView::RecursionLimit && final(self).recursion
                == old(self).recursion + 1,
        decreases items, 0nat,
    {
        let ghost b0 = self.buf@;
        let mut i: usize = 0;
        while i < items.len()
            invariant
                i <= items.len(),
                1 <= self.recursion <= RECURSION_LIMIT,
                self.recursion == old(self).recursion,
                self.buf@ == b0 + ser_seq(views_of(items@.take(i as int))),
                old(self).recursion + seq_depth(views_of(items@.take(i as int))) <= RECURSION_LIMIT,
            decreases items.len() - i,
        {
            proof {
                assert(decreases_to!(*items => items[i as int]));
                assert(items@.take(i + 1).drop_last() == items@.take(i as int));
                lemma_views_index(items@, i as int);
                assert(items@.take(i + 1).last() == items@[i as int]);
                lemma_ser_seq_push(views_of(items@.take(i as int)), items@[i as int]@);
            }
            let r = self.write_value(&items[i]);
            if r.is_err() {
                proof {
                    lemma_seq_depth_prefix(items@, (i + 1) as int);
                }
                return r;
            }
            i = i + 1;
        }
        proof {
            assert(items@.take(items.len() as int) == items@);
        }
        Ok(())
    }

    fn write_tuple(&mut self, v: &Value) -> (r: Result<()>)
        requires
            1 <= old(self).recursion <= RECURSION_LIMIT,
            v is Tuple,
        ensures
            r is Ok <==> old(self).recursion + write_depth(v@) <= RECURSION_LIMIT + 1,
            r is Ok ==> final(self).buf@ == old(self).buf@ + ser(v@) && final(self).recursion
                == old(self).recursion,
            r matches Err(e) ==> e@ == ErrorView::RecursionLimit && final(self).recursion
                == old(self).recursion + 1,
        decreases v, 0nat,
    {
        let items = match v {
            Value::Tuple(items) => items,
            _ => { proof { assert(false); } return Ok(()); },
        };
        let ghost b0 = self.buf@;
        proof {
            lemma_views_len(items@);
        }
        let n = items.len();
        if n == 0 {
            self.write_raw_type(TY_TUPLE0);
        } else if n == 1 {
            self.write_raw_type(TY_TUPLE1);
        } else if n == 2 {
            self.write_raw_type(TY_TUPLE2);
        } else {
            self.write_raw_type(TY_TUPLE);
            self.write_integer(n as i32);
        }
        assert(self.buf@ =~= b0 + tuple_head(items@.len()));
        let r = self.write_items(items);
        if r.is_ok() {
            assert(self.buf@ =~= b0 + ser(v@));
        }
        r
    }

    fn write_list(&mut self, v: &Value) -> (r: Result<()>)
        requires
            1 <= old(self).recursion <= RECURSION_LIMIT,
            v is List,
        ensures
            r is Ok <==> old(self).recursion + write_depth(v@) <= RECURSION_LIMIT + 1,
            r is Ok ==> final(self).buf@ == old(self).buf@ + ser(v@) && final(self).recursion
                == old(self).recursion,
            r matches Err(e) ==> e@ == ErrorView::RecursionLimit && final(self).recursion
                == old(self).recursion + 1,
        decreases v, 0nat,
    {
        let items = match v {
            Value::List(items) => items,
            _ => { proof { assert(false); } return Ok(()); },
        };
        let ghost b0 = self.buf@;
        proof {
            lemma_views_len(items@);
        }
        let n = items.len();
        if n == 0 {
            self.write_raw_type(TY_LIST0);
        } else if n == 1 {
            self.write_raw_type(TY_LIST1);
        } else {
            self.write_raw_type(TY_LIST);
            self.write_integer(n as i32);
        }
        assert(self.buf@ =~= b0 + list_head(items@.len()));
        let r = self.write_items(items);
        if r.is_ok() {
            assert(self.buf@ =~= b0 + ser(v@));
        }
        r
    }

    /// Dict pairs, value before key (as a dict is written) or key before
    /// value (as a reduce writes its dict items).
    fn write_pairs(&mut self, pairs: &Vec<(Value, Value)>, value_first: bool) -> (r: Result<()>)
        requires
            1 <= old(self).recursion <= RECURSION_LIMIT,
        ensures
            r is Ok <==> old(self).recursion + pairs_depth(pair_views_of(pairs@)) <= RECURSION_LIMIT,
            r is Ok ==> final(self).recursion == old(self).recursion,
            r is Ok && value_first ==> final(self).buf@ == old(self).buf@ + ser_pairs_vk(pair_views_of(pairs@)),
            r is Ok && !value_first ==> final(self).buf@ == old(self).buf@ + ser_pairs_kv(pair_views_of(pairs@)),
            r matches Err(e) ==> e@ == ErrorView::RecursionLimit && final(self).recursion
                == old(self).recursion + 1,
        decreases pairs, 0nat,
    {
        let ghost b0 = self.buf@;
        let mut i: usize = 0;
        while i < pairs.len()
            invariant
                i <= pairs.len(),
                1 <= self.recursion <= RECURSION_LIMIT,
                self.recursion == old(self).recursion,
                value_first ==> self.buf@ == b0 + ser_pairs_vk(pair_views_of(pairs@.take(i as int))),
                !value_first ==> self.buf@ == b0 + ser_pairs_kv(pair_views_of(pairs@.take(i as int))),
                old(self).recursion + pairs_depth(pair_views_of(pairs@.take(i as int))) <= RECURSION_LIMIT,
            decreases pairs.len() - i,
        {
            proof {
                assert(decreases_to!(*pairs => pairs[i as int]));
                assert(decreases_to!(pairs[i as int] => pairs[i as int].0));
                assert(decreases_to!(pairs[i as int] => pairs[i as int].1));
                assert(pairs@.take(i + 1).drop_last() == pairs@.take(i as int));
                lemma_pair_views_index(pairs@, i as int);
                assert(pairs@.take(i + 1).last() == pairs@[i as int]);
                lemma_pairs_push(pair_views_of(pairs@.take(i as int)), (pairs@[i as int].0@, pairs@[i as int].1@));
                lemma_pairs_depth_prefix(pairs@, (i + 1) as int);
            }
            let (first, second) = if value_first {
                (&pairs[i].1, &pairs[i].0)
            } else {
                (&pairs[i].0, &pairs[i].1)
            };
            let r = self.write_value(first);
            if r.is_err() {
                return r;
            }
            let r = self.write_value(second);
            if r.is_err() {
                return r;
            }
            i = i + 1;
        }
        proof {
            assert(pairs@.take(pairs.len() as int) == pairs@);
        }
        Ok(())
    }

    fn write_dict(&mut self, v: &Value) -> (r: Result<()>)
        requires
            1 <= old(self).recursion <= RECURSION_LIMIT,
            v is Dict,
        ensures
            r is Ok <==> old(self).recursion + write_depth(v@) <= RECURSION_LIMIT + 1,
            r is Ok ==> final(self).buf@ == old(self).buf@ + ser(v@) && final(self).recursion
                == old(self).recursion,
            r matches Err(e) ==> e@ == ErrorView::RecursionLimit && final(self).recursion
                == old(self).recursion + 1,
        decreases v, 0nat,
    {
        let pairs = match v {
            Value::Dict(pairs) => pairs,
            _ => { proof { assert(false); } return Ok(()); },
        };
        let ghost b0 = self.buf@;
        proof {
            lemma_pair_views_len(pairs@);
        }
        self.write_raw_type(TY_DICT);
        self.write_integer(pairs.len() as i32);
        let r = self.write_pairs(pairs, true);
        if r.is_ok() {
            assert(self.buf@ =~= b0 + ser(v@));
        }
        r
    }

    /// A reduce: its payload, then the list items and the dict items, each
    /// run ended by `TY_MARK`.
    fn write_reduce(&mut self, v: &Value) -> (r: Result<()>)
        requires
            1 <= old(self).recursion <= RECURSION_LIMIT,
            v is Reduce,
        ensures
            r is Ok <==> old(self).recursion + write_depth(v@) <= RECURSION_LIMIT + 1,
            r is Ok ==> final(self).buf@ == old(self).buf@ + ser(v@) && final(self).recursion
                == old(self).recursion,
            r matches Err(e) ==> e@ == ErrorView::RecursionLimit && final(self).recursion
                == old(self).recursion + 1,
        decreases v, 1nat,
    {
        let (newobj, list_items, dict_items) = match v {
            Value::Reduce { newobj, list_items, dict_items, .. } => (*newobj, list_items, dict_items),
            _ => { proof { assert(false); } return Ok(()); },
        };
        let ghost b0 = self.buf@;
        if newobj {
            self.write_raw_type(TY_NEWOBJ);
        } else {
            self.write_raw_type(TY_REDUCE);
        }
        let r = self.write_reduce_payload(v);
        if r.is_err() {
            return r;
        }
        let r = self.write_items(list_items);
        if r.is_err() {
            return r;
        }
        self.write_raw_type(TY_MARK);
        let r = self.write_pairs(dict_items, false);
        if r.is_err() {
            return r;
        }
        self.write_raw_type(TY_MARK);
        assert(self.buf@ =~= b0 + ser(v@));
        Ok(())
    }

    /// The payload of a reduce, written as a tuple one object deeper:
    /// `(args[, state])` for `TY_NEWOBJ`, `(callable, args[, state])` for
    /// `TY_REDUCE`.
    fn write_reduce_payload(&mut self, v: &Value) -> (r: Result<()>)
        requires
            1 <= old(self).recursion <= RECURSION_LIMIT,
            v is Reduce,
        ensures
            r is Ok <==> old(self).recursion + reduce_payload_depth(
                v@->Reduce_newobj,
                *v@->Reduce_callable,
                *v@->Reduce_args,
                v@->Reduce_state,
            ) <= RECURSION_LIMIT,
            r is Ok ==> final(self).buf@ == old(self).buf@ + reduce_payload(
                v@->Reduce_newobj,
                *v@->Reduce_callable,
                *v@->Reduce_args,
                v@->Reduce_state,
            ) && final(self).recursion == old(self).recursion,
            r matches Err(e) ==> e@ == ErrorView::RecursionLimit && final(self).recursion
                == old(self).recursion + 1,
        decreases v, 0nat,
    {
        let (newobj, callable, args, state) = match v {
            Value::Reduce { newobj, callable, args, state, .. } => (*newobj, callable, args, state),
            _ => { proof { assert(false); } return Ok(()); },
        };
        let ghost b0 = self.buf@;
        self.recursion = self.recursion + 1;
        if self.recursion > RECURSION_LIMIT {
            return Err(Error::RecursionLimit);
        }
        let has_state = state.is_some();
        if newobj {
            if has_state {
                self.write_raw_type(TY_TUPLE2);
            } else {
                self.write_raw_type(TY_TUPLE1);
            }
        } else {
            if has_state {
                self.write_raw_type(TY_TUPLE);
                self.write_integer(3);
            } else {
                self.write_raw_type(TY_TUPLE2);
            }
            let r = self.write_value(callable);
            if r.is_err() {
                self.recursion = self.recursion - 1;
                return r;
            }
        }
        let r = self.write_value(args);
        if r.is_err() {
            self.recursion = self.recursion - 1;
            return r;
        }
        match state {
            Some(s) => {
                let r = self.write_value(s);
                if r.is_err() {
                    self.recursion = self.recursion - 1;
                    return r;
                }
            },
            None => {},
        }
        self.recursion = self.recursion - 1;
        assert(self.buf@ =~= b0 + reduce_payload(newobj, callable@, args@, v@->Reduce_state));
        Ok(())
    }
}

proof fn lemma_seq_depth_prefix(s: Seq<Value>, k: int)
    requires
        0 <= k <= s.len(),
    ensures
        seq_depth(views_of(s.take(k))) <= seq_depth(views_of(s)),
    decreases s.len(),
{
    if k < s.len() {
        assert(s.drop_last().take(k) == s.take(k));
        lemma_seq_depth_prefix(s.drop_last(), k);
        assert(views_of(s).drop_last() == views_of(s.drop_last()));
    } else {
        assert(s.take(k) == s);
    }
}

proof fn lemma_pairs_depth_prefix(s: Seq<(Value, Value)>, k: int)
    requires
        0 <= k <= s.len(),
    ensures
        pairs_depth(pair_views_of(s.take(k))) <= pairs_depth(pair_views_of(s)),
    decreases s.len(),
{
    if k < s.len() {
        assert(s.drop_last().take(k) == s.take(k));
        lemma_pairs_depth_prefix(s.drop_last(), k);
        assert(pair_views_of(s).drop_last() == pair_views_of(s.drop_last()));
    } else {
        assert(s.take(k) == s);
    }
}

} // verus!
