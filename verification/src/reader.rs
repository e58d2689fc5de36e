//! Decoding a marshal stream into a `Value`.

use vstd::prelude::*;
use vstd::bytes::{u16_from_le_bytes, u32_from_le_bytes, u64_from_le_bytes, spec_u16_from_le_bytes,
    spec_u32_from_le_bytes, spec_u64_from_le_bytes};
use vstd::utf8::{valid_utf8, decode_utf8, encode_utf8};
use crate::adler32::adler32;
use crate::error::{Error, ErrorView, Result};
use crate::long::LongInt;
use crate::parse::{Parsed, Ctx, St, DecodedView, remaining, at, p_bytes, p_u8, p_i32, p_integer, p_buff,
    p_alloc, p_alloc_if, store, p_mark_and_store, p_reference, p_verify, is_compound,
    utf16_units, unknown_tag_text, bad_index_text, p_scalar, str_like, p_object, p_inner, p_items,
    p_pairs, p_list_iter, p_dict_iter, negative_len_text, seq_value, reduce_value, p_compound,
    map_entries, p_header, spec_decode, start_ctx, start_st, p_signature, p_shared_map};
use crate::tags::{RECURSION_LIMIT, TY_SIGNATURE, TY_SIGNATURE2, TY_NONE, TY_TRUE, TY_FALSE,
    TY_INT_N1, TY_INT_0, TY_INT_1, TY_INT8, TY_INT16, TY_INT32, TY_INT64, TY_FLOAT, TY_FLOAT_0,
    TY_LONG, TY_STR_EMPTY, TY_STR_CHAR, TY_STR_SHORT, TY_STR_TABLE, TY_STR, TY_BUFFER,
    TY_UNICODE_0, TY_UNICODE_1, TY_UNICODE, TY_UTF8, TY_GLOBAL, TY_TUPLE0, TY_TUPLE1, TY_TUPLE2,
    TY_TUPLE, TY_LIST0, TY_LIST1, TY_LIST, TY_DICT, TY_INSTANCE, TY_REDUCE, TY_NEWOBJ,
    TY_CALLBACK, TY_REFERENCE, TY_CRC_CHECK, TY_DBROW, TY_WSTREAM, TY_PICKLE, TY_PICKLER,
    TY_COMPLEX, TY_MARK, TY_SHAREDFLAG, TY_TYPEMASK, tag_name};
use crate::text::{string_of, string_from_utf8, string_from_utf16, utf16_decode};
use crate::value::{Value, ValueView, views_of, pair_views_of, lemma_views_index, lemma_views_len};

verus! {

/// The result of decoding a top-level marshal buffer.
pub struct Decoded {
    pub value: Value,
    /// Whether the stream carried a `TY_CRC_CHECK`.
    pub had_crc: bool,
    /// Number of bytes consumed from the input.
    pub consumed: usize,
}

impl View for Decoded {
    type V = DecodedView;

    open spec fn view(&self) -> DecodedView {
        DecodedView { value: self.value@, had_crc: self.had_crc, consumed: self.consumed as int }
    }
}

/// Decode a single marshal buffer (starting with `TY_SIGNATURE` or
/// `TY_SIGNATURE2`).
pub fn decode(buf: &[u8]) -> (r: Result<Decoded>)
    ensures
        match spec_decode(buf@) {
            Ok(d) => r matches Ok(x) && x@ == d,
            Err(e) => r matches Err(x) && x@ == e,
        },
{
    let mut r = Reader::new(buf);
    proof {
        assert(r.ctx() == start_ctx(buf@));
    }
    r.read_header()?;
    let ghost c = r.ctx();
    let ghost s = r.st();
    let value = r.read_object()?;  
    if r.got_crc && r.version > 0 {
        let end = r.pos;
        r.verify_crc(end)?;
    }
    Ok(Decoded { value, had_crc: r.got_crc, consumed: r.pos })
}

pub open spec fn value_agrees(r: Result<Value>, fin: St, sp: Parsed<ValueView>) -> bool {
    match sp {
        Ok((v, s)) => r matches Ok(x) && x@ == v && fin == s,
        Err(e) => r matches Err(x) && x@ == e,
    }
}

pub open spec fn items_agree(r: Result<Vec<Value>>, fin: St, sp: Parsed<Seq<ValueView>>) -> bool {
    match sp {
        Ok((v, s)) => r matches Ok(x) && views_of(x@) == v && fin == s,
        Err(e) => r matches Err(x) && x@ == e,
    }
}

pub open spec fn pairs_agree(r: Result<Vec<(Value, Value)>>, fin: St, sp: Parsed<Seq<(ValueView, ValueView)>>) -> bool {
    match sp {
        Ok((v, s)) => r matches Ok(x) && pair_views_of(x@) == v && fin == s,
        Err(e) => r matches Err(x) && x@ == e,
    }
}

pub open spec fn plain_agrees<T>(r: Result<T>, fin: St, sp: Parsed<T>) -> bool {
    match sp {
        Ok((v, s)) => r matches Ok(x) && x == v && fin == s,
        Err(e) => r matches Err(x) && x@ == e,
    }
}

proof fn lemma_views_push(s: Seq<Value>, v: Value)
    ensures
        views_of(s.push(v)) == views_of(s).push(v@),
{
    assert(s.push(v).drop_last() == s);
}

proof fn lemma_pair_views_push(s: Seq<(Value, Value)>, p: (Value, Value))
    ensures
        pair_views_of(s.push(p)) == pair_views_of(s).push((p.0@, p.1@)),
{
    assert(s.push(p).drop_last() == s);
}

proof fn lemma_views_update(s: Seq<Value>, i: int, v: Value)
    requires
        0 <= i < s.len(),
    ensures
        views_of(s.update(i, v)) == views_of(s).update(i, v@),
{
    lemma_views_len(s);
    lemma_views_len(s.update(i, v));
    assert forall|j: int| 0 <= j < s.len() implies views_of(s.update(i, v))[j] == views_of(s).update(i, v@)[j] by {
        lemma_views_index(s.update(i, v), j);
        lemma_views_index(s, j);
    }
    assert(views_of(s.update(i, v)) =~= views_of(s).update(i, v@));
}

proof fn lemma_views_nulls(s: Seq<Value>, n: nat)
    requires
        s.len() == n,
        forall|i: int| 0 <= i < n ==> s[i] == Value::Null,
    ensures
        views_of(s) == Seq::new(n, |i: int| ValueView::Null),
{
    lemma_views_len(s);
    assert forall|j: int| 0 <= j < n implies views_of(s)[j] == ValueView::Null by {
        lemma_views_index(s, j);
    }
    assert(views_of(s) =~= Seq::new(n, |i: int| ValueView::Null));
}

/// Once reading `m` items fails, reading more fails the same way.
proof fn lemma_items_err(c: Ctx, s: St, k: nat, m: nat, n: nat)
    requires
        m <= n,
        p_items(c, s, k, m) is Err,
    ensures
        p_items(c, s, k, n) == p_items(c, s, k, m),
    decreases n,
{
    if n > m {
        lemma_items_err(c, s, k, m, (n - 1) as nat);
    }
}

proof fn lemma_pairs_err(c: Ctx, s: St, k: nat, m: nat, n: nat)
    requires
        m <= n,
        p_pairs(c, s, k, m) is Err,
    ensures
        p_pairs(c, s, k, n) == p_pairs(c, s, k, m),
    decreases n,
{
    if n > m {
        lemma_pairs_err(c, s, k, m, (n - 1) as nat);
    }
}

pub open spec fn prepend<T>(front: Seq<T>, r: Parsed<Seq<T>>) -> Parsed<Seq<T>> {
    match r {
        Ok((rest, s)) => Ok((front + rest, s)),
        Err(e) => Err(e),
    }
}

proof fn lemma_mask(raw: u8)
    ensures
        ((raw & TY_SHAREDFLAG) != 0) == (raw % 128 >= 64),
        raw & TY_TYPEMASK == raw % 64,
{
    assert(((raw & 0x40u8) != 0) == (raw % 128 >= 64)) by (bit_vector);
    assert(raw & 0x3fu8 == raw % 64) by (bit_vector);
}

struct Reader<'a> {
    buf: &'a [u8],
    pos: usize,
    /// Usable content length: for version 0 this excludes the shared-object
    /// index map at the very end of the buffer.
    ssize: usize,
    version: u8,
    /// The shared-object table, with values filled in as they are read.
    shared: Vec<Value>,
    /// Version 0 only: the index map at the end of the buffer.
    mapping: Vec<i32>,
    num_shared_seen: usize,
    recursion: u32,
    got_crc: bool,
    crc_pos: usize,
    crc_val: i32,
}

impl<'a> Reader<'a> {
    spec fn ctx(&self) -> Ctx {
        Ctx { buf: self.buf@, ssize: self.ssize as int, version: self.version, mapping: self.mapping@ }
    }

    spec fn st(&self) -> St {
        St {
            pos: self.pos as int,
            shared: views_of(self.shared@),
            seen: self.num_shared_seen as int,
            got_crc: self.got_crc,
            crc_pos: self.crc_pos as int,
            crc_val: self.crc_val,
        }
    }

    spec fn wf(&self) -> bool {
        &&& self.pos <= self.ssize <= self.buf@.len()
        &&& self.recursion <= RECURSION_LIMIT
        &&& self.version == 0 ==> {
            &&& self.shared@.len() == self.mapping@.len()
            &&& forall|i: int| 0 <= i < self.mapping@.len() ==> 1 <= #[trigger] self.mapping@[i] <= self.mapping@.len()
        }
    }

    /// The levels of nesting left.
    spec fn budget(&self) -> nat {
        (RECURSION_LIMIT - self.recursion) as nat
    }

    spec fn kept(&self, old: &Self) -> bool {
        &&& self.wf()
        &&& self.ctx() == old.ctx()
        &&& self.recursion == old.recursion
        &&& self.pos >= old.pos
        &&& self.shared@.len() >= old.shared@.len()
    }

    spec fn bounded(&self, old: &Self) -> bool {
        old.recursion <= self.recursion <= old.recursion + 1
    }

    fn new(buf: &'a [u8]) -> (r: Reader<'a>)
        ensures
            r.wf(),
            r.ctx() == (Ctx { buf: buf@, ssize: buf@.len() as int, version: 0, mapping: Seq::empty() }),
            r.st() == (St { pos: 0, shared: Seq::empty(), seen: 0, got_crc: false, crc_pos: 0, crc_val: 0 }),
            r.recursion == 0,
    {
        let r = Reader {
            buf,
            pos: 0,
            ssize: buf.len(),
            version: 0,
            shared: Vec::new(),
            mapping: Vec::new(),
            num_shared_seen: 0,
            recursion: 0,
            got_crc: false,
            crc_pos: 0,
            crc_val: 0,
        };
        assert(views_of(r.shared@) =~= Seq::<ValueView>::empty());
        r
    }

    fn remaining(&self) -> (r: usize)
        ensures
            r == remaining(self.ctx(), self.st()),
    {
        self.ssize.saturating_sub(self.pos)
    }

    fn check_space(&self, n: usize) -> (r: Result<()>)
        ensures
            r is Ok <==> n <= remaining(self.ctx(), self.st()),
            r matches Err(e) ==> e@ == ErrorView::Eof,
    {
        if n > self.remaining() {
            return Err(Error::Eof);
        }
        Ok(())
    }

    fn read_bytes(&mut self, n: usize) -> (r: Result<&'a [u8]>)
        requires
            old(self).wf(),
        ensures
            final(self).bounded(old(self)),
            r is Ok ==> final(self).kept(old(self)),
            match p_bytes(old(self).ctx(), old(self).st(), n as int) {
                Ok((b, s)) => r matches Ok(x) && x@ == b && final(self).st() == s,
                Err(e) => r matches Err(x) && x@ == e,
            },
    {
        self.check_space(n)?;
        let s = &self.buf[self.pos..self.pos + n];
        self.pos = self.pos + n;
        Ok(s)
    }

    fn read_u8(&mut self) -> (r: Result<u8>)
        requires
            old(self).wf(),
        ensures
            final(self).bounded(old(self)),
            r is Ok ==> final(self).kept(old(self)),
            plain_agrees(r, final(self).st(), p_u8(old(self).ctx(), old(self).st())),
    {
        let b = self.read_bytes(1)?;
        Ok(b[0])
    }

    fn read_i32(&mut self) -> (r: Result<i32>)
        requires
            old(self).wf(),
        ensures
            final(self).bounded(old(self)),
            r is Ok ==> final(self).kept(old(self)),
            plain_agrees(r, final(self).st(), p_i32(old(self).ctx(), old(self).st())),
    {
        let b = self.read_bytes(4)?;
        Ok(u32_from_le_bytes(b) as i32)
    }

    /// A length or count: one byte, or 255 and four bytes.
    fn read_integer(&mut self) -> (r: Result<i32>)
        requires
            old(self).wf(),
        ensures
            final(self).bounded(old(self)),
            r is Ok ==> final(self).kept(old(self)),
            plain_agrees(r, final(self).st(), p_integer(old(self).ctx(), old(self).st())),
    {
        let c = self.read_u8()?;
        if c == u8::MAX {
            self.read_i32()
        } else {
            Ok(c as i32)
        }
    }

    /// `ReadStream::GetBuff`: a length-prefixed byte string.
    fn read_buff(&mut self) -> (r: Result<&'a [u8]>)
        requires
            old(self).wf(),
        ensures
            final(self).bounded(old(self)),
            r is Ok ==> final(self).kept(old(self)),
            match p_buff(old(self).ctx(), old(self).st()) {
                Ok((b, s)) => r matches Ok(x) && x@ == b && final(self).st() == s,
                Err(e) => r matches Err(x) && x@ == e,
            },
    {
        let len = self.read_integer()?;
        if len < 0 {
            return Err(Error::Invalid(string_of("negative buffer length")));
        }
        self.read_bytes(len as usize)
    }

    /// The raw type byte, including the shared flag, left unread.
    fn peek_raw_type(&mut self) -> (r: Result<u8>)
        requires
            old(self).wf(),
        ensures
            final(self).bounded(old(self)),
            r is Ok ==> final(self).kept(old(self)) && final(self).st() == old(self).st(),
            match p_u8(old(self).ctx(), old(self).st()) {
                Ok((t, _)) => r == Ok::<u8, Error>(t),
                Err(e) => r matches Err(x) && x@ == e,
            },
    {
        let t = self.read_u8()?;
        self.pos = self.pos - 1;
        assert(self.st() =~= old(self).st());
        Ok(t)
    }

    fn read_header(&mut self) -> (r: Result<()>)
        requires
            old(self).wf(),
            old(self).ctx() == start_ctx(old(self).buf@),
            old(self).st() == start_st(),
            old(self).recursion == 0,
        ensures
            match p_header(old(self).buf@) {
                Ok((c, s)) => r is Ok && final(self).wf() && final(self).ctx() == c && final(self).st() == s
                    && final(self).recursion == 0,
                Err(e) => r matches Err(x) && x@ == e,
            },
    {
        let ghost c0 = self.ctx();
        let tag = self.read_u8()?;
        if tag == TY_SIGNATURE {
            self.version = 0;
        } else if tag == TY_SIGNATURE2 {
            self.version = self.read_u8()?;
        } else {
            return Err(Error::Invalid(string_of("missing marshal signature")));
        }
        assert(p_signature(c0, start_st()) == Parsed::Ok((self.version, self.st())));
        if self.version == 0 {
            assert(self.ctx() == c0);
            let mapcount = self.read_i32()?;
            self.read_shared_map(mapcount)
        } else {
            Ok(())
        }
    }

    /// The version-0 shared-object map of `mapcount` entries at the end of
    /// the buffer.
    fn read_shared_map(&mut self, mapcount: i32) -> (r: Result<()>)
        requires
            old(self).wf(),
            old(self).version == 0,
            old(self).mapping@.len() == 0,
            old(self).shared@.len() == 0,
            old(self).ssize == old(self).buf@.len(),
            old(self).recursion == 0,
        ensures
            match p_shared_map(old(self).ctx(), old(self).st(), mapcount) {
                Ok((c, s)) => r is Ok && final(self).wf() && final(self).ctx() == c && final(self).st() == s
                    && final(self).recursion == 0,
                Err(e) => r matches Err(x) && x@ == e,
            },
    {
        if mapcount < 0 {
            return Err(Error::Invalid(string_of("negative mapcount")));
        }
        let ghost mc = mapcount;
        if mapcount > 0 {
            let count = mapcount as usize;
            let maplen = match count.checked_mul(4) {
                Some(m) => m,
                None => {
                    return Err(Error::Invalid(string_of("mapcount overflow")));
                },
            };
            if maplen > self.buf.len() || self.remaining() < maplen {
                return Err(Error::Invalid(string_of("truncated shared-object map")));
            }
            let map_start = self.buf.len() - maplen;
            assert(map_start + maplen == self.buf.len());
            let ghost m = map_entries(self.buf@, map_start as int, count as int);
            let ghost expected = p_shared_map(old(self).ctx(), old(self).st(), mc);
            assert(expected == if exists|j: int| 0 <= j < m.len() && (m[j] < 1 || m[j] > count) {
                Err(ErrorView::Invalid("bogus shared-object map entry"@))
            } else {
                Ok((
                    Ctx { ssize: map_start as int, mapping: m, ..old(self).ctx() },
                    St { shared: Seq::new(count as nat, |i: int| ValueView::Null), ..old(self).st() },
                ))
            });
            let mut mapping: Vec<i32> = Vec::new();
            let mut i: usize = 0;
            while i < count
                invariant
                    i <= count,
                    maplen == 4 * count,
                    map_start + maplen == self.buf.len(),
                    self.buf.len() == self.buf@.len(),
                    m == map_entries(self.buf@, map_start as int, count as int),
                    mapping@ == m.take(i as int),
                    forall|j: int| 0 <= j < i ==> 1 <= #[trigger] m[j] <= count,
                    mc as int == count as int, mc == mapcount,
                    expected == p_shared_map(old(self).ctx(), old(self).st(), mc),
                    expected == if exists|j: int| 0 <= j < m.len() && (m[j] < 1 || m[j] > count) {
                        Err(ErrorView::Invalid("bogus shared-object map entry"@))
                    } else {
                        Ok((
                            Ctx { ssize: map_start as int, mapping: m, ..old(self).ctx() },
                            St { shared: Seq::new(count as nat, |i: int| ValueView::Null), ..old(self).st() },
                        ))
                    },
                    self.ctx() == old(self).ctx(),
                    self.st() == old(self).st(),
                    self.buf@ == old(self).buf@,
                decreases count - i,
            {
                let o = map_start + i * 4;
                let v = u32_from_le_bytes(&self.buf[o..o + 4]) as i32;
                assert(v == m[i as int]);
                if v < 1 || v as usize > count {
                    assert(m[i as int] < 1 || m[i as int] > count);
                    assert(m.len() == count);
                    assert(exists|j: int| 0 <= j < m.len() && (m[j] < 1 || m[j] > count));
                    assert(expected == Parsed::<Ctx>::Err(ErrorView::Invalid("bogus shared-object map entry"@)));
                    return Err(Error::Invalid(string_of("bogus shared-object map entry")));
                }
                mapping.push(v);
                assert(m.take(i + 1) == m.take(i as int).push(v));
                i = i + 1;
            }
            assert(mapping@ == m);
            let mut shared: Vec<Value> = Vec::new();
            let mut j: usize = 0;
            while j < count
                invariant
                    j <= count,
                    shared@.len() == j,
                    forall|t: int| 0 <= t < j ==> shared@[t] == Value::Null,
                decreases count - j,
            {
                shared.push(Value::Null);
                j = j + 1;
            }
            proof {
                lemma_views_nulls(shared@, count as nat);
            }
            self.mapping = mapping;
            self.ssize = map_start;
            self.shared = shared;
        }
        Ok(())
    }

    /// A slot for an object whose content is known before it is stored.
    fn alloc_shared_slot(&mut self) -> (r: Result<usize>)
        requires
            old(self).wf(),
        ensures
            final(self).bounded(old(self)),
            r is Ok ==> final(self).kept(old(self)),
            r is Err ==> *final(self) == *old(self),
            match p_alloc(old(self).ctx(), old(self).st()) {
                Ok((ix, s)) => r matches Ok(x) && x == ix && final(self).st() == s && x < final(self).shared@.len(),
                Err(e) => r matches Err(x) && x@ == e,
            },
    {
        proof {
            lemma_views_len(self.shared@);
        }
        if self.version == 0 {
            if self.num_shared_seen >= self.mapping.len() {
                return Err(Error::Invalid(string_of("shared object table overflow")));
            }
            let m = self.mapping[self.num_shared_seen];
            assert(1 <= m <= self.mapping@.len());
            let ix = (m - 1) as usize;
            self.num_shared_seen = self.num_shared_seen + 1;
            Ok(ix)
        } else {
            let ix = self.shared.len();
            let ghost old_shared = self.shared@;
            self.shared.push(Value::Null);
            proof {
                lemma_views_push(old_shared, Value::Null);
            }
            Ok(ix)
        }
    }

    fn alloc_if(&mut self, shared: bool) -> (r: Result<Option<usize>>)
        requires
            old(self).wf(),
        ensures
            final(self).bounded(old(self)),
            r is Ok ==> final(self).kept(old(self)),
            r is Err ==> *final(self) == *old(self),
            match p_alloc_if(old(self).ctx(), old(self).st(), shared) {
                Ok((ix, s)) => r matches Ok(x) && final(self).st() == s && (match x {
                    Some(i) => ix == i && i < final(self).shared@.len(),
                    None => ix == -1,
                }),
                Err(e) => r matches Err(x) && x@ == e,
            },
    {
        if shared {
            let ix = self.alloc_shared_slot()?;
            Ok(Some(ix))
        } else {
            Ok(None)
        }
    }

    fn update_shared(&mut self, ix: Option<usize>, v: &Value)
        requires
            old(self).wf(),
            ix matches Some(i) ==> i < old(self).shared@.len(),
        ensures
            final(self).kept(old(self)),
            final(self).st() == store(old(self).st(), match ix { Some(i) => i as int, None => -1 }, v@),
    {
        if let Some(i) = ix {
            let c = v.clone();
            let ghost old_shared = self.shared@;
            self.shared.set(i, c);
            proof {
                lemma_views_update(old_shared, i as int, c);
            }
        }
    }

    /// Enter a complete value in the table when it is shared.
    fn mark_and_store(&mut self, v: Value, shared: bool) -> (r: Result<Value>)
        requires
            old(self).wf(),
        ensures
            final(self).bounded(old(self)),
            r is Ok ==> final(self).kept(old(self)),
            value_agrees(r, final(self).st(), p_mark_and_store(old(self).ctx(), old(self).st(), v@, shared)),
    {
        let ix = self.alloc_if(shared)?;
        self.update_shared(ix, &v);
        Ok(v)
    }

    fn resolve_reference(&self, id: i32) -> (r: Result<Value>)
        requires
            self.wf(),
        ensures
            match p_reference(self.ctx(), self.st(), id) {
                Ok((v, _)) => r matches Ok(x) && x@ == v,
                Err(e) => r matches Err(x) && x@ == e,
            },
    {
        proof {
            lemma_views_len(self.shared@);
        }
        let ix: i64 = if self.version == 0 { id as i64 - 1 } else { id as i64 };
        if ix < 0 || ix as usize >= self.shared.len() {
            return Err(Error::BadReference(id as i64));
        }
        proof {
            lemma_views_index(self.shared@, ix as int);
        }
        Ok(self.shared[ix as usize].clone())
    }

    fn verify_crc(&self, end: usize) -> (r: Result<()>)
        requires
            self.wf(),
        ensures
            match p_verify(self.ctx(), self.st(), end as int) {
                Ok(()) => r is Ok,
                Err(e) => r matches Err(x) && x@ == e,
            },
    {
        let end = if end < self.buf.len() { end } else { self.buf.len() };
        if end < self.crc_pos {
            return Err(Error::Invalid(string_of("crc range invalid")));
        }
        let computed = adler32(1, &self.buf[self.crc_pos..end]) as i32;
        if computed != self.crc_val {
            return Err(Error::ChecksumMismatch);
        }
        Ok(())
    }

    /// Reads one object. Bit `TY_SHAREDFLAG` of its type byte marks it as
    /// shared (referenceable).
    fn read_object(&mut self) -> (r: Result<Value>)
        requires
            old(self).wf(),
        ensures
            final(self).bounded(old(self)),
            r is Ok ==> final(self).kept(old(self)) && final(self).pos > old(self).pos,
            value_agrees(r, final(self).st(), p_object(old(self).ctx(), old(self).st(), old(self).budget())),
        decreases old(self).budget(), 0nat, 0nat,
    {
        self.recursion = self.recursion + 1;
        if self.recursion > RECURSION_LIMIT {
            return Err(Error::RecursionLimit);
        }
        let r = self.read_object_inner();
        self.recursion = self.recursion - 1;
        r
    }

    fn read_object_inner(&mut self) -> (r: Result<Value>)
        requires
            old(self).wf(),
        ensures
            final(self).bounded(old(self)),
            r is Ok ==> final(self).kept(old(self)) && final(self).pos > old(self).pos,
            value_agrees(r, final(self).st(), p_inner(old(self).ctx(), old(self).st(), old(self).budget())),
        decreases old(self).budget(), 4nat, 0nat,
    {
        let raw = self.read_u8()?;
        let shared = (raw & TY_SHAREDFLAG) != 0;
        let ty = raw & TY_TYPEMASK;
        proof {
            lemma_mask(raw);
        }
        if ty == TY_TUPLE1 || ty == TY_TUPLE2 || ty == TY_TUPLE || ty == TY_LIST1 || ty == TY_LIST
            || ty == TY_DICT || ty == TY_INSTANCE || ty == TY_REDUCE || ty == TY_NEWOBJ
            || ty == TY_CALLBACK || ty == TY_CRC_CHECK {
            self.read_compound(ty, shared)
        } else {
            self.read_scalar(ty, shared)
        }
    }

    /// Objects that hold no nested object.
    fn read_scalar(&mut self, ty: u8, shared: bool) -> (r: Result<Value>)
        requires
            old(self).wf(),
            !is_compound(ty),
        ensures
            final(self).bounded(old(self)),
            r is Ok ==> final(self).kept(old(self)),
            value_agrees(r, final(self).st(), p_scalar(old(self).ctx(), old(self).st(), ty, shared)),
    {
        match ty {
            TY_NONE => Ok(Value::Null),
            TY_TRUE => Ok(Value::Bool(true)),
            TY_FALSE => Ok(Value::Bool(false)),
            TY_INT_N1 => Ok(Value::Int(-1)),
            TY_INT_0 => Ok(Value::Int(0)),
            TY_INT_1 => Ok(Value::Int(1)),
            TY_INT8 | TY_INT16 | TY_INT32 | TY_INT64 | TY_FLOAT_0 | TY_FLOAT | TY_LONG => self.read_number(ty, shared),
            TY_STR_EMPTY | TY_STR_CHAR | TY_STR_SHORT | TY_STR_TABLE | TY_STR | TY_BUFFER => self.read_byte_string(ty, shared),
            TY_UNICODE_0 | TY_UNICODE_1 | TY_UNICODE | TY_UTF8 | TY_GLOBAL => self.read_text(ty, shared),
            TY_TUPLE0 => {
                let v: Vec<Value> = Vec::new();
                assert(views_of(v@) =~= Seq::<ValueView>::empty());
                Ok(Value::Tuple(v))
            },
            TY_LIST0 => {
                let v: Vec<Value> = Vec::new();
                assert(views_of(v@) =~= Seq::<ValueView>::empty());
                Ok(Value::List(v))
            },
            TY_REFERENCE => {
                let id = self.read_integer()?;
                self.resolve_reference(id)
            },
            TY_DBROW => Err(Error::Unsupported("TY_DBROW")),
            TY_WSTREAM => Err(Error::Unsupported("TY_WSTREAM")),
            TY_PICKLE => Err(Error::Unsupported("TY_PICKLE")),
            TY_PICKLER => Err(Error::Unsupported("TY_PICKLER")),
            TY_COMPLEX => Err(Error::Unsupported("TY_COMPLEX")),
            other => Err(Error::Invalid(unknown_tag_message(other, tag_name(other)))),
        }
    }

    fn read_number(&mut self, ty: u8, shared: bool) -> (r: Result<Value>)
        requires
            old(self).wf(),
            ty == TY_INT8 || ty == TY_INT16 || ty == TY_INT32 || ty == TY_INT64 || ty == TY_FLOAT_0
                || ty == TY_FLOAT || ty == TY_LONG,
        ensures
            final(self).bounded(old(self)),
            r is Ok ==> final(self).kept(old(self)),
            value_agrees(r, final(self).st(), p_scalar(old(self).ctx(), old(self).st(), ty, shared)),
    {
        if ty == TY_INT8 {
            let b = self.read_u8()?;
            Ok(Value::Int(b as i8 as i64))
        } else if ty == TY_INT16 {
            let b = self.read_bytes(2)?;
            Ok(Value::Int(u16_from_le_bytes(b) as i16 as i64))
        } else if ty == TY_INT32 {
            let b = self.read_bytes(4)?;
            Ok(Value::Int(u32_from_le_bytes(b) as i32 as i64))
        } else if ty == TY_INT64 {
            let b = self.read_bytes(8)?;
            Ok(Value::Int(u64_from_le_bytes(b) as i64))
        } else if ty == TY_FLOAT_0 {
            Ok(Value::Float(0))
        } else if ty == TY_FLOAT {
            let b = self.read_bytes(8)?;
            Ok(Value::Float(u64_from_le_bytes(b)))
        } else {
            let bytes = self.read_buff()?;
            let n = if bytes.len() == 0 {
                LongInt::zero()
            } else {
                LongInt::from_signed_bytes_le(bytes)
            };
            self.mark_and_store(Value::Long(n), shared)
        }
    }

    fn read_byte_string(&mut self, ty: u8, shared: bool) -> (r: Result<Value>)
        requires
            old(self).wf(),
            ty == TY_STR_EMPTY || ty == TY_STR_CHAR || ty == TY_STR_SHORT || ty == TY_STR_TABLE
                || ty == TY_STR || ty == TY_BUFFER,
        ensures
            final(self).bounded(old(self)),
            r is Ok ==> final(self).kept(old(self)),
            value_agrees(r, final(self).st(), p_scalar(old(self).ctx(), old(self).st(), ty, shared)),
    {
        if ty == TY_STR_EMPTY {
            let v: Vec<u8> = Vec::new();
            assert(v@ =~= Seq::<u8>::empty());
            Ok(Value::Bytes(v))
        } else if ty == TY_STR_CHAR {
            let b = self.read_u8()?;
            let mut v: Vec<u8> = Vec::new();
            v.push(b);
            assert(v@ =~= seq![b]);
            Ok(Value::Bytes(v))
        } else if ty == TY_STR_SHORT {
            let n = self.read_u8()? as usize;
            let b = self.read_bytes(n)?;
            Ok(Value::Bytes(vstd::slice::slice_to_vec(b)))
        } else if ty == TY_STR_TABLE {
            let idx = self.read_u8()?;
            match crate::strtable::lookup(idx) {
                Some(s) => Ok(Value::Bytes(vstd::slice::slice_to_vec(s.as_bytes()))),
                None => Err(Error::Invalid(bad_index_message(idx))),
            }
        } else {
            let bytes = vstd::slice::slice_to_vec(self.read_buff()?);
            self.mark_and_store(Value::Bytes(bytes), shared)
        }
    }

    fn read_text(&mut self, ty: u8, shared: bool) -> (r: Result<Value>)
        requires
            old(self).wf(),
            ty == TY_UNICODE_0 || ty == TY_UNICODE_1 || ty == TY_UNICODE || ty == TY_UTF8 || ty == TY_GLOBAL,
        ensures
            final(self).bounded(old(self)),
            r is Ok ==> final(self).kept(old(self)),
            value_agrees(r, final(self).st(), p_scalar(old(self).ctx(), old(self).st(), ty, shared)),
    {
        if ty == TY_UNICODE_0 {
            Ok(Value::Str(String::new()))
        } else if ty == TY_UNICODE_1 {
            let b = self.read_bytes(2)?;
            let code = u16_from_le_bytes(b);
            let mut units: Vec<u16> = Vec::new();
            units.push(code);
            assert(units@ =~= seq![code]);
            match string_from_utf16(units.as_slice()) {
                Some(s) => Ok(Value::Str(s)),
                None => Err(Error::Invalid(string_of("bad utf-16 code unit"))),
            }
        } else if ty == TY_UNICODE {
            let len = self.read_integer()?;
            if len < 0 {
                return Err(Error::Invalid(string_of("negative unicode length")));
            }
            let byte_len = match (len as usize).checked_mul(2) {
                Some(n) => n,
                None => {
                    return Err(Error::Invalid(string_of("unicode length overflow")));
                },
            };
            let bytes = self.read_bytes(byte_len)?;
            let units = utf16_units_of(bytes);
            match string_from_utf16(units.as_slice()) {
                Some(s) => Ok(Value::Str(s)),
                None => Err(Error::Invalid(string_of("bad utf-16 data"))),
            }
        } else if ty == TY_UTF8 {
            let len = self.read_integer()?;
            if len < 0 {
                return Err(Error::Invalid(string_of("negative utf8 length")));
            }
            let bytes = self.read_bytes(len as usize)?;
            match string_from_utf8(bytes) {
                Some(s) => Ok(Value::Str(s)),
                None => Err(Error::Invalid(string_of("bad utf-8 data"))),
            }
        } else {
            let name = self.read_buff()?;
            match string_from_utf8(name) {
                Some(s) => self.mark_and_store(Value::Global(s), shared),
                None => Err(Error::Invalid(string_of("bad utf-8 in global name"))),
            }
        }
    }

    /// Objects that hold nested objects.
    fn read_compound(&mut self, ty: u8, shared: bool) -> (r: Result<Value>)
        requires
            old(self).wf(),
            is_compound(ty),
        ensures
            final(self).bounded(old(self)),
            r is Ok ==> final(self).kept(old(self)),
            value_agrees(r, final(self).st(), p_compound(old(self).ctx(), old(self).st(), old(self).budget(), ty, shared)),
        decreases old(self).budget(), 3nat, 0nat,
    {
        if ty == TY_TUPLE1 || ty == TY_TUPLE2 || ty == TY_LIST1 || ty == TY_TUPLE || ty == TY_LIST {
            self.read_sequence(ty, shared)
        } else if ty == TY_DICT {
            self.read_dict(shared)
        } else if ty == TY_INSTANCE {
            self.read_instance(shared)
        } else if ty == TY_REDUCE || ty == TY_NEWOBJ {
            self.read_reduce(ty, shared)
        } else if ty == TY_CALLBACK {
            let data = self.read_object()?;
            Ok(Value::Callback(Box::new(data)))
        } else {
            self.read_crc_checked()
        }
    }

    /// `n` objects one after another.
    fn read_items(&mut self, n: usize) -> (r: Result<Vec<Value>>)
        requires
            old(self).wf(),
        ensures
            final(self).bounded(old(self)),
            r is Ok ==> final(self).kept(old(self)),
            items_agree(r, final(self).st(), p_items(old(self).ctx(), old(self).st(), old(self).budget(), n as nat)),
        decreases old(self).budget(), 1nat, 0nat,
    {
        let ghost c = self.ctx();
        let ghost s0 = self.st();
        let ghost k = self.budget();
        let mut items: Vec<Value> = Vec::new();
        let mut i: usize = 0;
        assert(views_of(items@) =~= Seq::<ValueView>::empty());
        while i < n
            invariant
                i <= n,
                self.kept(old(self)),
                c == old(self).ctx(),
                s0 == old(self).st(),
                k == old(self).budget(),
                p_items(c, s0, k, i as nat) == Parsed::Ok((views_of(items@), self.st())),
            decreases n - i,
        {
            let ghost before = self.st();
            match self.read_object() {
                Ok(v) => {
                    let ghost old_items = items@;
                    items.push(v);
                    proof {
                        lemma_views_push(old_items, v);
                    }
                },
                Err(e) => {
                    proof {
                        lemma_items_err(c, s0, k, (i + 1) as nat, n as nat);
                    }
                    return Err(e);
                },
            }
            i = i + 1;
        }
        Ok(items)
    }

    /// `n` dict entries, each a value and then its key.
    fn read_pairs(&mut self, n: usize) -> (r: Result<Vec<(Value, Value)>>)
        requires
            old(self).wf(),
        ensures
            final(self).bounded(old(self)),
            r is Ok ==> final(self).kept(old(self)),
            pairs_agree(r, final(self).st(), p_pairs(old(self).ctx(), old(self).st(), old(self).budget(), n as nat)),
        decreases old(self).budget(), 1nat, 0nat,
    {
        let ghost c = self.ctx();
        let ghost s0 = self.st();
        let ghost k = self.budget();
        let mut pairs: Vec<(Value, Value)> = Vec::new();
        let mut i: usize = 0;
        assert(pair_views_of(pairs@) =~= Seq::<(ValueView, ValueView)>::empty());
        while i < n
            invariant
                i <= n,
                self.kept(old(self)),
                c == old(self).ctx(),
                s0 == old(self).st(),
                k == old(self).budget(),
                p_pairs(c, s0, k, i as nat) == Parsed::Ok((pair_views_of(pairs@), self.st())),
            decreases n - i,
        {
            // The value is written before the key.
            let val = match self.read_object() {
                Ok(v) => v,
                Err(e) => {
                    proof {
                        lemma_pairs_err(c, s0, k, (i + 1) as nat, n as nat);
                    }
                    return Err(e);
                },
            };
            let key = match self.read_object() {
                Ok(v) => v,
                Err(e) => {
                    proof {
                        lemma_pairs_err(c, s0, k, (i + 1) as nat, n as nat);
                    }
                    return Err(e);
                },
            };
            let ghost old_pairs = pairs@;
            pairs.push((key, val));
            proof {
                lemma_pair_views_push(old_pairs, (key, val));
            }
            i = i + 1;
        }
        Ok(pairs)
    }

    fn read_sequence(&mut self, ty: u8, shared: bool) -> (r: Result<Value>)
        requires
            old(self).wf(),
            ty == TY_TUPLE1 || ty == TY_TUPLE2 || ty == TY_LIST1 || ty == TY_TUPLE || ty == TY_LIST,
        ensures
            final(self).bounded(old(self)),
            r is Ok ==> final(self).kept(old(self)),
            value_agrees(r, final(self).st(), p_compound(old(self).ctx(), old(self).st(), old(self).budget(), ty, shared)),
        decreases old(self).budget(), 2nat, 0nat,
    {
        let n: usize = if ty == TY_TUPLE1 || ty == TY_LIST1 {
            1
        } else if ty == TY_TUPLE2 {
            2
        } else {
            let len = self.read_integer()?;
            if len < 0 {
                return Err(Error::Invalid(string_of(
                    if ty == TY_TUPLE { "negative tuple length" } else { "negative list length" },
                )));
            }
            self.check_space(len as usize)?;
            len as usize
        };
        let ix = self.alloc_if(shared)?;
        let items = self.read_items(n)?;
        let v = if ty == TY_LIST1 || ty == TY_LIST {
            Value::List(items)
        } else {
            Value::Tuple(items)
        };
        self.update_shared(ix, &v);
        Ok(v)
    }

    fn read_dict(&mut self, shared: bool) -> (r: Result<Value>)
        requires
            old(self).wf(),
        ensures
            final(self).bounded(old(self)),
            r is Ok ==> final(self).kept(old(self)),
            value_agrees(r, final(self).st(), p_compound(old(self).ctx(), old(self).st(), old(self).budget(), TY_DICT, shared)),
        decreases old(self).budget(), 2nat, 0nat,
    {
        let len = self.read_integer()?;
        if len < 0 {
            return Err(Error::Invalid(string_of("negative dict length")));
        }
        // Each pair is at least two one-byte objects.
        let need: usize = if len as usize > usize::MAX / 2 { usize::MAX } else { len as usize * 2 };
        self.check_space(need)?;
        let ix = self.alloc_if(shared)?;
        let pairs = self.read_pairs(len as usize)?;
        let v = Value::Dict(pairs);
        self.update_shared(ix, &v);
        Ok(v)
    }

    fn read_instance(&mut self, shared: bool) -> (r: Result<Value>)
        requires
            old(self).wf(),
        ensures
            final(self).bounded(old(self)),
            r is Ok ==> final(self).kept(old(self)),
            value_agrees(r, final(self).st(), p_compound(old(self).ctx(), old(self).st(), old(self).budget(), TY_INSTANCE, shared)),
        decreases old(self).budget(), 2nat, 0nat,
    {
        let ix = self.alloc_if(shared)?;
        let guid = self.read_object()?;
        let class = match guid.as_str_like() {
            Some(c) => c,
            None => {
                return Err(Error::Invalid(string_of("TY_INSTANCE guid isn't a string")));
            },
        };
        let data = self.read_object()?;
        let v = Value::Instance { class, state: Box::new(data) };
        self.update_shared(ix, &v);
        Ok(v)
    }

    fn read_reduce(&mut self, ty: u8, shared: bool) -> (r: Result<Value>)
        requires
            old(self).wf(),
            ty == TY_REDUCE || ty == TY_NEWOBJ,
        ensures
            final(self).bounded(old(self)),
            r is Ok ==> final(self).kept(old(self)),
            value_agrees(r, final(self).st(), p_compound(old(self).ctx(), old(self).st(), old(self).budget(), ty, shared)),
        decreases old(self).budget(), 2nat, 0nat,
    {
        let newobj = ty == TY_NEWOBJ;
        let ix = self.alloc_if(shared)?;
        let rv = self.read_object()?;
        let items = match rv {
            Value::Tuple(items) => items,
            _ => {
                return Err(Error::Invalid(string_of("reduce payload isn't a tuple")));
            },
        };
        proof {
            lemma_views_len(items@);
        }
        let (callable, args, state) = if newobj {
            if items.len() == 0 {
                return Err(Error::Invalid(string_of("empty newobj tuple")));
            }
            proof {
                lemma_views_index(items@, 0);
                if items.len() > 1 {
                    lemma_views_index(items@, 1);
                }
            }
            let args = items[0].clone();
            let state = if items.len() > 1 { Some(Box::new(items[1].clone())) } else { None };
            (Value::Null, args, state)
        } else {
            if items.len() < 2 {
                return Err(Error::Invalid(string_of("reduce tuple too short")));
            }
            proof {
                lemma_views_index(items@, 0);
                lemma_views_index(items@, 1);
                if items.len() > 2 {
                    lemma_views_index(items@, 2);
                }
            }
            let state = if items.len() > 2 { Some(Box::new(items[2].clone())) } else { None };
            (items[0].clone(), items[1].clone(), state)
        };
        let list_items = self.read_list_iter()?;
        let dict_items = self.read_dict_iter()?;
        let v = Value::Reduce {
            newobj,
            callable: Box::new(callable),
            args: Box::new(args),
            state,
            list_items,
            dict_items,
        };
        self.update_shared(ix, &v);
        Ok(v)
    }

    /// `TY_CRC_CHECK`: the checksum of the rest of the stream, then the
    /// object it covers. Version 0 checks it at once, against the whole
    /// buffer; other versions when the top-level object is read.
    fn read_crc_checked(&mut self) -> (r: Result<Value>)
        requires
            old(self).wf(),
        ensures
            final(self).bounded(old(self)),
            r is Ok ==> final(self).kept(old(self)),
            value_agrees(r, final(self).st(), p_compound(old(self).ctx(), old(self).st(), old(self).budget(), TY_CRC_CHECK, shared_any())),
        decreases old(self).budget(), 2nat, 0nat,
    {
        let crc = self.read_i32()?;
        self.got_crc = true;
        self.crc_val = crc;
        self.crc_pos = self.pos;
        if self.version == 0 {
            let end = self.buf.len();
            self.verify_crc(end)?;
        }
        self.read_object()
    }

    /// List items of a `__reduce__` object: objects until a `TY_MARK`.
    fn read_list_iter(&mut self) -> (r: Result<Vec<Value>>)
        requires
            old(self).wf(),
        ensures
            final(self).bounded(old(self)),
            r is Ok ==> final(self).kept(old(self)),
            items_agree(r, final(self).st(), p_list_iter(old(self).ctx(), old(self).st(), old(self).budget())),
        decreases old(self).budget(), 1nat, 0nat,
    {
        let ghost c = self.ctx();
        let ghost s0 = self.st();
        let ghost k = self.budget();
        let mut out: Vec<Value> = Vec::new();
        assert(views_of(out@) =~= Seq::<ValueView>::empty());
        loop
            invariant
                self.kept(old(self)),
                c == old(self).ctx(),
                s0 == old(self).st(),
                k == old(self).budget(),
                p_list_iter(c, s0, k) == prepend(views_of(out@), p_list_iter(c, self.st(), k)),
            decreases self.ssize - self.pos,
        {
            let t = self.peek_raw_type()?;
            proof {
                lemma_mask(t);
            }
            if (t & TY_TYPEMASK) == TY_MARK {
                self.read_u8()?;
                return Ok(out);
            }
            let ghost before = self.st();
            let v = self.read_object()?;
            let ghost old_out = out@;
            out.push(v);
            proof {
                lemma_views_push(old_out, v);
                assert(p_list_iter(c, before, k) == prepend(seq![v@], p_list_iter(c, self.st(), k)));
                match p_list_iter(c, self.st(), k) {
                    Ok((rest, _)) => {
                        assert(views_of(old_out) + (seq![v@] + rest) =~= views_of(out@) + rest);
                    },
                    Err(_) => {},
                }
            }
        }
    }

    /// Dict items of a `__reduce__` object: key and value pairs until a `TY_MARK`.
    fn read_dict_iter(&mut self) -> (r: Result<Vec<(Value, Value)>>)
        requires
            old(self).wf(),
        ensures
            final(self).bounded(old(self)),
            r is Ok ==> final(self).kept(old(self)),
            pairs_agree(r, final(self).st(), p_dict_iter(old(self).ctx(), old(self).st(), old(self).budget())),
        decreases old(self).budget(), 1nat, 0nat,
    {
        let ghost c = self.ctx();
        let ghost s0 = self.st();
        let ghost k = self.budget();
        let mut out: Vec<(Value, Value)> = Vec::new();
        assert(pair_views_of(out@) =~= Seq::<(ValueView, ValueView)>::empty());
        loop
            invariant
                self.kept(old(self)),
                c == old(self).ctx(),
                s0 == old(self).st(),
                k == old(self).budget(),
                p_dict_iter(c, s0, k) == prepend(pair_views_of(out@), p_dict_iter(c, self.st(), k)),
            decreases self.ssize - self.pos,
        {
            let t = self.peek_raw_type()?;
            proof {
                lemma_mask(t);
            }
            if (t & TY_TYPEMASK) == TY_MARK {
                self.read_u8()?;
                return Ok(out);
            }
            let ghost before = self.st();
            let key = self.read_object()?;
            let val = self.read_object()?;
            let ghost old_out = out@;
            out.push((key, val));
            proof {
                lemma_pair_views_push(old_out, (key, val));
                assert(p_dict_iter(c, before, k) == prepend(seq![(key@, val@)], p_dict_iter(c, self.st(), k)));
                match p_dict_iter(c, self.st(), k) {
                    Ok((rest, _)) => {
                        assert(pair_views_of(old_out) + (seq![(key@, val@)] + rest) =~= pair_views_of(out@) + rest);
                    },
                    Err(_) => {},
                }
            }
        }
    }
}

/// The value of `shared` does not matter for `TY_CRC_CHECK`.
spec fn shared_any() -> bool {
    false
}

/// UTF-16 code units from little-endian byte pairs.
fn utf16_units_of(bytes: &[u8]) -> (r: Vec<u16>)
    ensures
        r@ == utf16_units(bytes@),
{
    let n = bytes.len() / 2;
    let mut units: Vec<u16> = Vec::new();
    let mut i: usize = 0;
    while i < n
        invariant
            n == bytes@.len() / 2,
            2 * n <= bytes.len(),
            i <= n,
            units@ == utf16_units(bytes@).take(i as int),
        decreases n - i,
    {
        let u = u16_from_le_bytes(&bytes[2 * i..2 * i + 2]);
        units.push(u);
        assert(utf16_units(bytes@).take(i + 1) == utf16_units(bytes@).take(i as int).push(u));
        i = i + 1;
    }
    assert(utf16_units(bytes@).take(n as int) == utf16_units(bytes@));
    units
}

/// The message for a type byte with no meaning.
fn unknown_tag_message(ty: u8, name: &str) -> (r: String)
    ensures
        r@ == "unknown type tag "@ + crate::text::decimal(ty as int) + " ("@ + name@ + ")"@,
{
    let d = crate::text::i64_to_decimal(ty as i64);
    let a = crate::text::concat("unknown type tag ", d.as_str());
    let b = crate::text::concat(a.as_str(), " (");
    let c = crate::text::concat(b.as_str(), name);
    crate::text::concat(c.as_str(), ")")
}

/// The message for a string-table index with no entry.
fn bad_index_message(idx: u8) -> (r: String)
    ensures
        r@ == bad_index_text(idx),
{
    let d = crate::text::i64_to_decimal(idx as i64);
    crate::text::concat("invalid string table index ", d.as_str())
}

} // verus!
