//! Adler-32 as zlib computes it (`adler32(seed, data, len)`), the checksum that
//! the marshal stream may carry.

use vstd::prelude::*;

verus! {

/// The largest prime below 2^16.
pub const MOD_ADLER: u32 = 65521;

/// How many bytes can be summed before the running sums must be reduced
/// without overflowing a `u32` (zlib's NMAX).
pub const CHUNK: usize = 5552;

/// One step of the checksum over a byte: both sums are kept reduced.
pub open spec fn adler_step(ab: (int, int), byte: u8) -> (int, int) {
    let a = (ab.0 + byte) % (MOD_ADLER as int);
    (a, (ab.1 + a) % (MOD_ADLER as int))
}

/// The pair of sums after the bytes of `data`, starting from `(a0, b0)`.
pub open spec fn adler_sums(a0: int, b0: int, data: Seq<u8>) -> (int, int)
    decreases data.len(),
{
    if data.len() == 0 {
        (a0, b0)
    } else {
        adler_step(adler_sums(a0, b0, data.drop_last()), data.last())
    }
}

/// Adler-32 of `data` continued from `seed`: the low half of the seed is the
/// first sum and the high half the second. No byte leaves the seed as it is.
pub open spec fn spec_adler32(seed: u32, data: Seq<u8>) -> u32 {
    if data.len() == 0 {
        seed
    } else {
        let ab = adler_sums(seed as int % 65536, seed as int / 65536, data);
        (ab.1 * 65536 + ab.0) as u32
    }
}

proof fn lemma_sums_reduced(a0: int, b0: int, data: Seq<u8>)
    requires
        data.len() > 0,
    ensures
        0 <= adler_sums(a0, b0, data).0 < MOD_ADLER,
        0 <= adler_sums(a0, b0, data).1 < MOD_ADLER,
{
}

proof fn lemma_split_seed(seed: u32)
    ensures
        seed & 0xffff == seed % 65536,
        (seed >> 16) & 0xffff == seed / 65536,
{
    assert(seed & 0xffff == seed % 65536) by (bit_vector);
    assert((seed >> 16) & 0xffff == seed / 65536) by (bit_vector);
}

proof fn lemma_join(a: u32, b: u32)
    requires
        a < 65536,
        b < 65536,
    ensures
        (b << 16) | a == b * 65536 + a,
{
    assert(a < 65536 && b < 65536 ==> (b << 16) | a == b * 65536 + a) by (bit_vector);
}

/// Twice the largest value the second sum can reach after `k` unreduced
/// bytes that started from sums below 2^16.
spec fn bound2(k: int) -> int {
    2 * 65535 * (k + 1) + 255 * k * (k + 1)
}

proof fn lemma_bound_step(k: int)
    requires
        0 <= k,
    ensures
        bound2(k + 1) == bound2(k) + 2 * (65535 + 255 * (k + 1)),
{
    assert(bound2(k + 1) == bound2(k) + 2 * (65535 + 255 * (k + 1))) by (nonlinear_arith);
}

proof fn lemma_bound_mono(k: int)
    requires
        0 <= k <= CHUNK,
    ensures
        bound2(k) <= bound2(CHUNK as int),
        bound2(CHUNK as int) < 2 * 0xffff_ffff,
{
    assert(0 <= k <= 5552 ==> bound2(k) <= bound2(5552)) by (nonlinear_arith);
}

proof fn lemma_mod_step(a: int, sa: int, byte: int, b: int, sb: int)
    requires
        a >= 0,
        b >= 0,
        sa >= 0,
        sb >= 0,
        byte >= 0,
        a % (MOD_ADLER as int) == sa % (MOD_ADLER as int),
        b % (MOD_ADLER as int) == sb % (MOD_ADLER as int),
    ensures
        (a + byte) % (MOD_ADLER as int) == (sa + byte) % (MOD_ADLER as int),
        (b + a + byte) % (MOD_ADLER as int) == (sb + (sa + byte) % (MOD_ADLER as int)) % (MOD_ADLER as int),
{
    let m = MOD_ADLER as int;
    vstd::arithmetic::div_mod::lemma_add_mod_noop(a, byte, m);
    vstd::arithmetic::div_mod::lemma_add_mod_noop(sa, byte, m);
    vstd::arithmetic::div_mod::lemma_add_mod_noop(b, a + byte, m);
    vstd::arithmetic::div_mod::lemma_add_mod_noop(sb, sa + byte, m);
    vstd::arithmetic::div_mod::lemma_mod_twice(sa + byte, m);
    vstd::arithmetic::div_mod::lemma_add_mod_noop(sb, (sa + byte) % m, m);
}

/// Adler-32 of `data` continued from `seed`, reducing the sums only once per
/// `CHUNK` bytes as zlib does.
pub fn adler32(seed: u32, data: &[u8]) -> (r: u32)
    ensures
        r == spec_adler32(seed, data@),
{
    proof {
        lemma_split_seed(seed);
    }
    let a0: u32 = seed & 0xffff;
    let b0: u32 = (seed >> 16) & 0xffff;
    let mut a: u32 = a0;
    let mut b: u32 = b0;
    let len = data.len();
    let mut i: usize = 0;
    while i < len
        invariant
            len == data@.len(),
            i <= len,
            a0 == seed as int % 65536,
            b0 == seed as int / 65536,
            i == 0 ==> a == a0 && b == b0,
            i > 0 ==> a == adler_sums(a0 as int, b0 as int, data@.take(i as int)).0,
            i > 0 ==> b == adler_sums(a0 as int, b0 as int, data@.take(i as int)).1,
            a < 65536,
            b < 65536,
        decreases len - i,
    {
        let end: usize = if len - i > CHUNK { i + CHUNK } else { len };
        let ghost sa0: int = if i == 0 { a0 as int } else { a as int };
        let ghost sb0: int = if i == 0 { b0 as int } else { b as int };
        let mut j: usize = i;
        while j < end
            invariant
                len == data@.len(),
                i <= j <= end <= len,
                end - i <= CHUNK,
                a0 == seed as int % 65536,
                b0 == seed as int / 65536,
                i == 0 ==> sa0 == a0 && sb0 == b0,
                i > 0 ==> sa0 == adler_sums(a0 as int, b0 as int, data@.take(i as int)).0,
                i > 0 ==> sb0 == adler_sums(a0 as int, b0 as int, data@.take(i as int)).1,
                0 <= sa0 < 65536,
                0 <= sb0 < 65536,
                j == i ==> a == sa0 && b == sb0,
                j > i ==> a as int % (MOD_ADLER as int) == adler_sums(a0 as int, b0 as int, data@.take(j as int)).0,
                j > i ==> b as int % (MOD_ADLER as int) == adler_sums(a0 as int, b0 as int, data@.take(j as int)).1,
                a <= 65535 + 255 * (j - i),
                2 * b <= bound2((j - i) as int),
            decreases end - j,
        {
            let byte = data[j];
            proof {
                lemma_bound_step((j - i) as int);
                lemma_bound_mono((j - i + 1) as int);
                let prev = adler_sums(a0 as int, b0 as int, data@.take(j as int));
                assert(data@.take(j + 1).drop_last() == data@.take(j as int));
                assert(data@.take(j + 1).last() == byte);
                if j == i {
                    if i == 0 {
                        assert(data@.take(0) == Seq::<u8>::empty());
                        assert(prev == (a0 as int, b0 as int));
                    }
                }
                lemma_mod_step(a as int, prev.0, byte as int, b as int, prev.1);
            }
            a = a + byte as u32;
            b = b + a;
            j = j + 1;
        }
        a = a % MOD_ADLER;
        b = b % MOD_ADLER;
        proof {
            lemma_sums_reduced(a0 as int, b0 as int, data@.take(end as int));
            vstd::arithmetic::div_mod::lemma_small_mod(
                adler_sums(a0 as int, b0 as int, data@.take(end as int)).0 as nat, MOD_ADLER as nat);
            vstd::arithmetic::div_mod::lemma_small_mod(
                adler_sums(a0 as int, b0 as int, data@.take(end as int)).1 as nat, MOD_ADLER as nat);
        }
        i = end;
    }
    proof {
        lemma_join(a, b);
        assert(data@.take(len as int) == data@);
        if len == 0 {
            assert((b0 << 16) | a0 == seed) by (bit_vector)
                requires a0 == seed & 0xffff, b0 == (seed >> 16) & 0xffff;
        }
    }
    (b << 16) | a
}

/// The sums over two runs of bytes are the sums over the second run,
/// continued from the sums over the first.
proof fn lemma_sums_concat(a0: int, b0: int, x: Seq<u8>, y: Seq<u8>)
    ensures
        adler_sums(a0, b0, x + y) == adler_sums(adler_sums(a0, b0, x).0, adler_sums(a0, b0, x).1, y),
    decreases y.len(),
{
    if y.len() == 0 {
        assert(x + y =~= x);
    } else {
        lemma_sums_concat(a0, b0, x, y.drop_last());
        assert((x + y).drop_last() =~= x + y.drop_last());
    }
}

/// The checksum can be computed piece by piece: continuing from the checksum
/// of a first run of bytes over a second run gives the checksum of both.
pub proof fn law_adler32_concat(seed: u32, x: Seq<u8>, y: Seq<u8>)
    ensures
        spec_adler32(spec_adler32(seed, x), y) == spec_adler32(seed, x + y),
{
    if x.len() == 0 {
        assert(x + y =~= y);
    } else if y.len() == 0 {
        assert(x + y =~= x);
    } else {
        let a0 = seed as int % 65536;
        let b0 = seed as int / 65536;
        let ab = adler_sums(a0, b0, x);
        lemma_sums_reduced(a0, b0, x);
        let mid = spec_adler32(seed, x);
        assert(mid == ab.1 * 65536 + ab.0) by (nonlinear_arith)
            requires
                0 <= ab.0 < 65521,
                0 <= ab.1 < 65521,
                mid == (ab.1 * 65536 + ab.0) as u32,
        ;
        assert(mid as int % 65536 == ab.0 && mid as int / 65536 == ab.1) by (nonlinear_arith)
            requires
                0 <= ab.0 < 65536,
                mid == ab.1 * 65536 + ab.0,
        ;
        lemma_sums_concat(a0, b0, x, y);
    }
}

} // verus!
