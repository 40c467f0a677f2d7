//! Mathematical model of the two bit-packing conventions.
//!
//! A signal occupies `width` consecutive bit positions starting at `start`
//! within a byte buffer. Under the little-endian convention, absolute bit
//! position `p` is bit `p % 8` (counted from the least significant end) of
//! byte `p / 8`, and the bit at `start` is the least significant bit of the
//! value. Under the big-endian convention, position `p` is bit `7 - p % 8`
//! of byte `p / 8`, and the bit at `start` is the most significant bit of
//! the value: the span is read as a continuous bitstream, most significant
//! bit first.

use vstd::prelude::*;
use vstd::arithmetic::power2::pow2;
use vstd::arithmetic::power2::lemma_pow2_adds;
use vstd::arithmetic::power2::lemma2_to64;
use vstd::arithmetic::div_mod::lemma_fundamental_div_mod;
use vstd::arithmetic::div_mod::lemma_fundamental_div_mod_converse;

verus! {

/// The bit of `data` at absolute position `p`, little-endian addressing:
/// bit `p % 8` of byte `p / 8`, counted from the least significant end.
pub open spec fn le_bit(data: Seq<u8>, p: int) -> u64 {
    ((data[p / 8] as u64) >> ((p % 8) as u64)) & 1
}

/// The bit of `data` at absolute position `p`, big-endian addressing:
/// bit `7 - p % 8` of byte `p / 8`, counted from the least significant end
/// (that is, position 0 within a byte is its most significant bit).
pub open spec fn be_bit(data: Seq<u8>, p: int) -> u64 {
    ((data[p / 8] as u64) >> ((7 - p % 8) as u64)) & 1
}

/// Value of the `width`-bit span at `start` under the little-endian
/// convention: the bit at `start` carries weight 1, each later position
/// twice the weight of the one before it.
pub open spec fn le_value(data: Seq<u8>, start: int, width: nat) -> nat
    decreases width,
{
    if width == 0 {
        0
    } else {
        le_value(data, start, (width - 1) as nat)
            + (le_bit(data, start + width - 1) as nat) * pow2((width - 1) as nat)
    }
}

/// Value of the `width`-bit span at `start` under the big-endian
/// convention: the bit at `start` is the most significant, each consumed
/// bit is shifted in from the low end.
pub open spec fn be_value(data: Seq<u8>, start: int, width: nat) -> nat
    decreases width,
{
    if width == 0 {
        0
    } else {
        2 * be_value(data, start, (width - 1) as nat) + (be_bit(data, start + width - 1) as nat)
    }
}

/// Every bit is 0 or 1.
pub proof fn lemma_le_bit_is_bit(data: Seq<u8>, p: int)
    ensures
        le_bit(data, p) == 0 || le_bit(data, p) == 1,
{
    let b = data[p / 8] as u64;
    let s = (p % 8) as u64;
    assert((b >> s) & 1 == 0 || (b >> s) & 1 == 1) by (bit_vector);
}

/// Every bit is 0 or 1.
pub proof fn lemma_be_bit_is_bit(data: Seq<u8>, p: int)
    ensures
        be_bit(data, p) == 0 || be_bit(data, p) == 1,
{
    let b = data[p / 8] as u64;
    let s = ((7 - p % 8)) as u64;
    assert((b >> s) & 1 == 0 || (b >> s) & 1 == 1) by (bit_vector);
}

/// A `width`-bit span holds a value below `pow2(width)`.
pub proof fn lemma_le_value_bound(data: Seq<u8>, start: int, width: nat)
    ensures
        le_value(data, start, width) < pow2(width),
    decreases width,
{
    if width == 0 {
        lemma2_to64();
    } else {
        lemma_le_value_bound(data, start, (width - 1) as nat);
        lemma_le_bit_is_bit(data, start + width - 1);
        lemma_pow2_adds((width - 1) as nat, 1);
        lemma2_to64();
    }
}

/// A `width`-bit span holds a value below `pow2(width)`.
pub proof fn lemma_be_value_bound(data: Seq<u8>, start: int, width: nat)
    ensures
        be_value(data, start, width) < pow2(width),
    decreases width,
{
    if width == 0 {
        lemma2_to64();
    } else {
        lemma_be_value_bound(data, start, (width - 1) as nat);
        lemma_be_bit_is_bit(data, start + width - 1);
        lemma_pow2_adds((width - 1) as nat, 1);
        lemma2_to64();
    }
}

/// Splitting a little-endian span: the low `a` bits keep their value and
/// the remaining `b` bits contribute their own span's value, scaled by
/// `pow2(a)`.
pub proof fn lemma_le_value_split(data: Seq<u8>, start: int, a: nat, b: nat)
    ensures
        le_value(data, start, a + b) == le_value(data, start, a) + pow2(a) * le_value(
            data,
            start + a,
            b,
        ),
    decreases b,
{
    if b == 0 {
        assert(le_value(data, start + a, 0) == 0);
        assert(pow2(a) * 0 == 0) by (nonlinear_arith);
    } else {
        lemma_le_value_split(data, start, a, (b - 1) as nat);
        lemma_pow2_adds(a, (b - 1) as nat);
        let bit = le_bit(data, start + a + b - 1);
        assert(le_value(data, start, a + b) == le_value(data, start, (a + b - 1) as nat)
            + bit * pow2((a + b - 1) as nat));
        assert(le_value(data, start + a, b) == le_value(data, start + a, (b - 1) as nat)
            + bit * pow2((b - 1) as nat));
        assert(pow2(a) * (le_value(data, start + a, (b - 1) as nat) + bit * pow2((b - 1) as nat))
            == pow2(a) * le_value(data, start + a, (b - 1) as nat) + bit * (pow2(a) * pow2(
            (b - 1) as nat,
        ))) by (nonlinear_arith);
    }
}

/// A little-endian span that stays inside one byte is that byte shifted
/// down to the span's offset and masked to the span's width.
pub proof fn lemma_le_chunk(data: Seq<u8>, pos: int, n: nat)
    requires
        0 <= pos,
        pos / 8 < data.len(),
        1 <= n,
        (pos % 8) + n <= 8,
    ensures
        le_value(data, pos, n) == ((data[pos / 8] as u64) >> ((pos % 8) as u64)) & ((((1u64
            << (n as u64)) - 1)) as u64),
    decreases n,
{
    let b = data[pos / 8] as u64;
    let off = (pos % 8) as u64;
    let m = n as u64;
    lemma2_to64();
    if n == 1 {
        assert(le_value(data, pos, 1) == le_bit(data, pos) as nat * pow2(0) + le_value(
            data,
            pos,
            0,
        ));
        assert((b >> off) & ((((1u64 << 1) - 1)) as u64) == (b >> off) & 1) by (bit_vector);
    } else {
        lemma_le_chunk(data, pos, (n - 1) as nat);
        lemma_fundamental_div_mod(pos, 8);
        lemma_fundamental_div_mod_converse(pos + n - 1, 8, pos / 8, pos % 8 + n - 1);
        let k = (pos % 8 + n - 1) as u64;
        let m1 = (m - 1) as u64;
        assert(le_bit(data, pos + n - 1) == (b >> k) & 1);
        let bit = (b >> k) & 1;
        assert((b >> off) & ((((1u64 << m) - 1)) as u64) == ((b >> off) & ((((1u64 << m1)
            - 1)) as u64)) + (((b >> k) & 1) << m1)) by (bit_vector)
            requires
                1 <= m <= 8,
                off < 8,
                off + m <= 8,
                k == off + m - 1,
                m1 == m - 1,
        ;
        vstd::bits::lemma_u64_pow2_no_overflow((n - 1) as nat);
        assert(((b >> k) & 1) <= 1) by (bit_vector);
        assert(bit * pow2((n - 1) as nat) <= pow2((n - 1) as nat)) by (nonlinear_arith)
            requires
                bit <= 1,
        ;
        vstd::bits::lemma_u64_shl_is_mul(bit, m1);
        vstd::bits::lemma_u64_shl_is_mul(1u64, m1);
        assert((bit << m1) == bit as nat * pow2((n - 1) as nat));
    }
}

/// `b` with bit `k` (counted from the least significant end) set when
/// `v == 1` and cleared otherwise.
pub open spec fn byte_with_bit(b: u8, k: u8, v: u64) -> u8 {
    if v == 1 {
        b | (1u8 << k)
    } else {
        b & (!(1u8 << k))
    }
}

/// `data` with the bit at absolute position `p` (little-endian
/// addressing) set to `v`.
pub open spec fn store_bit_le(data: Seq<u8>, p: int, v: u64) -> Seq<u8> {
    data.update(p / 8, byte_with_bit(data[p / 8], (p % 8) as u8, v))
}

/// `data` with the bit at absolute position `p` (big-endian addressing)
/// set to `v`.
pub open spec fn store_bit_be(data: Seq<u8>, p: int, v: u64) -> Seq<u8> {
    data.update(p / 8, byte_with_bit(data[p / 8], (7 - p % 8) as u8, v))
}

/// Writing a bit and reading it back at the same index yields the bit.
proof fn lemma_byte_with_bit_read(b: u8, k: u8, v: u64)
    requires
        k < 8,
        v <= 1,
    ensures
        ((byte_with_bit(b, k, v) as u64) >> (k as u64)) & 1 == v,
{
    assert(k < 8 ==> (((b | (1u8 << k)) as u64) >> (k as u64)) & 1 == 1) by (bit_vector);
    assert(k < 8 ==> (((b & (!(1u8 << k))) as u64) >> (k as u64)) & 1 == 0) by (bit_vector);
}

/// Writing a bit leaves every other bit index of the byte unchanged.
proof fn lemma_byte_with_bit_read_other(b: u8, k: u8, j: u8, v: u64)
    requires
        k < 8,
        j < 8,
        j != k,
    ensures
        ((byte_with_bit(b, k, v) as u64) >> (j as u64)) & 1 == ((b as u64) >> (j as u64)) & 1,
{
    assert(k < 8 && j < 8 && j != k ==> (((b | (1u8 << k)) as u64) >> (j as u64)) & 1 == ((
    b as u64) >> (j as u64)) & 1) by (bit_vector);
    assert(k < 8 && j < 8 && j != k ==> (((b & (!(1u8 << k))) as u64) >> (j as u64)) & 1 == ((
    b as u64) >> (j as u64)) & 1) by (bit_vector);
}

/// The little-endian inverse packing rule: writes bit `i` of `v` at
/// absolute position `start + i`, for every `i` below `width`.
pub open spec fn le_store(data: Seq<u8>, start: int, width: nat, v: u64) -> Seq<u8>
    decreases width,
{
    if width == 0 {
        data
    } else {
        store_bit_le(le_store(data, start, (width - 1) as nat, v), start + width - 1, (v >> ((
        width - 1) as u64)) & 1)
    }
}

/// The big-endian (MSB-first bitstream) inverse packing rule: the bit at
/// `start` receives the most significant of the `width` low bits of `v`,
/// and the bit at `start + width - 1` the least significant.
pub open spec fn be_store(data: Seq<u8>, start: int, width: nat, v: u64) -> Seq<u8>
    decreases width,
{
    if width == 0 {
        data
    } else {
        store_bit_be(be_store(data, start, (width - 1) as nat, v >> 1u64), start + width - 1, v & 1)
    }
}

/// Storing one little-endian bit: the stored position reads back as the
/// bit, every other position is unchanged, and the length is kept.
proof fn lemma_store_bit_le_read(data: Seq<u8>, p: int, v: u64)
    requires
        0 <= p,
        p / 8 < data.len(),
        v <= 1,
    ensures
        store_bit_le(data, p, v).len() == data.len(),
        le_bit(store_bit_le(data, p, v), p) == v,
        forall|q: int|
            0 <= q && q != p && q / 8 < data.len() ==> le_bit(store_bit_le(data, p, v), q)
                == le_bit(data, q),
{
    let stored = store_bit_le(data, p, v);
    lemma_fundamental_div_mod(p, 8);
    lemma_byte_with_bit_read(data[p / 8], (p % 8) as u8, v);
    assert forall|q: int| 0 <= q && q != p && q / 8 < data.len() implies le_bit(stored, q)
        == le_bit(data, q) by {
        if q / 8 == p / 8 {
            lemma_fundamental_div_mod(q, 8);
            assert(p % 8 != q % 8);
            lemma_byte_with_bit_read_other(data[p / 8], (p % 8) as u8, (q % 8) as u8, v);
        }
    }
}

/// Storing one big-endian bit: the stored position reads back as the
/// bit, every other position is unchanged, and the length is kept.
proof fn lemma_store_bit_be_read(data: Seq<u8>, p: int, v: u64)
    requires
        0 <= p,
        p / 8 < data.len(),
        v <= 1,
    ensures
        store_bit_be(data, p, v).len() == data.len(),
        be_bit(store_bit_be(data, p, v), p) == v,
        forall|q: int|
            0 <= q && q != p && q / 8 < data.len() ==> be_bit(store_bit_be(data, p, v), q)
                == be_bit(data, q),
{
    let stored = store_bit_be(data, p, v);
    lemma_fundamental_div_mod(p, 8);
    lemma_byte_with_bit_read(data[p / 8], (7 - p % 8) as u8, v);
    assert forall|q: int| 0 <= q && q != p && q / 8 < data.len() implies be_bit(stored, q)
        == be_bit(data, q) by {
        if q / 8 == p / 8 {
            lemma_fundamental_div_mod(q, 8);
            assert(p % 8 != q % 8);
            lemma_byte_with_bit_read_other(data[p / 8], (7 - p % 8) as u8, (7 - q % 8) as u8, v);
        }
    }
}

/// A nonnegative position below `8 * len` lies in a byte index below
/// `len`.
proof fn lemma_div8_lt(x: int, len: int)
    requires
        0 <= x,
        x < 8 * len,
    ensures
        x / 8 < len,
{
    lemma_fundamental_div_mod(x, 8);
    vstd::arithmetic::div_mod::lemma_mod_bound(x, 8);
}

/// Shifting right by `a` is shifting right by one, then by `a - 1`.
proof fn lemma_shr_chain()
    by (bit_vector)
    ensures
        forall|v: u64, a: u64|
            1 <= a < 64 ==> #[trigger] (v >> a) == ((v >> 1u64) >> ((a - 1) as u64)),
{
}

/// After the little-endian store, position `start + i` holds bit `i` of
/// `v` for every `i` below `width`, every other position of the buffer is
/// unchanged, and the length is kept.
proof fn lemma_le_store_bits(data: Seq<u8>, start: int, width: nat, v: u64)
    requires
        0 <= start,
        width <= 64,
        start + width <= 8 * data.len(),
    ensures
        le_store(data, start, width, v).len() == data.len(),
        forall|i: int|
            0 <= i < width ==> #[trigger] le_bit(le_store(data, start, width, v), start + i) == (v
                >> (i as u64)) & 1,
        forall|q: int|
            0 <= q && q / 8 < data.len() && !(start <= q < start + width) ==> #[trigger] le_bit(
                le_store(data, start, width, v),
                q,
            ) == le_bit(data, q),
    decreases width,
{
    if width > 0 {
        let prev = le_store(data, start, (width - 1) as nat, v);
        let pp = start + width - 1;
        let w1 = (width - 1) as u64;
        let bitw = (v >> w1) & 1;
        let stored = le_store(data, start, width, v);
        lemma_le_store_bits(data, start, (width - 1) as nat, v);
        lemma_div8_lt(pp, data.len() as int);
        assert((v >> w1) & 1 <= 1) by (bit_vector);
        lemma_store_bit_le_read(prev, pp, bitw);
        assert(stored == store_bit_le(prev, pp, bitw));
        assert forall|i: int| 0 <= i < width implies #[trigger] le_bit(stored, start + i) == (v
            >> (i as u64)) & 1 by {
            lemma_div8_lt(start + i, data.len() as int);
            if i < width - 1 {
                assert(le_bit(prev, start + i) == (v >> (i as u64)) & 1);
            }
        }
        assert forall|q: int|
            0 <= q && q / 8 < data.len() && !(start <= q < start + width) implies #[trigger] le_bit(
            stored,
            q,
        ) == le_bit(data, q) by {
            assert(le_bit(prev, q) == le_bit(data, q));
        }
    }
}

/// After the big-endian store, position `start + j` holds bit
/// `width - 1 - j` of `v` for every `j` below `width`, every other
/// position of the buffer is unchanged, and the length is kept.
proof fn lemma_be_store_bits(data: Seq<u8>, start: int, width: nat, v: u64)
    requires
        0 <= start,
        width <= 64,
        start + width <= 8 * data.len(),
    ensures
        be_store(data, start, width, v).len() == data.len(),
        forall|j: int|
            0 <= j < width ==> #[trigger] be_bit(be_store(data, start, width, v), start + j) == (v
                >> ((width - 1 - j) as u64)) & 1,
        forall|q: int|
            0 <= q && q / 8 < data.len() && !(start <= q < start + width) ==> #[trigger] be_bit(
                be_store(data, start, width, v),
                q,
            ) == be_bit(data, q),
    decreases width,
{
    if width > 0 {
        let prev = be_store(data, start, (width - 1) as nat, v >> 1u64);
        let pp = start + width - 1;
        let bitw = v & 1;
        let stored = be_store(data, start, width, v);
        lemma_be_store_bits(data, start, (width - 1) as nat, v >> 1u64);
        lemma_div8_lt(pp, data.len() as int);
        assert(v & 1 <= 1) by (bit_vector);
        lemma_store_bit_be_read(prev, pp, bitw);
        assert(stored == store_bit_be(prev, pp, bitw));
        lemma_shr_chain();
        assert forall|j: int| 0 <= j < width implies #[trigger] be_bit(stored, start + j) == (v
            >> ((width - 1 - j) as u64)) & 1 by {
            lemma_div8_lt(start + j, data.len() as int);
            if j < width - 1 {
                assert(be_bit(prev, start + j) == ((v >> 1u64) >> ((width - 2 - j) as u64)) & 1);
                let a = (width - 1 - j) as u64;
                assert((v >> a) == ((v >> 1u64) >> ((a - 1) as u64)));
            } else {
                assert(be_bit(stored, pp) == v & 1);
                assert((v >> 0u64) & 1 == v & 1) by (bit_vector);
            }
        }
        assert forall|q: int|
            0 <= q && q / 8 < data.len() && !(start <= q < start + width) implies #[trigger] be_bit(
            stored,
            q,
        ) == be_bit(data, q) by {
            assert(be_bit(prev, q) == be_bit(data, q));
        }
    }
}

/// A little-endian span's value depends only on the bits of the span.
proof fn lemma_le_value_congruence(d1: Seq<u8>, d2: Seq<u8>, start: int, width: nat)
    requires
        forall|i: int| 0 <= i < width ==> #[trigger] le_bit(d1, start + i) == le_bit(d2, start + i),
    ensures
        le_value(d1, start, width) == le_value(d2, start, width),
    decreases width,
{
    if width > 0 {
        lemma_le_value_congruence(d1, d2, start, (width - 1) as nat);
        assert(le_bit(d1, start + (width - 1)) == le_bit(d2, start + (width - 1)));
    }
}

/// A big-endian span's value depends only on the bits of the span.
proof fn lemma_be_value_congruence(d1: Seq<u8>, d2: Seq<u8>, start: int, width: nat)
    requires
        forall|i: int| 0 <= i < width ==> #[trigger] be_bit(d1, start + i) == be_bit(d2, start + i),
    ensures
        be_value(d1, start, width) == be_value(d2, start, width),
    decreases width,
{
    if width > 0 {
        lemma_be_value_congruence(d1, d2, start, (width - 1) as nat);
        assert(be_bit(d1, start + (width - 1)) == be_bit(d2, start + (width - 1)));
    }
}

/// Masking to the low `m` bits keeps each of those bits.
proof fn lemma_mask_keeps_low_bits()
    by (bit_vector)
    ensures
        forall|v: u64, m: u64, i: u64|
            m < 64 && i < m ==> (#[trigger] ((v & (((1u64 << m) - 1) as u64)) >> i)) & 1 == (v
                >> i) & 1,
{
}

/// A buffer whose span bits are the low `width` bits of `v`, little-
/// endian, holds `v` in that span.
proof fn lemma_le_value_from_bits(d: Seq<u8>, start: int, width: nat, v: u64)
    requires
        width <= 64,
        (v as nat) < pow2(width),
        forall|i: int|
            0 <= i < width ==> #[trigger] le_bit(d, start + i) == (v >> (i as u64)) & 1,
    ensures
        le_value(d, start, width) == v,
    decreases width,
{
    lemma2_to64();
    if width == 0 {
        assert(v == 0);
    } else {
        let w = width as u64;
        let m1 = (width - 1) as u64;
        let vlow = v & (((1u64 << m1) - 1) as u64);
        vstd::bits::lemma_u64_pow2_no_overflow(m1 as nat);
        vstd::bits::lemma_u64_shl_is_mul(1u64, m1);
        assert(vlow < (1u64 << m1)) by (bit_vector)
            requires
                m1 < 64,
                vlow == v & (((1u64 << m1) - 1) as u64),
        ;
        lemma_mask_keeps_low_bits();
        assert forall|i: int| 0 <= i < width - 1 implies #[trigger] le_bit(d, start + i) == (vlow
            >> (i as u64)) & 1 by {
            assert((vlow >> (i as u64)) & 1 == (v >> (i as u64)) & 1);
        }
        lemma_le_value_from_bits(d, start, (width - 1) as nat, vlow);
        let bit = (v >> m1) & 1;
        assert(le_bit(d, start + width - 1) == bit);
        if width < 64 {
            vstd::bits::lemma_u64_pow2_no_overflow(w as nat);
            vstd::bits::lemma_u64_shl_is_mul(1u64, w);
            assert(v == vlow + (((v >> m1) & 1) << m1)) by (bit_vector)
                requires
                    w < 64,
                    m1 == w - 1,
                    v < (1u64 << w),
                    vlow == v & (((1u64 << m1) - 1) as u64),
            ;
        } else {
            assert(v == vlow + (((v >> m1) & 1) << m1)) by (bit_vector)
                requires
                    m1 == 63,
                    vlow == v & (((1u64 << m1) - 1) as u64),
            ;
        }
        assert(bit <= 1) by (bit_vector)
            requires
                bit == (v >> m1) & 1,
        ;
        assert(bit * pow2((width - 1) as nat) <= pow2((width - 1) as nat)) by (nonlinear_arith)
            requires
                bit <= 1,
        ;
        vstd::bits::lemma_u64_shl_is_mul(bit, m1);
        assert((bit << m1) == bit as nat * pow2((width - 1) as nat));
    }
}

/// A buffer whose span bits are the low `width` bits of `v`, MSB first,
/// holds `v` in that span.
proof fn lemma_be_value_from_bits(d: Seq<u8>, start: int, width: nat, v: u64)
    requires
        width <= 64,
        (v as nat) < pow2(width),
        forall|j: int|
            0 <= j < width ==> #[trigger] be_bit(d, start + j) == (v >> ((width - 1 - j) as u64))
                & 1,
    ensures
        be_value(d, start, width) == v,
    decreases width,
{
    lemma2_to64();
    if width == 0 {
        assert(v == 0);
    } else {
        let w = width as u64;
        let m1 = (width - 1) as u64;
        let vhi = v >> 1u64;
        if width < 64 {
            vstd::bits::lemma_u64_pow2_no_overflow(w as nat);
            vstd::bits::lemma_u64_shl_is_mul(1u64, w);
            vstd::bits::lemma_u64_pow2_no_overflow(m1 as nat);
            vstd::bits::lemma_u64_shl_is_mul(1u64, m1);
            assert(vhi < (1u64 << m1)) by (bit_vector)
                requires
                    w < 64,
                    m1 == w - 1,
                    v < (1u64 << w),
                    vhi == v >> 1u64,
            ;
        } else {
            vstd::bits::lemma_u64_pow2_no_overflow(63);
            vstd::bits::lemma_u64_shl_is_mul(1u64, 63);
            assert(vhi < (1u64 << 63u64)) by (bit_vector)
                requires
                    vhi == v >> 1u64,
            ;
        }
        lemma_shr_chain();
        assert forall|j: int| 0 <= j < width - 1 implies #[trigger] be_bit(d, start + j) == (vhi
            >> ((width - 2 - j) as u64)) & 1 by {
            let a = (width - 1 - j) as u64;
            assert(be_bit(d, start + j) == (v >> a) & 1);
            assert((v >> a) == ((v >> 1u64) >> ((a - 1) as u64)));
        }
        lemma_be_value_from_bits(d, start, (width - 1) as nat, vhi);
        assert(be_bit(d, start + width - 1) == (v >> 0u64) & 1);
        assert(2 * (v >> 1u64) + ((v >> 0u64) & 1) == v) by (bit_vector);
    }
}

/// Little-endian round trip: packing a value into a buffer with the
/// inverse of the little-endian extraction rule and reading the span back
/// yields the value, for any span that fits the buffer and any value
/// that fits the span.
pub proof fn lemma_le_round_trip(data: Seq<u8>, start: int, width: nat, v: u64)
    requires
        0 <= start,
        1 <= width <= 64,
        start + width <= 8 * data.len(),
        (v as nat) < pow2(width),
    ensures
        le_store(data, start, width, v).len() == data.len(),
        le_value(le_store(data, start, width, v), start, width) == v,
{
    lemma_le_store_bits(data, start, width, v);
    lemma_le_value_from_bits(le_store(data, start, width, v), start, width, v);
}

/// Big-endian round trip: packing a value into a buffer with the inverse
/// of the MSB-first bitstream rule and reading the span back yields the
/// value, for any span that fits the buffer and any value that fits the
/// span.
pub proof fn lemma_be_round_trip(data: Seq<u8>, start: int, width: nat, v: u64)
    requires
        0 <= start,
        1 <= width <= 64,
        start + width <= 8 * data.len(),
        (v as nat) < pow2(width),
    ensures
        be_store(data, start, width, v).len() == data.len(),
        be_value(be_store(data, start, width, v), start, width) == v,
{
    lemma_be_store_bits(data, start, width, v);
    lemma_be_value_from_bits(be_store(data, start, width, v), start, width, v);
}

} // verus!
