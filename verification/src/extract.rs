//! Reading a raw bit span out of a byte buffer, and two's-complement sign
//! interpretation of the result.

use vstd::prelude::*;
use vstd::arithmetic::power2::pow2;
use vstd::arithmetic::power2::lemma_pow2_adds;
use vstd::arithmetic::power2::lemma_pow2_strictly_increases;
use vstd::arithmetic::power2::lemma2_to64;
use vstd::arithmetic::power2::lemma2_to64_rest;
use vstd::arithmetic::div_mod::lemma_fundamental_div_mod;
use vstd::arithmetic::div_mod::lemma_fundamental_div_mod_converse;
use vstd::bits::lemma_u64_pow2_no_overflow;
use vstd::bits::lemma_u64_shl_is_mul;
use crate::bitfield::le_value;
use crate::bitfield::be_value;
use crate::bitfield::be_bit;
use crate::bitfield::lemma_le_value_bound;
use crate::bitfield::lemma_be_value_bound;
use crate::bitfield::lemma_le_value_split;
use crate::bitfield::lemma_le_chunk;
use crate::bitfield::le_store;
use crate::bitfield::be_store;
use crate::bitfield::lemma_le_round_trip;
use crate::bitfield::lemma_be_round_trip;

verus! {

/// The two bit-packing conventions a signal layout may use.
#[derive(Clone, Copy, Debug, PartialEq, Eq, Hash, Structural)]
pub enum ByteOrder {
    LittleEndian,
    BigEndian,
}

/// A requested span is readable exactly when it has at least one bit, no
/// more than the 64 the accumulator can hold, and lies inside the buffer.
pub open spec fn extract_ok(len: nat, start: nat, width: nat) -> bool {
    &&& 1 <= width
    &&& width <= 64
    &&& start + width <= 8 * len
}

/// The raw unsigned value of the span, under the given convention.
pub open spec fn extracted_value(data: Seq<u8>, start: nat, width: nat, order: ByteOrder) -> nat {
    match order {
        ByteOrder::LittleEndian => le_value(data, start as int, width),
        ByteOrder::BigEndian => be_value(data, start as int, width),
    }
}

/// Reads the `size`-bit span at `start_bit` from `data` under `byte_order`.
///
/// Returns `None` exactly when the span is empty, wider than the 64-bit
/// accumulator, or runs past the end of the buffer (an empty buffer always
/// fails this way); otherwise the raw unsigned value, which is below
/// `pow2(size)`.
pub fn extract_signal_value(data: &[u8], start_bit: usize, size: usize, byte_order: ByteOrder) -> (r:
    Option<u64>)
    ensures
        r.is_some() <==> extract_ok(data@.len(), start_bit as nat, size as nat),
        match r {
            Some(v) => v as nat == extracted_value(data@, start_bit as nat, size as nat, byte_order)
                && (v as nat) < pow2(size as nat),
            None => true,
        },
{
    if size == 0 || size > 64 {
        return None;
    }
    if (start_bit as u128) + (size as u128) > 8u128 * (data.len() as u128) {
        return None;
    }
    match byte_order {
        ByteOrder::LittleEndian => {
            let start_byte: usize = start_bit / 8;
            let start_off: usize = start_bit % 8;
            let mut remaining: usize = size;
            let mut current_byte: usize = start_byte;
            let mut bit_offset: usize = start_off;
            let mut result: u64 = 0;
            proof {
                lemma_fundamental_div_mod(start_bit as int, 8);
            }
            while remaining > 0 && current_byte < data.len()
                invariant
                    1 <= size <= 64,
                    remaining <= size,
                    start_bit + size <= 8 * data@.len(),
                    result as nat == le_value(data@, start_bit as int, (size - remaining) as nat),
                    remaining > 0 ==> 8 * current_byte + bit_offset == start_bit + (size
                        - remaining),
                    remaining > 0 ==> bit_offset < 8,
                decreases remaining,
            {
                let ghost consumed0: int = size - remaining;
                let ghost pos: int = start_bit + consumed0;
                let n: usize = if remaining < 8 - bit_offset {
                    remaining
                } else {
                    8 - bit_offset
                };
                let b: u8 = data[current_byte];
                proof {
                    let m = n as u64;
                    assert((1u64 << m) >= 1) by (bit_vector)
                        requires
                            m <= 8,
                    ;
                }
                let mask: u64 = ((1u64 << (n as u64)) - 1) << (bit_offset as u64);
                let byte_value: u64 = ((b as u64) & mask) >> (bit_offset as u64);
                let ghost r0: u64 = result;
                result = result | (byte_value << ((size - remaining) as u64));
                proof {
                    let bu = b as u64;
                    let off = bit_offset as u64;
                    let m = n as u64;
                    let c = consumed0 as u64;
                    lemma_fundamental_div_mod_converse(pos, 8, current_byte as int,
                        bit_offset as int);
                    lemma_le_chunk(data@, pos, n as nat);
                    assert(((bu & ((((1u64 << m) - 1) as u64) << off)) >> off) == (bu >> off) & ((((
                    1u64 << m) - 1)) as u64)) by (bit_vector)
                        requires
                            off < 8,
                            1 <= m <= 8,
                    ;
                    assert(byte_value == le_value(data@, pos, n as nat));
                    assert((bu >> off) & ((((1u64 << m) - 1)) as u64) < (1u64 << m)) by (bit_vector)
                        requires
                            1 <= m <= 8,
                    ;
                    lemma_le_value_bound(data@, start_bit as int, consumed0 as nat);
                    lemma_u64_pow2_no_overflow(c as nat);
                    lemma_u64_shl_is_mul(1u64, c);
                    lemma_u64_pow2_no_overflow(m as nat);
                    lemma_u64_shl_is_mul(1u64, m);
                    assert((r0 | (byte_value << c)) == r0 + byte_value * ((1u64 << c) as u64)) by (
                    bit_vector)
                        requires
                            r0 < (1u64 << c),
                            byte_value < (1u64 << m),
                            1 <= m <= 8,
                            c + m <= 64,
                            c < 64,
                    ;
                    lemma_le_value_split(data@, start_bit as int, consumed0 as nat, n as nat);
                    assert(byte_value * pow2(consumed0 as nat) == pow2(consumed0 as nat)
                        * le_value(data@, pos, n as nat)) by (nonlinear_arith)
                        requires
                            byte_value == le_value(data@, pos, n as nat),
                    ;
                    assert(result as nat == le_value(data@, start_bit as int, (consumed0
                        + n) as nat));
                }
                remaining = remaining - n;
                current_byte = current_byte + 1;
                bit_offset = 0;
            }
            proof {
                if remaining > 0 {
                    assert(8 * current_byte < 8 * data@.len());
                }
                lemma_le_value_bound(data@, start_bit as int, size as nat);
            }
            Some(result)
        },
        ByteOrder::BigEndian => {
            let mut result: u64 = 0;
            let mut k: usize = 0;
            while k < size
                invariant
                    1 <= size <= 64,
                    k <= size,
                    start_bit + size <= 8 * data@.len(),
                    result as nat == be_value(data@, start_bit as int, k as nat),
                decreases size - k,
            {
                let ghost pi: int = start_bit + k;
                let p: u128 = start_bit as u128 + k as u128;
                proof {
                    lemma_fundamental_div_mod(pi, 8);
                }
                let byte_idx: usize = (p / 8) as usize;
                let bit_in: u8 = 7 - ((p % 8) as u8);
                let b: u8 = data[byte_idx];
                let bit_val: u8 = (b >> bit_in) & 1;
                let ghost r0: u64 = result;
                result = (result << 1) | (bit_val as u64);
                proof {
                    let r8 = (pi % 8) as u8;
                    assert((((b >> ((7 - r8) as u8)) & 1) as u64) == ((b as u64) >> (((7
                        - r8)) as u64)) & 1) by (bit_vector)
                        requires
                            r8 < 8,
                    ;
                    assert(be_bit(data@, pi) == bit_val as u64);
                    lemma_be_value_bound(data@, start_bit as int, k as nat);
                    if (k as nat) < 63 {
                        lemma_pow2_strictly_increases(k as nat, 63);
                    }
                    lemma2_to64_rest();
                    assert(bit_val <= 1) by (bit_vector)
                        requires
                            bit_val == (b >> bit_in) & 1,
                    ;
                    assert(((r0 << 1) | (bit_val as u64)) == 2 * r0 + (bit_val as u64)) by (
                    bit_vector)
                        requires
                            r0 < 0x8000000000000000u64,
                            bit_val <= 1,
                    ;
                    assert(result as nat == be_value(data@, start_bit as int, (k + 1) as nat));
                }
                k = k + 1;
            }
            proof {
                lemma_be_value_bound(data@, start_bit as int, size as nat);
            }
            Some(result)
        },
    }
}

/// Two's-complement reading of a `width`-bit raw value: if the bit at
/// position `width - 1` is set, the value denotes `raw - pow2(width)`,
/// otherwise `raw` itself.
pub open spec fn sign_extended(raw: nat, width: nat) -> int
    recommends
        1 <= width <= 64,
        raw < pow2(width),
{
    if raw >= pow2((width - 1) as nat) {
        raw - pow2(width)
    } else {
        raw as int
    }
}

/// Reinterprets a `bit_width`-bit raw value as a signed quantity by
/// two's-complement sign extension at exactly that width.
pub fn sign_extend(raw: u64, bit_width: usize) -> (r: i64)
    requires
        1 <= bit_width <= 64,
        (raw as nat) < pow2(bit_width as nat),
    ensures
        r as int == sign_extended(raw as nat, bit_width as nat),
{
    let s: u64 = (bit_width - 1) as u64;
    proof {
        lemma_u64_pow2_no_overflow(s as nat);
        lemma_u64_shl_is_mul(1u64, s);
        if (bit_width as nat) < 64 {
            lemma_u64_pow2_no_overflow(bit_width as nat);
            lemma_u64_shl_is_mul(1u64, bit_width as u64);
        }
        lemma2_to64_rest();
    }
    let sign_bit: u64 = 1u64 << s;
    if raw & sign_bit == 0 {
        proof {
            assert(raw & (1u64 << s) == 0 && s < 63 && raw < (1u64 << ((s + 1) as u64)) ==> raw < (
            1u64 << s)) by (bit_vector);
            assert(raw & (1u64 << s) == 0 && s == 63 ==> raw < (1u64 << s)) by (bit_vector);
            if (s as nat) < 63 {
                lemma_pow2_strictly_increases(s as nat, 63);
            }
            assert(raw < pow2(s as nat));
            assert(raw < 0x8000000000000000u64);
        }
        raw as i64
    } else {
        proof {
            assert(raw & (1u64 << s) != 0 ==> raw >= (1u64 << s)) by (bit_vector);
        }
        let mag: u64 = if bit_width == 64 {
            proof {
                assert(raw >= 0x8000000000000000u64 ==> (!raw) + 1
                    == 0x10000000000000000 - raw) by (bit_vector);
            }
            (!raw) + 1
        } else {
            (1u64 << (bit_width as u64)) - raw
        };
        proof {
            if (bit_width as nat) < 64 {
                lemma_pow2_adds((bit_width - 1) as nat, 1);
                lemma2_to64();
            } else {
                lemma_pow2_adds(63, 1);
                lemma2_to64();
            }
            assert(1 <= mag <= 0x8000000000000000u64);
        }
        -((mag - 1) as i64) - 1
    }
}

/// The inverse packing rule for the given byte order: writes the low
/// `width` bits of `v` into the span, leaving the rest of the buffer
/// unchanged.
pub open spec fn store_value(data: Seq<u8>, start: nat, width: nat, v: u64, order: ByteOrder) -> Seq<
    u8,
> {
    match order {
        ByteOrder::LittleEndian => le_store(data, start as int, width, v),
        ByteOrder::BigEndian => be_store(data, start as int, width, v),
    }
}

/// Round trip under either convention: packing a value into a buffer
/// with the inverse of that convention's extraction rule and extracting
/// the same span back yields the value, for every span that fits the
/// buffer and every value that fits the span.
pub proof fn lemma_store_extract_round_trip(
    data: Seq<u8>,
    start: nat,
    width: nat,
    v: u64,
    order: ByteOrder,
)
    requires
        extract_ok(data.len(), start, width),
        (v as nat) < pow2(width),
    ensures
        store_value(data, start, width, v, order).len() == data.len(),
        extracted_value(store_value(data, start, width, v, order), start, width, order) == v,
{
    match order {
        ByteOrder::LittleEndian => {
            lemma_le_round_trip(data, start as int, width, v);
        },
        ByteOrder::BigEndian => {
            lemma_be_round_trip(data, start as int, width, v);
        },
    }
}

} // verus!
