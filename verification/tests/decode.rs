use can_decode::ByteOrder;
use can_decode::SignalLayout;
use can_decode::decode_signal;
use can_decode::extract_signal_value;
use can_decode::sign_extend;

/// Packs the low `width` bits of `v` into a fresh `len`-byte buffer at
/// `start`, using the inverse of the little-endian extraction rule.
fn pack_le(len: usize, start: usize, width: usize, v: u64) -> Vec<u8> {
    let mut buf = vec![0u8; len];
    for i in 0..width {
        if (v >> i) & 1 == 1 {
            let p = start + i;
            buf[p / 8] |= 1u8 << (p % 8);
        }
    }
    buf
}

/// Packs the low `width` bits of `v` into a fresh `len`-byte buffer at
/// `start`, using the inverse of the MSB-first bitstream rule.
fn pack_be(len: usize, start: usize, width: usize, v: u64) -> Vec<u8> {
    let mut buf = vec![0u8; len];
    for j in 0..width {
        if (v >> (width - 1 - j)) & 1 == 1 {
            let p = start + j;
            buf[p / 8] |= 1u8 << (7 - p % 8);
        }
    }
    buf
}

fn layout(
    name: &str,
    start_bit: usize,
    bit_width: usize,
    byte_order: ByteOrder,
    signed: bool,
) -> SignalLayout {
    SignalLayout {
        name: name.to_string(),
        start_bit,
        bit_width,
        byte_order,
        signed,
        unit: String::new(),
    }
}

#[test]
fn extracted_value_is_in_range() {
    let data = [0xFFu8; 8];
    for width in 1..=64usize {
        let v = extract_signal_value(&data, 0, width, ByteOrder::LittleEndian).unwrap();
        if width < 64 {
            assert!(u128::from(v) < (1u128 << width));
        }
        let w = extract_signal_value(&data, 0, width, ByteOrder::BigEndian).unwrap();
        if width < 64 {
            assert!(u128::from(w) < (1u128 << width));
        }
    }
}

#[test]
fn little_endian_round_trip() {
    let widths = [1usize, 4, 8, 16, 32, 64];
    let starts = [0usize, 3, 8, 13];
    for &width in widths.iter() {
        for &start in starts.iter() {
            let v: u64 = if width == 64 {
                0x9A3F_5C01_DEAD_BEEF
            } else {
                0x9A3F_5C01_DEAD_BEEFu64 & ((1u64 << width) - 1)
            };
            let buf = pack_le(10, start, width, v);
            let got = extract_signal_value(&buf, start, width, ByteOrder::LittleEndian).unwrap();
            assert_eq!(got, v);
        }
    }
}

#[test]
fn big_endian_round_trip() {
    let widths = [1usize, 4, 8, 16, 32, 64];
    let starts = [0usize, 3, 8, 13];
    for &width in widths.iter() {
        for &start in starts.iter() {
            let v: u64 = if width == 64 {
                0x0123_4567_89AB_CDEF
            } else {
                0x0123_4567_89AB_CDEFu64 & ((1u64 << width) - 1)
            };
            let buf = pack_be(10, start, width, v);
            let got = extract_signal_value(&buf, start, width, ByteOrder::BigEndian).unwrap();
            assert_eq!(got, v);
        }
    }
}

#[test]
fn sign_extension_at_width_8_and_1() {
    assert_eq!(sign_extend(0xFF, 8), -1);
    assert_eq!(sign_extend(0x7F, 8), 127);
    assert_eq!(sign_extend(1, 1), -1);
    assert_eq!(sign_extend(0, 1), 0);
}

#[test]
fn sign_extension_through_decode() {
    let data = [0xFFu8];
    let d = decode_signal(&layout("s", 0, 8, ByteOrder::LittleEndian, true), &data).unwrap();
    assert_eq!(d.raw, -1);
    let data = [0x7Fu8];
    let d = decode_signal(&layout("s", 0, 8, ByteOrder::LittleEndian, true), &data).unwrap();
    assert_eq!(d.raw, 127);
    let data = [0x01u8];
    let d = decode_signal(&layout("s", 0, 1, ByteOrder::LittleEndian, true), &data).unwrap();
    assert_eq!(d.raw, -1);
    let data = [0x00u8];
    let d = decode_signal(&layout("s", 0, 1, ByteOrder::LittleEndian, true), &data).unwrap();
    assert_eq!(d.raw, 0);
}

#[test]
fn sign_extension_at_width_64() {
    assert_eq!(sign_extend(u64::MAX, 64), -1);
    assert_eq!(sign_extend(1u64 << 63, 64), i64::MIN);
    assert_eq!(sign_extend(i64::MAX as u64, 64), i64::MAX);
}

#[test]
fn scaling_raw_value_by_half_plus_ten() {
    // Raw unsigned 16 with scale factor 0.5 and offset 10.0 gives the
    // physical value 18.0; the library hands out the raw value and the
    // caller applies the IEEE-754 arithmetic.
    let data = [16u8];
    let d = decode_signal(&layout("s", 0, 8, ByteOrder::LittleEndian, false), &data).unwrap();
    assert_eq!(d.raw, 16);
    let physical = d.raw as f64 * 0.5 + 10.0;
    assert_eq!(physical, 18.0);
}

#[test]
fn out_of_range_span_fails() {
    let data = [0u8; 8];
    assert!(extract_signal_value(&data, 60, 8, ByteOrder::LittleEndian).is_none());
    assert!(extract_signal_value(&data, 60, 8, ByteOrder::BigEndian).is_none());
    assert!(decode_signal(&layout("s", 60, 8, ByteOrder::LittleEndian, false), &data).is_none());
}

#[test]
fn zero_width_span_fails() {
    let data = [0xFFu8; 8];
    assert!(extract_signal_value(&data, 0, 0, ByteOrder::LittleEndian).is_none());
    assert!(extract_signal_value(&data, 5, 0, ByteOrder::BigEndian).is_none());
    assert!(decode_signal(&layout("s", 0, 0, ByteOrder::LittleEndian, false), &data).is_none());
}

#[test]
fn empty_buffer_fails() {
    let data: [u8; 0] = [];
    assert!(extract_signal_value(&data, 0, 1, ByteOrder::LittleEndian).is_none());
    assert!(extract_signal_value(&data, 0, 1, ByteOrder::BigEndian).is_none());
}

#[test]
fn width_above_accumulator_fails() {
    let data = [0u8; 16];
    assert!(extract_signal_value(&data, 0, 65, ByteOrder::LittleEndian).is_none());
    assert!(extract_signal_value(&data, 0, 65, ByteOrder::BigEndian).is_none());
}

#[test]
fn known_little_endian_byte() {
    let data = [0x12u8, 0x34, 0x56, 0x78, 0x9A, 0xBC, 0xDE, 0xF0];
    let got = extract_signal_value(&data, 0, 8, ByteOrder::LittleEndian).unwrap();
    assert_eq!(got, 0x12);
    let d = decode_signal(&layout("s", 0, 8, ByteOrder::LittleEndian, false), &data).unwrap();
    assert_eq!(d.raw, 18);
}

#[test]
fn little_endian_span_across_byte_boundary() {
    let data = [0xFFu8, 0x01];
    let got = extract_signal_value(&data, 4, 8, ByteOrder::LittleEndian).unwrap();
    assert_eq!(got, 0x1F);
}

#[test]
fn big_endian_msb_first_bits() {
    // 0xB2 is 1011_0010; reading three bits MSB-first from position 0
    // gives 101 in binary.
    let data = [0xB2u8];
    let got = extract_signal_value(&data, 0, 3, ByteOrder::BigEndian).unwrap();
    assert_eq!(got, 5);
    // Reading past the high nibble: positions 4..=6 hold 001.
    let got = extract_signal_value(&data, 4, 3, ByteOrder::BigEndian).unwrap();
    assert_eq!(got, 1);
}

#[test]
fn full_width_unsigned_and_signed() {
    let data = [0xFFu8; 8];
    let got = extract_signal_value(&data, 0, 64, ByteOrder::LittleEndian).unwrap();
    assert_eq!(got, u64::MAX);
    let d = decode_signal(&layout("s", 0, 64, ByteOrder::LittleEndian, true), &data).unwrap();
    assert_eq!(d.raw, -1);
    let d = decode_signal(&layout("s", 0, 64, ByteOrder::LittleEndian, false), &data).unwrap();
    assert_eq!(d.raw, u64::MAX as i128);
}

#[test]
fn decoded_signal_carries_name_and_unit() {
    let data = [0x2Au8];
    let def = SignalLayout {
        name: "speed".to_string(),
        start_bit: 0,
        bit_width: 8,
        byte_order: ByteOrder::LittleEndian,
        signed: false,
        unit: "km/h".to_string(),
    };
    let d = decode_signal(&def, &data).unwrap();
    assert_eq!(d.name, "speed");
    assert_eq!(d.unit, "km/h");
    assert_eq!(d.raw, 42);
}
