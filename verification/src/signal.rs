//! Signal layouts and the decoding of a single signal from a frame payload.

use vstd::prelude::*;
use vstd::arithmetic::power2::pow2;
use crate::extract::ByteOrder;
use crate::extract::extract_ok;
use crate::extract::extracted_value;
use crate::extract::sign_extended;
use crate::extract::extract_signal_value;
use crate::extract::sign_extend;

verus! {

/// Immutable description of one bit field within a frame: where it starts,
/// how wide it is, how its bits are packed, and how the raw value is to be
/// read. The IEEE-754 scale factor and offset that turn the raw value into
/// a physical quantity are applied by the caller and are not part of this
/// record.
pub struct SignalLayout {
    /// Identifier of the signal, unique within its message.
    pub name: String,
    /// 0-based bit position where the span starts; the origin and the
    /// direction of travel depend on `byte_order`.
    pub start_bit: usize,
    /// Number of bits in the span, 1 to 64 for a decodable signal.
    pub bit_width: usize,
    /// Which of the two packing conventions the span uses.
    pub byte_order: ByteOrder,
    /// Whether the raw value is read as a two's-complement quantity.
    pub signed: bool,
    /// Unit of measurement of the physical value; may be empty.
    pub unit: String,
}

impl Clone for SignalLayout {
    /// An exact copy: every field of the copy equals the original's.
    fn clone(&self) -> (r: Self)
        ensures
            r == *self,
    {
        SignalLayout {
            name: self.name.clone(),
            start_bit: self.start_bit,
            bit_width: self.bit_width,
            byte_order: self.byte_order,
            signed: self.signed,
            unit: self.unit.clone(),
        }
    }
}

/// One decoded signal: its name, its sign-interpreted raw value, and its
/// unit. The physical value is `raw` times the layout's scale factor plus
/// its offset, computed by the caller in floating point.
pub struct DecodedSignal {
    /// Name of the signal, as in its layout.
    pub name: String,
    /// The raw span contents after sign interpretation: in
    /// `[-pow2(63), pow2(64))`, so a 64-bit quantity of either signedness
    /// fits exactly.
    pub raw: i128,
    /// Unit of measurement, as in the layout.
    pub unit: String,
}

impl Clone for DecodedSignal {
    /// An exact copy: every field of the copy equals the original's.
    fn clone(&self) -> (r: Self)
        ensures
            r == *self,
    {
        DecodedSignal { name: self.name.clone(), raw: self.raw, unit: self.unit.clone() }
    }
}

/// The layout's span can be read from `data`.
pub open spec fn signal_ok(layout: SignalLayout, data: Seq<u8>) -> bool {
    extract_ok(data.len(), layout.start_bit as nat, layout.bit_width as nat)
}

/// The sign-interpreted raw value of the layout's span in `data`.
pub open spec fn raw_of(layout: SignalLayout, data: Seq<u8>) -> int {
    let u = extracted_value(data, layout.start_bit as nat, layout.bit_width as nat,
        layout.byte_order);
    if layout.signed {
        sign_extended(u, layout.bit_width as nat)
    } else {
        u as int
    }
}

/// The decoded record for the layout's span in `data`.
pub open spec fn decoded_of(layout: SignalLayout, data: Seq<u8>) -> DecodedSignal {
    DecodedSignal { name: layout.name, raw: raw_of(layout, data) as i128, unit: layout.unit }
}

/// Decodes one signal from a frame payload: extracts the raw span under
/// the layout's byte order and applies sign interpretation when the layout
/// is signed.
///
/// Returns `None` exactly when the span cannot be read (zero width, width
/// above 64, or a span that runs past the buffer); decoding has no other
/// failure mode.
pub fn decode_signal(signal_def: &SignalLayout, data: &[u8]) -> (r: Option<DecodedSignal>)
    ensures
        r.is_some() <==> signal_ok(*signal_def, data@),
        match r {
            Some(d) => d == decoded_of(*signal_def, data@),
            None => true,
        },
{
    let raw_value: u64 = match extract_signal_value(
        data,
        signal_def.start_bit,
        signal_def.bit_width,
        signal_def.byte_order,
    ) {
        Some(v) => v,
        None => {
            return None;
        },
    };
    let adjusted: i128 = if signal_def.signed {
        sign_extend(raw_value, signal_def.bit_width) as i128
    } else {
        raw_value as i128
    };
    Some(
        DecodedSignal {
            name: signal_def.name.clone(),
            raw: adjusted,
            unit: signal_def.unit.clone(),
        },
    )
}

} // verus!
