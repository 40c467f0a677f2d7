//! Decoding of raw frame payloads from a field bus into named, physically
//! scaled signal values, driven by declarative signal layouts.
//!
//! The crate covers the integer core of that job: reading an arbitrary bit
//! span out of a byte buffer under either of two byte-order conventions,
//! two's-complement sign interpretation at any width up to 64 bits, and a
//! catalog that maps frame identifiers to message definitions. Applying the
//! IEEE-754 scale factor and offset to the sign-interpreted raw value is left
//! to the caller, who receives that value exactly.

pub mod bitfield;
pub mod extract;
pub mod signal;
pub mod catalog;

pub use extract::ByteOrder;
pub use extract::extract_signal_value;
pub use extract::sign_extend;
pub use signal::SignalLayout;
pub use signal::DecodedSignal;
pub use signal::decode_signal;
pub use catalog::MessageDef;
pub use catalog::DecodedMessage;
pub use catalog::Parser;
