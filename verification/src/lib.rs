//! Length-prefixed binary sequence codecs.
//!
//! A sequence of elements is laid out on the wire as a fixed-width
//! little-endian count prefix followed by the elements' own encodings,
//! back to back, with no padding and no terminator. Two prefix widths
//! are provided: one byte (at most 255 elements) and two bytes (at most
//! 65 535 elements). Encoding refuses a sequence the prefix cannot
//! count; decoding defends against truncated or hostile input, never
//! returns a partial sequence, and never lets a claimed count drive
//! memory reservation past a fixed byte budget.

pub mod codec;
pub mod element;
pub mod elements;
pub mod error;
pub mod hint;
pub mod u16_prefix_vec;
pub mod u8_prefix_vec;

pub use u16_prefix_vec::U16PrefixVec;
pub use u8_prefix_vec::U8PrefixVec;
