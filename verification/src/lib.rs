//! A bidirectional codec between a legacy Shift-JIS byte encoding and Unicode
//! scalar values.
//!
//! The double-byte plane is driven by a pair of lookup tables ([`Tables`])
//! that are built once from raw association data and validated on
//! construction; ASCII and half-width katakana are handled by closed-form
//! byte-range arithmetic.  On top of the per-character primitives
//! ([`encode_char`], [`decode_char`], [`decode_char_from`]) sit whole-string
//! strict and lossy operations ([`encode`], [`encode_lossy`], [`decode`],
//! [`decode_lossy`]) with precise error-offset reporting.

pub mod codec;
pub mod laws;
pub mod tables;

pub use codec::EncodedChar;
pub use codec::decode;
pub use codec::decode_char;
pub use codec::decode_char_from;
pub use codec::decode_lossy;
pub use codec::encode;
pub use codec::encode_char;
pub use codec::encode_lossy;
pub use tables::Tables;
