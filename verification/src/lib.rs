//! A color-format conversion library: a textual color in hexadecimal,
//! functional RGBA or fractional percent notation is parsed into a
//! canonical four-channel byte value and re-serialized into any of the
//! three notations.
//!
//! Two conventions hold throughout. Conversion between a channel byte and
//! a fraction rounds half away from zero, computed exactly over integers.
//! A field that reads as a number but falls outside its domain — a channel
//! above 255, a fraction outside [0, 1] — is rejected with
//! [`ColorError::OutOfRange`], never clamped.
pub mod color;
pub mod detect;
pub mod dispatch;
pub mod hex;
pub mod numeric;
pub mod percent;
pub mod rgb;
pub mod text;

pub use color::Color;
pub use color::ColorError;
pub use color::Output;
pub use dispatch::convert;
pub use dispatch::parse_color;
pub use dispatch::transform_color;
pub use hex::decode_hex;
pub use hex::encode_hex;
pub use hex::pad_hex;
