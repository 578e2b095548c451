//! The canonical color value, the output notations, and the errors a
//! conversion can report.
use vstd::prelude::*;
use vstd::string::StringExecFns;

verus! {

/// A canonical color: four channels, each a byte in [0, 255].
#[derive(Debug, Clone, Copy, PartialEq, Eq, Structural)]
pub struct Color {
    pub r: u8,
    pub g: u8,
    pub b: u8,
    pub a: u8,
}

/// One of the three accepted color notations, as an output choice.
#[derive(Debug, Clone, Copy, PartialEq, Eq, Structural)]
pub enum Output {
    Hex,
    Rgb,
    Percent,
}

/// Why an input could not be converted.
#[derive(Debug, Clone, Copy, PartialEq, Eq, Structural)]
pub enum ColorError {
    /// The input matches none of the three notations' shapes.
    UnrecognizedFormat,
    /// A hexadecimal input with a wrong digit count or a stray character.
    MalformedHex,
    /// An `rgb(..)`/`rgba(..)` input with a wrong field count or an
    /// unreadable field.
    MalformedRgb,
    /// A percent input with a field count other than four or an unreadable
    /// field.
    MalformedPercent,
    /// A field that reads as a number but falls outside its channel's
    /// domain.
    OutOfRange,
}

impl ColorError {
    /// A short description of the error.
    pub fn message(&self) -> (r: String)
        ensures
            r@ == match self {
                ColorError::UnrecognizedFormat => "input matches no color notation"@,
                ColorError::MalformedHex => "malformed hexadecimal color"@,
                ColorError::MalformedRgb => "malformed rgb color"@,
                ColorError::MalformedPercent => "malformed percent color"@,
                ColorError::OutOfRange => "channel value out of range"@,
            },
    {
        match self {
            ColorError::UnrecognizedFormat => String::from_str("input matches no color notation"),
            ColorError::MalformedHex => String::from_str("malformed hexadecimal color"),
            ColorError::MalformedRgb => String::from_str("malformed rgb color"),
            ColorError::MalformedPercent => String::from_str("malformed percent color"),
            ColorError::OutOfRange => String::from_str("channel value out of range"),
        }
    }
}

} // verus!
