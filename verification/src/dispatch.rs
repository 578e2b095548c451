//! The dispatcher: detects which notation an input has, parses it into a
//! canonical color, and serializes the color into the requested notation.
use vstd::prelude::*;

use crate::color::{Color, ColorError, Output};
use crate::detect::{
    hex_shape, is_hex_shape, is_percent_shape, is_rgb_shape, percent_shape, rgb_shape,
};
use crate::hex::{from_hex_spec, to_hex_spec};
use crate::percent::{from_percent_spec, to_percent_spec};
use crate::rgb::{from_rgb_spec, to_rgba_spec};

verus! {

/// What parsing an input of unknown notation returns: the shapes are
/// tried in the order hex, RGBA, percent, and the matching parser
/// decides; an input of no shape is unrecognized.
pub open spec fn parse_color_spec(s: Seq<char>) -> Result<Color, ColorError> {
    if hex_shape(s) {
        from_hex_spec(s)
    } else if rgb_shape(s) {
        from_rgb_spec(s)
    } else if percent_shape(s) {
        from_percent_spec(s)
    } else {
        Err(ColorError::UnrecognizedFormat)
    }
}

/// What serializing a color into a chosen notation returns.
pub open spec fn transform_color_spec(output: Output, c: Color) -> Seq<char> {
    match output {
        Output::Hex => to_hex_spec(c),
        Output::Rgb => to_rgba_spec(c),
        Output::Percent => to_percent_spec(c),
    }
}

/// What a whole conversion returns.
pub open spec fn convert_spec(s: Seq<char>, target: Output) -> Result<Seq<char>, ColorError> {
    match parse_color_spec(s) {
        Ok(c) => Ok(transform_color_spec(target, c)),
        Err(e) => Err(e),
    }
}

/// Parses an input of unknown notation into a canonical color.
pub fn parse_color(input: &str) -> (r: Result<Color, ColorError>)
    ensures
        r == parse_color_spec(input@),
{
    if is_hex_shape(input) {
        Color::from_hex(input)
    } else if is_rgb_shape(input) {
        Color::from_rgb(input)
    } else if is_percent_shape(input) {
        Color::from_percent(input)
    } else {
        Err(ColorError::UnrecognizedFormat)
    }
}

/// Serializes a color into the requested notation.
pub fn transform_color(output: Output, color: Color) -> (r: String)
    ensures
        r@ == transform_color_spec(output, color),
{
    match output {
        Output::Hex => color.to_hex(),
        Output::Rgb => color.to_rgba(),
        Output::Percent => color.to_percent(),
    }
}

/// Converts a textual color into the requested notation: one parse, one
/// serialization.
pub fn convert(input: &str, target: Output) -> (r: Result<String, ColorError>)
    ensures
        match r {
            Ok(out) => convert_spec(input@, target) == Ok::<Seq<char>, ColorError>(out@),
            Err(e) => convert_spec(input@, target) == Err::<Seq<char>, ColorError>(e),
        },
{
    match parse_color(input) {
        Ok(c) => Ok(transform_color(target, c)),
        Err(e) => Err(e),
    }
}

} // verus!
