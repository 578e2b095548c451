//! The functional RGBA notation: `rgb(` or `rgba(`, three whole channel
//! values in [0, 255], an optional alpha fraction in [0, 1], and `)`.
use vstd::prelude::*;

use crate::color::{Color, ColorError};
use crate::numeric::{
    frac_byte, frac_in_range, frac_syntax, int_syntax, int_value, milli_spec, parse_frac_field,
    parse_int_field, u8_to_milli, FieldError,
};
use crate::text::{
    chars_of, copy_range, dec_str, milli_str, push_char, push_dec_u8, push_milli, split_commas,
    split_fields, trim, trim_chars,
};

verus! {

/// What the comma-separated fields between the parentheses yield: the
/// first three are whole bytes, a fourth is an alpha fraction, and a
/// missing fourth means opaque; fields are read left to right, an
/// unreadable one is malformed and a readable one outside its domain is
/// out of range.
pub open spec fn rgb_fields_spec(body: Seq<char>) -> Result<Color, ColorError> {
    let fs = split_fields(body);
    if fs.len() != 3 && fs.len() != 4 {
        Err(ColorError::MalformedRgb)
    } else {
        let rf = trim(fs[0]);
        let gf = trim(fs[1]);
        let bf = trim(fs[2]);
        if !int_syntax(rf) {
            Err(ColorError::MalformedRgb)
        } else if int_value(rf) > 255 {
            Err(ColorError::OutOfRange)
        } else if !int_syntax(gf) {
            Err(ColorError::MalformedRgb)
        } else if int_value(gf) > 255 {
            Err(ColorError::OutOfRange)
        } else if !int_syntax(bf) {
            Err(ColorError::MalformedRgb)
        } else if int_value(bf) > 255 {
            Err(ColorError::OutOfRange)
        } else if fs.len() == 3 {
            Ok(
                Color {
                    r: int_value(rf) as u8,
                    g: int_value(gf) as u8,
                    b: int_value(bf) as u8,
                    a: 255,
                },
            )
        } else {
            let af = trim(fs[3]);
            if !frac_syntax(af) {
                Err(ColorError::MalformedRgb)
            } else if !frac_in_range(af) {
                Err(ColorError::OutOfRange)
            } else {
                Ok(
                    Color {
                        r: int_value(rf) as u8,
                        g: int_value(gf) as u8,
                        b: int_value(bf) as u8,
                        a: frac_byte(af) as u8,
                    },
                )
            }
        }
    }
}

/// What parsing an RGBA input returns: outer whitespace dropped, an
/// `rgb(` or `rgba(` wrapper around the fields, and a closing `)`.
pub open spec fn from_rgb_spec(s: Seq<char>) -> Result<Color, ColorError> {
    let t = trim(s);
    if t.len() >= 6 && t[0] == 'r' && t[1] == 'g' && t[2] == 'b' && t[3] == 'a' && t[4] == '('
        && t.last() == ')' {
        rgb_fields_spec(t.subrange(5, t.len() - 1))
    } else if t.len() >= 5 && t[0] == 'r' && t[1] == 'g' && t[2] == 'b' && t[3] == '(' && t.last()
        == ')' {
        rgb_fields_spec(t.subrange(4, t.len() - 1))
    } else {
        Err(ColorError::MalformedRgb)
    }
}

/// What serializing to RGBA returns: the raw bytes for the color
/// channels and the alpha channel as a fraction with up to three decimal
/// places.
pub open spec fn to_rgba_spec(c: Color) -> Seq<char> {
    seq!['r', 'g', 'b', 'a', '('] + dec_str(c.r as int) + seq![',', ' '] + dec_str(c.g as int)
        + seq![',', ' '] + dec_str(c.b as int) + seq![',', ' '] + milli_str(
        milli_spec(c.a as int),
    ) + seq![')']
}

/// Reads the fields between the parentheses.
fn parse_rgb_fields(body: &Vec<char>) -> (res: Result<Color, ColorError>)
    ensures
        res == rgb_fields_spec(body@),
{
    let fields = split_commas(body);
    let ghost fs = split_fields(body@);
    if fields.len() != 3 && fields.len() != 4 {
        return Err(ColorError::MalformedRgb);
    }
    proof {
        assert(fields.deep_view()[0] == fields@[0]@);
        assert(fields.deep_view()[1] == fields@[1]@);
        assert(fields.deep_view()[2] == fields@[2]@);
    }
    let rf = trim_chars(&fields[0]);
    let gf = trim_chars(&fields[1]);
    let bf = trim_chars(&fields[2]);
    proof {
        assert(rf@.subrange(0, rf@.len() as int) =~= rf@);
        assert(gf@.subrange(0, gf@.len() as int) =~= gf@);
        assert(bf@.subrange(0, bf@.len() as int) =~= bf@);
    }
    let r = match parse_int_field(&rf, 0, rf.len()) {
        Ok(v) => v,
        Err(FieldError::Syntax) => {
            return Err(ColorError::MalformedRgb);
        },
        Err(FieldError::Range) => {
            return Err(ColorError::OutOfRange);
        },
    };
    let g = match parse_int_field(&gf, 0, gf.len()) {
        Ok(v) => v,
        Err(FieldError::Syntax) => {
            return Err(ColorError::MalformedRgb);
        },
        Err(FieldError::Range) => {
            return Err(ColorError::OutOfRange);
        },
    };
    let b = match parse_int_field(&bf, 0, bf.len()) {
        Ok(v) => v,
        Err(FieldError::Syntax) => {
            return Err(ColorError::MalformedRgb);
        },
        Err(FieldError::Range) => {
            return Err(ColorError::OutOfRange);
        },
    };
    if fields.len() == 3 {
        Ok(Color { r, g, b, a: 255 })
    } else {
        proof {
            assert(fields.deep_view()[3] == fields@[3]@);
        }
        let af = trim_chars(&fields[3]);
        proof {
            assert(af@.subrange(0, af@.len() as int) =~= af@);
        }
        match parse_frac_field(&af, 0, af.len()) {
            Ok(a) => Ok(Color { r, g, b, a }),
            Err(FieldError::Syntax) => Err(ColorError::MalformedRgb),
            Err(FieldError::Range) => Err(ColorError::OutOfRange),
        }
    }
}

impl Color {
    /// Parses an `rgb(..)` or `rgba(..)` color.
    pub fn from_rgb(input: &str) -> (res: Result<Color, ColorError>)
        ensures
            res == from_rgb_spec(input@),
    {
        let cs = chars_of(input);
        let t = trim_chars(&cs);
        let n: usize = t.len();
        if n >= 6 && t[0] == 'r' && t[1] == 'g' && t[2] == 'b' && t[3] == 'a' && t[4] == '(' && t[n
            - 1] == ')' {
            let body = copy_range(&t, 5, n - 1);
            parse_rgb_fields(&body)
        } else if n >= 5 && t[0] == 'r' && t[1] == 'g' && t[2] == 'b' && t[3] == '(' && t[n - 1]
            == ')' {
            let body = copy_range(&t, 4, n - 1);
            parse_rgb_fields(&body)
        } else {
            Err(ColorError::MalformedRgb)
        }
    }

    /// Serializes to `rgba(R, G, B, A)` with the alpha channel as a
    /// fraction.
    pub fn to_rgba(&self) -> (r: String)
        ensures
            r@ == to_rgba_spec(*self),
    {
        let mut s = String::new();
        push_char(&mut s, 'r');
        push_char(&mut s, 'g');
        push_char(&mut s, 'b');
        push_char(&mut s, 'a');
        push_char(&mut s, '(');
        push_dec_u8(&mut s, self.r);
        push_char(&mut s, ',');
        push_char(&mut s, ' ');
        push_dec_u8(&mut s, self.g);
        push_char(&mut s, ',');
        push_char(&mut s, ' ');
        push_dec_u8(&mut s, self.b);
        push_char(&mut s, ',');
        push_char(&mut s, ' ');
        let m = u8_to_milli(self.a);
        push_milli(&mut s, m);
        push_char(&mut s, ')');
        proof {
            assert(s@ =~= to_rgba_spec(*self));
        }
        s
    }
}

} // verus!
