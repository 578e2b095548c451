//! The fractional percent notation: `%` followed by exactly four
//! comma-separated fractions in [0, 1]; the alpha field is mandatory here,
//! unlike in the other two notations.
use vstd::prelude::*;

use crate::color::{Color, ColorError};
use crate::numeric::{
    frac_byte, frac_in_range, frac_syntax, milli_spec, parse_frac_field, u8_to_milli, FieldError,
};
use crate::text::{
    chars_of, copy_range, milli_str, push_char, push_milli, split_commas, split_fields, trim,
    trim_chars,
};

verus! {

/// What parsing a percent input returns: outer whitespace dropped, a
/// leading `%`, then exactly four fraction fields, read left to right; a
/// different field count or an unreadable field is malformed, and a
/// readable field outside [0, 1] is out of range.
pub open spec fn from_percent_spec(s: Seq<char>) -> Result<Color, ColorError> {
    let t = trim(s);
    if t.len() == 0 || t[0] != '%' {
        Err(ColorError::MalformedPercent)
    } else {
        let fs = split_fields(t.skip(1));
        if fs.len() != 4 {
            Err(ColorError::MalformedPercent)
        } else {
            let rf = trim(fs[0]);
            let gf = trim(fs[1]);
            let bf = trim(fs[2]);
            let af = trim(fs[3]);
            if !frac_syntax(rf) {
                Err(ColorError::MalformedPercent)
            } else if !frac_in_range(rf) {
                Err(ColorError::OutOfRange)
            } else if !frac_syntax(gf) {
                Err(ColorError::MalformedPercent)
            } else if !frac_in_range(gf) {
                Err(ColorError::OutOfRange)
            } else if !frac_syntax(bf) {
                Err(ColorError::MalformedPercent)
            } else if !frac_in_range(bf) {
                Err(ColorError::OutOfRange)
            } else if !frac_syntax(af) {
                Err(ColorError::MalformedPercent)
            } else if !frac_in_range(af) {
                Err(ColorError::OutOfRange)
            } else {
                Ok(
                    Color {
                        r: frac_byte(rf) as u8,
                        g: frac_byte(gf) as u8,
                        b: frac_byte(bf) as u8,
                        a: frac_byte(af) as u8,
                    },
                )
            }
        }
    }
}

/// What serializing to percent returns: `% ` and all four channels as
/// fractions with up to three decimal places.
pub open spec fn to_percent_spec(c: Color) -> Seq<char> {
    seq!['%', ' '] + milli_str(milli_spec(c.r as int)) + seq![',', ' '] + milli_str(
        milli_spec(c.g as int),
    ) + seq![',', ' '] + milli_str(milli_spec(c.b as int)) + seq![',', ' '] + milli_str(
        milli_spec(c.a as int),
    )
}

impl Color {
    /// Parses a percent color.
    pub fn from_percent(input: &str) -> (res: Result<Color, ColorError>)
        ensures
            res == from_percent_spec(input@),
    {
        let cs = chars_of(input);
        let t = trim_chars(&cs);
        let n: usize = t.len();
        if n == 0 || t[0] != '%' {
            return Err(ColorError::MalformedPercent);
        }
        let body = copy_range(&t, 1, n);
        proof {
            assert(body@ =~= t@.skip(1));
        }
        let fields = split_commas(&body);
        if fields.len() != 4 {
            return Err(ColorError::MalformedPercent);
        }
        proof {
            assert(fields.deep_view()[0] == fields@[0]@);
            assert(fields.deep_view()[1] == fields@[1]@);
            assert(fields.deep_view()[2] == fields@[2]@);
            assert(fields.deep_view()[3] == fields@[3]@);
        }
        let rf = trim_chars(&fields[0]);
        let gf = trim_chars(&fields[1]);
        let bf = trim_chars(&fields[2]);
        let af = trim_chars(&fields[3]);
        proof {
            assert(rf@.subrange(0, rf@.len() as int) =~= rf@);
            assert(gf@.subrange(0, gf@.len() as int) =~= gf@);
            assert(bf@.subrange(0, bf@.len() as int) =~= bf@);
            assert(af@.subrange(0, af@.len() as int) =~= af@);
        }
        let r = match parse_frac_field(&rf, 0, rf.len()) {
            Ok(v) => v,
            Err(FieldError::Syntax) => {
                return Err(ColorError::MalformedPercent);
            },
            Err(FieldError::Range) => {
                return Err(ColorError::OutOfRange);
            },
        };
        let g = match parse_frac_field(&gf, 0, gf.len()) {
            Ok(v) => v,
            Err(FieldError::Syntax) => {
                return Err(ColorError::MalformedPercent);
            },
            Err(FieldError::Range) => {
                return Err(ColorError::OutOfRange);
            },
        };
        let b = match parse_frac_field(&bf, 0, bf.len()) {
            Ok(v) => v,
            Err(FieldError::Syntax) => {
                return Err(ColorError::MalformedPercent);
            },
            Err(FieldError::Range) => {
                return Err(ColorError::OutOfRange);
            },
        };
        let a = match parse_frac_field(&af, 0, af.len()) {
            Ok(v) => v,
            Err(FieldError::Syntax) => {
                return Err(ColorError::MalformedPercent);
            },
            Err(FieldError::Range) => {
                return Err(ColorError::OutOfRange);
            },
        };
        Ok(Color { r, g, b, a })
    }

    /// Serializes to `% R, G, B, A` with every channel as a fraction.
    pub fn to_percent(&self) -> (r: String)
        ensures
            r@ == to_percent_spec(*self),
    {
        let mut s = String::new();
        push_char(&mut s, '%');
        push_char(&mut s, ' ');
        push_milli(&mut s, u8_to_milli(self.r));
        push_char(&mut s, ',');
        push_char(&mut s, ' ');
        push_milli(&mut s, u8_to_milli(self.g));
        push_char(&mut s, ',');
        push_char(&mut s, ' ');
        push_milli(&mut s, u8_to_milli(self.b));
        push_char(&mut s, ',');
        push_char(&mut s, ' ');
        push_milli(&mut s, u8_to_milli(self.a));
        proof {
            assert(s@ =~= to_percent_spec(*self));
        }
        s
    }
}

} // verus!
