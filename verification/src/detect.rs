//! Structural notation detection: each notation has a shape, and an input
//! is routed to the one parser whose shape it has. Detection is purely
//! structural; a shaped input can still be refused by its parser.
use vstd::prelude::*;

use crate::text::{all_digits, all_hex_digits, is_digit, is_space, split_fields};

verus! {

/// The hexadecimal shape: `#` and 3 to 8 hexadecimal digits.
pub open spec fn hex_shape(s: Seq<char>) -> bool {
    4 <= s.len() <= 9 && s[0] == '#' && all_hex_digits(s.skip(1))
}

/// The first index at or after `i` that holds no whitespace.
pub open spec fn skip_ws(s: Seq<char>, i: int) -> int
    decreases s.len() - i,
{
    if 0 <= i < s.len() && is_space(s[i]) {
        skip_ws(s, i + 1)
    } else {
        i
    }
}

/// The first index at or after `i` that holds no decimal digit.
pub open spec fn skip_digits(s: Seq<char>, i: int) -> int
    decreases s.len() - i,
{
    if 0 <= i < s.len() && is_digit(s[i]) {
        skip_digits(s, i + 1)
    } else {
        i
    }
}

/// A whole-number field of the RGBA shape: optional whitespace, one to
/// three digits, optional whitespace.
pub open spec fn rgb_int_field(f: Seq<char>) -> bool {
    let a = skip_ws(f, 0);
    let b = skip_digits(f, a);
    1 <= b - a <= 3 && skip_ws(f, b) == f.len()
}

/// An optional `0`, an optional point, then only digits — possibly none.
pub open spec fn loose_frac(g: Seq<char>) -> bool {
    all_digits(g) || (g.len() >= 1 && g[0] == '.' && all_digits(g.skip(1))) || (g.len() >= 2
        && g[0] == '0' && g[1] == '.' && all_digits(g.skip(2)))
}

/// The alpha field of the RGBA shape: optional whitespace, then `1` or a
/// loose fraction.
pub open spec fn rgb_alpha_field(f: Seq<char>) -> bool {
    loose_frac(f.skip(skip_ws(f, 0)))
}

/// The field list of the RGBA shape: three whole-number fields, and
/// possibly an alpha field.
pub open spec fn rgb_body_shape(body: Seq<char>) -> bool {
    let fs = split_fields(body);
    (fs.len() == 3 && rgb_int_field(fs[0]) && rgb_int_field(fs[1]) && rgb_int_field(fs[2])) || (
    fs.len() == 4 && rgb_int_field(fs[0]) && rgb_int_field(fs[1]) && rgb_int_field(fs[2])
        && rgb_alpha_field(fs[3]))
}

/// The RGBA shape: `rgb(` or `rgba(`, the field list, and `)`.
pub open spec fn rgb_shape(s: Seq<char>) -> bool {
    if s.len() >= 5 && s[0] == 'r' && s[1] == 'g' && s[2] == 'b' && s[3] == '(' && s.last()
        == ')' {
        rgb_body_shape(s.subrange(4, s.len() - 1))
    } else if s.len() >= 6 && s[0] == 'r' && s[1] == 'g' && s[2] == 'b' && s[3] == 'a' && s[4]
        == '(' && s.last() == ')' {
        rgb_body_shape(s.subrange(5, s.len() - 1))
    } else {
        false
    }
}

/// A number of the percent shape: an optional `0`, an optional point,
/// then at least one digit.
pub open spec fn pct_num_shape(g: Seq<char>) -> bool {
    (g.len() >= 1 && all_digits(g)) || (g.len() >= 2 && g[0] == '.' && all_digits(g.skip(1))) || (
    g.len() >= 3 && g[0] == '0' && g[1] == '.' && all_digits(g.skip(2)))
}

/// A field of the percent shape: at most one leading whitespace
/// character, then a number.
pub open spec fn pct_field_shape(f: Seq<char>) -> bool {
    pct_num_shape(f) || (f.len() >= 1 && is_space(f[0]) && pct_num_shape(f.skip(1)))
}

/// The percent shape: `%` and three or four number fields.
pub open spec fn percent_shape(s: Seq<char>) -> bool {
    s.len() >= 1 && s[0] == '%' && {
        let fs = split_fields(s.skip(1));
        (fs.len() == 3 || fs.len() == 4) && (forall|i: int|
            0 <= i < fs.len() ==> pct_field_shape(#[trigger] fs[i]))
    }
}

/// Relies on `regex::Regex::new` and `regex::Regex::is_match`: whether
/// the whole input matches `^#[0-9a-fA-F]{3,8}$` — one `#`, then 3 to 8
/// hexadecimal digits.
#[verifier::external_body]
pub(crate) fn is_hex_shape(s: &str) -> (r: bool)
    ensures
        r == hex_shape(s@),
{
    regex::Regex::new("^#[0-9a-fA-F]{3,8}$").unwrap().is_match(s)
}

/// Relies on `regex::Regex::new` and `regex::Regex::is_match`: whether
/// the whole input matches the RGBA shape — `rgb(` or `rgba(`, three
/// one-to-three-digit numbers with whitespace around them, an optional
/// alpha of the form `1` or `0?\.?[0-9]*`, and `)`. The whitespace class
/// is spelled out as the ASCII whitespace characters.
#[verifier::external_body]
pub(crate) fn is_rgb_shape(s: &str) -> (r: bool)
    ensures
        r == rgb_shape(s@),
{
    regex::Regex::new(
        "^rgba?\\([ \\t\\n\\r\\x0B\\x0C]*[0-9]{1,3}[ \\t\\n\\r\\x0B\\x0C]*,[ \\t\\n\\r\\x0B\\x0C]*[0-9]{1,3}[ \\t\\n\\r\\x0B\\x0C]*,[ \\t\\n\\r\\x0B\\x0C]*[0-9]{1,3}[ \\t\\n\\r\\x0B\\x0C]*(,[ \\t\\n\\r\\x0B\\x0C]*(1|0?\\.?[0-9]*))?\\)$",
    ).unwrap().is_match(s)
}

/// Relies on `regex::Regex::new` and `regex::Regex::is_match`: whether
/// the whole input matches the percent shape — `%`, then three or four
/// comma-separated numbers of the form `0?\.?[0-9]+`, each with at most
/// one whitespace character before it.
#[verifier::external_body]
pub(crate) fn is_percent_shape(s: &str) -> (r: bool)
    ensures
        r == percent_shape(s@),
{
    regex::Regex::new(
        "^%[ \\t\\n\\r\\x0B\\x0C]?0?\\.?[0-9]+,[ \\t\\n\\r\\x0B\\x0C]?0?\\.?[0-9]+,[ \\t\\n\\r\\x0B\\x0C]?0?\\.?[0-9]+(,[ \\t\\n\\r\\x0B\\x0C]?0?\\.?[0-9]+)?$",
    ).unwrap().is_match(s)
}

} // verus!
