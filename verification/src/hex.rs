//! The hexadecimal notation: an optional `#`, optionally surrounded by
//! whitespace, then 3, 4, 6 or 8 hexadecimal digits; serialization always
//! writes `#` and 8 lowercase digits.
use vstd::prelude::*;
use vstd::string::StringExecFns;

use crate::color::{Color, ColorError};
use crate::text::{
    all_hex_digits, chars_of, copy_range, digit_char, digit_char_of, hex_val, is_hex_digit,
    is_space, lemma_trim_id, push_char, trim, trim_chars,
};

verus! {

/// The byte two hexadecimal digit characters write out.
pub open spec fn hex_byte(c1: char, c2: char) -> u8
    recommends
        is_hex_digit(c1),
        is_hex_digit(c2),
{
    (16 * hex_val(c1) + hex_val(c2)) as u8
}

/// The bytes a sequence of hexadecimal digit characters writes out, two
/// digits to a byte.
pub open spec fn decoded_bytes(s: Seq<char>) -> Seq<u8>
    decreases s.len(),
{
    if s.len() < 2 {
        seq![]
    } else {
        seq![hex_byte(s[0], s[1])] + decoded_bytes(s.skip(2))
    }
}

/// The two lowercase digit characters of a byte.
pub open spec fn hex_pair(b: int) -> Seq<char>
    recommends
        0 <= b <= 255,
{
    seq![digit_char(b / 16), digit_char(b % 16)]
}

/// The lowercase hexadecimal spelling of a byte sequence.
pub open spec fn encoded_hex(bs: Seq<u8>) -> Seq<char>
    decreases bs.len(),
{
    if bs.len() == 0 {
        seq![]
    } else {
        hex_pair(bs[0] as int) + encoded_hex(bs.skip(1))
    }
}

/// Each character doubled in place.
pub open spec fn padded(s: Seq<char>) -> Seq<char>
    decreases s.len(),
{
    if s.len() == 0 {
        seq![]
    } else {
        seq![s[0], s[0]] + padded(s.skip(1))
    }
}

/// The digit payload of a hexadecimal input: outer whitespace dropped,
/// then one leading `#` and the whitespace after it.
pub open spec fn strip_hash(s: Seq<char>) -> Seq<char> {
    let t = trim(s);
    if t.len() > 0 && t[0] == '#' {
        trim(t.skip(1))
    } else {
        t
    }
}

/// What parsing a hexadecimal input returns: 3 or 4 digits stand one per
/// channel and are doubled, 6 or 8 digits stand two per channel; a missing
/// alpha pair means opaque; any other digit count, or a character that is
/// no hexadecimal digit, is refused.
pub open spec fn from_hex_spec(s: Seq<char>) -> Result<Color, ColorError> {
    let u = strip_hash(s);
    if !all_hex_digits(u) {
        Err(ColorError::MalformedHex)
    } else if u.len() == 3 {
        let bs = decoded_bytes(padded(u));
        Ok(Color { r: bs[0], g: bs[1], b: bs[2], a: 255 })
    } else if u.len() == 4 {
        let bs = decoded_bytes(padded(u));
        Ok(Color { r: bs[0], g: bs[1], b: bs[2], a: bs[3] })
    } else if u.len() == 6 {
        let bs = decoded_bytes(u);
        Ok(Color { r: bs[0], g: bs[1], b: bs[2], a: 255 })
    } else if u.len() == 8 {
        let bs = decoded_bytes(u);
        Ok(Color { r: bs[0], g: bs[1], b: bs[2], a: bs[3] })
    } else {
        Err(ColorError::MalformedHex)
    }
}

/// What serializing to hexadecimal returns: `#` and all four channels,
/// two lowercase digits each.
pub open spec fn to_hex_spec(c: Color) -> Seq<char> {
    seq!['#'] + encoded_hex(seq![c.r, c.g, c.b, c.a])
}

pub proof fn lemma_decoded_len(s: Seq<char>)
    requires
        s.len() % 2 == 0,
    ensures
        decoded_bytes(s).len() == s.len() / 2,
    decreases s.len(),
{
    if s.len() >= 2 {
        lemma_decoded_len(s.skip(2));
    }
}

pub proof fn lemma_decoded_take(s: Seq<char>, k: int)
    requires
        0 <= k,
        k % 2 == 0,
        k + 2 <= s.len(),
    ensures
        decoded_bytes(s.take(k + 2)) == decoded_bytes(s.take(k)) + seq![hex_byte(s[k], s[k + 1])],
    decreases k,
{
    if k == 0 {
        assert(s.take(2)[0] == s[0] && s.take(2)[1] == s[1]);
        assert(s.take(2).skip(2) =~= s.take(0));
        assert(s.take(0).len() == 0);
        assert(decoded_bytes(s.take(0)) =~= Seq::<u8>::empty());
        assert(decoded_bytes(s.take(2)) =~= decoded_bytes(s.take(0)) + seq![
            hex_byte(s[0], s[1]),
        ]);
    } else {
        lemma_decoded_take(s.skip(2), k - 2);
        assert(s.take(k + 2).skip(2) =~= s.skip(2).take(k));
        assert(s.take(k).skip(2) =~= s.skip(2).take(k - 2));
        assert(s.skip(2)[k - 2] == s[k] && s.skip(2)[k - 1] == s[k + 1]);
        assert(decoded_bytes(s.take(k + 2)) == seq![hex_byte(s[0], s[1])] + decoded_bytes(
            s.take(k + 2).skip(2),
        ));
        assert(decoded_bytes(s.take(k)) == seq![hex_byte(s[0], s[1])] + decoded_bytes(
            s.take(k).skip(2),
        ));
        assert(decoded_bytes(s.take(k + 2)) =~= decoded_bytes(s.take(k)) + seq![
            hex_byte(s[k], s[k + 1]),
        ]);
    }
}

pub proof fn lemma_encoded_take(bs: Seq<u8>, k: int)
    requires
        0 <= k,
        k + 1 <= bs.len(),
    ensures
        encoded_hex(bs.take(k + 1)) == encoded_hex(bs.take(k)) + hex_pair(bs[k] as int),
    decreases k,
{
    if k == 0 {
        assert(bs.take(1)[0] == bs[0]);
        assert(bs.take(1).skip(1) =~= bs.take(0));
        assert(bs.take(0).len() == 0);
        assert(encoded_hex(bs.take(0)) =~= Seq::<char>::empty());
        assert(encoded_hex(bs.take(1)) =~= encoded_hex(bs.take(0)) + hex_pair(bs[0] as int));
    } else {
        lemma_encoded_take(bs.skip(1), k - 1);
        assert(bs.take(k + 1).skip(1) =~= bs.skip(1).take(k));
        assert(bs.take(k).skip(1) =~= bs.skip(1).take(k - 1));
        assert(bs.skip(1)[k - 1] == bs[k]);
        assert(bs.take(k + 1)[0] == bs[0] && bs.take(k)[0] == bs[0]);
        assert(encoded_hex(bs.take(k + 1)) =~= encoded_hex(bs.take(k)) + hex_pair(bs[k] as int));
    }
}

pub proof fn lemma_padded_take(s: Seq<char>, k: int)
    requires
        0 <= k,
        k + 1 <= s.len(),
    ensures
        padded(s.take(k + 1)) == padded(s.take(k)) + seq![s[k], s[k]],
    decreases k,
{
    if k == 0 {
        assert(s.take(1)[0] == s[0]);
        assert(s.take(1).skip(1) =~= s.take(0));
        assert(s.take(0).len() == 0);
        assert(padded(s.take(0)) =~= Seq::<char>::empty());
        assert(padded(s.take(1)) =~= padded(s.take(0)) + seq![s[0], s[0]]);
    } else {
        lemma_padded_take(s.skip(1), k - 1);
        assert(s.take(k + 1).skip(1) =~= s.skip(1).take(k));
        assert(s.take(k).skip(1) =~= s.skip(1).take(k - 1));
        assert(s.skip(1)[k - 1] == s[k]);
        assert(s.take(k + 1)[0] == s[0] && s.take(k)[0] == s[0]);
        assert(padded(s.take(k + 1)) =~= padded(s.take(k)) + seq![s[k], s[k]]);
    }
}

pub proof fn lemma_padded_props(s: Seq<char>)
    ensures
        padded(s).len() == 2 * s.len(),
        all_hex_digits(s) ==> all_hex_digits(padded(s)),
    decreases s.len(),
{
    if s.len() > 0 {
        lemma_padded_props(s.skip(1));
        if all_hex_digits(s) {
            assert(forall|j: int|
                0 <= j < s.skip(1).len() ==> is_hex_digit(#[trigger] s.skip(1)[j]));
            assert forall|j: int| 0 <= j < padded(s).len() implies is_hex_digit(
                #[trigger] padded(s)[j],
            ) by {
                if j >= 2 {
                    assert(padded(s)[j] == padded(s.skip(1))[j - 2]);
                }
            }
        }
    }
}

/// A digit character is a hexadecimal digit with its own value, and is
/// neither whitespace nor `#`.
pub proof fn lemma_digit_char_props(v: int)
    requires
        0 <= v < 16,
    ensures
        is_hex_digit(digit_char(v)),
        hex_val(digit_char(v)) == v,
        !is_space(digit_char(v)),
        digit_char(v) != '#',
{
}

/// Parsing a serialized hexadecimal color gives the color back, so
/// serializing again reproduces the same text: the 8-digit form is a
/// fixed point of the round trip.
pub proof fn lemma_hex_round_trip(c: Color)
    ensures
        from_hex_spec(to_hex_spec(c)) == Ok::<Color, ColorError>(c),
{
    let bs4 = seq![c.r, c.g, c.b, c.a];
    let ex = seq![
        digit_char(c.r as int / 16),
        digit_char(c.r as int % 16),
        digit_char(c.g as int / 16),
        digit_char(c.g as int % 16),
        digit_char(c.b as int / 16),
        digit_char(c.b as int % 16),
        digit_char(c.a as int / 16),
        digit_char(c.a as int % 16),
    ];
    let e = encoded_hex(bs4);
    assert(bs4.skip(1) =~= seq![c.g, c.b, c.a]);
    assert(seq![c.g, c.b, c.a].skip(1) =~= seq![c.b, c.a]);
    assert(seq![c.b, c.a].skip(1) =~= seq![c.a]);
    assert(seq![c.a].skip(1) =~= Seq::<u8>::empty());
    assert(encoded_hex(Seq::<u8>::empty()) =~= Seq::<char>::empty());
    assert(encoded_hex(seq![c.a]) =~= hex_pair(c.a as int));
    assert(encoded_hex(seq![c.b, c.a]) =~= hex_pair(c.b as int) + encoded_hex(seq![c.a]));
    assert(encoded_hex(seq![c.g, c.b, c.a]) =~= hex_pair(c.g as int) + encoded_hex(
        seq![c.b, c.a],
    ));
    assert(e =~= hex_pair(c.r as int) + encoded_hex(seq![c.g, c.b, c.a]));
    assert(e =~= ex);
    lemma_digit_char_props(c.r as int / 16);
    lemma_digit_char_props(c.r as int % 16);
    lemma_digit_char_props(c.g as int / 16);
    lemma_digit_char_props(c.g as int % 16);
    lemma_digit_char_props(c.b as int / 16);
    lemma_digit_char_props(c.b as int % 16);
    lemma_digit_char_props(c.a as int / 16);
    lemma_digit_char_props(c.a as int % 16);
    let s = to_hex_spec(c);
    assert(s.len() == 9 && s[0] == '#');
    assert forall|j: int| 0 <= j < s.len() implies !is_space(#[trigger] s[j]) by {
        if j >= 1 {
            assert(s[j] == ex[j - 1]);
        }
    }
    lemma_trim_id(s);
    assert(s.skip(1) =~= ex);
    assert forall|j: int| 0 <= j < ex.len() implies !is_space(#[trigger] ex[j]) by {}
    lemma_trim_id(ex);
    let u = strip_hash(s);
    assert(u == ex);
    assert(all_hex_digits(u));
    // decode the eight digits pairwise
    assert(ex.skip(2) =~= ex.subrange(2, 8));
    assert(ex.subrange(2, 8).skip(2) =~= ex.subrange(4, 8));
    assert(ex.subrange(4, 8).skip(2) =~= ex.subrange(6, 8));
    assert(ex.subrange(6, 8).skip(2) =~= Seq::<char>::empty());
    assert(decoded_bytes(Seq::<char>::empty()) =~= Seq::<u8>::empty());
    assert(hex_byte(ex[0], ex[1]) == c.r);
    assert(hex_byte(ex.subrange(2, 8)[0], ex.subrange(2, 8)[1]) == c.g);
    assert(hex_byte(ex.subrange(4, 8)[0], ex.subrange(4, 8)[1]) == c.b);
    assert(hex_byte(ex.subrange(6, 8)[0], ex.subrange(6, 8)[1]) == c.a);
    assert(decoded_bytes(ex.subrange(6, 8)) =~= seq![c.a]);
    assert(decoded_bytes(ex.subrange(4, 8)) =~= seq![c.b] + decoded_bytes(ex.subrange(6, 8)));
    assert(decoded_bytes(ex.subrange(2, 8)) =~= seq![c.g] + decoded_bytes(ex.subrange(4, 8)));
    assert(decoded_bytes(ex) =~= seq![c.r] + decoded_bytes(ex.subrange(2, 8)));
    assert(decoded_bytes(ex) =~= seq![c.r, c.g, c.b, c.a]);
    assert(from_hex_spec(s) == Ok::<Color, ColorError>(
        Color { r: c.r, g: c.g, b: c.b, a: c.a },
    ));
    assert(Color { r: c.r, g: c.g, b: c.b, a: c.a } == c);
}

fn is_hex_digit_char(c: char) -> (r: bool)
    ensures
        r == is_hex_digit(c),
{
    ('0' <= c && c <= '9') || ('a' <= c && c <= 'f') || ('A' <= c && c <= 'F')
}

fn hex_val_of(c: char) -> (r: u8)
    requires
        is_hex_digit(c),
    ensures
        r == hex_val(c),
        r < 16,
{
    let u = c as u32;
    if 48 <= u && u <= 57 {
        (u - 48) as u8
    } else if 97 <= u {
        (u - 87) as u8
    } else {
        (u - 55) as u8
    }
}

fn all_hex_chars(v: &Vec<char>) -> (r: bool)
    ensures
        r == all_hex_digits(v@),
{
    let n: usize = v.len();
    let mut i: usize = 0;
    while i < n
        invariant
            i <= n,
            n == v@.len(),
            forall|j: int| 0 <= j < i ==> is_hex_digit(#[trigger] v@[j]),
        decreases n - i,
    {
        if !is_hex_digit_char(v[i]) {
            return false;
        }
        i = i + 1;
    }
    true
}

/// The bytes of an even run of hexadecimal digit characters.
fn decode_chars(v: &Vec<char>) -> (r: Option<Vec<u8>>)
    ensures
        match r {
            Some(bs) => v@.len() % 2 == 0 && all_hex_digits(v@) && bs@ == decoded_bytes(v@),
            None => v@.len() % 2 != 0 || !all_hex_digits(v@),
        },
{
    let n: usize = v.len();
    if n % 2 != 0 {
        return None;
    }
    if !all_hex_chars(v) {
        return None;
    }
    let mut bs: Vec<u8> = Vec::new();
    let mut i: usize = 0;
    while i < n
        invariant
            i <= n,
            i % 2 == 0,
            n % 2 == 0,
            n == v@.len(),
            all_hex_digits(v@),
            bs@ == decoded_bytes(v@.take(i as int)),
        decreases n - i,
    {
        let hi = hex_val_of(v[i]);
        let lo = hex_val_of(v[i + 1]);
        let b: u8 = 16 * hi + lo;
        proof {
            lemma_decoded_take(v@, i as int);
        }
        bs.push(b);
        i = i + 2;
        proof {
            assert(bs@ =~= decoded_bytes(v@.take(i as int)));
        }
    }
    proof {
        assert(v@.take(n as int) =~= v@);
    }
    Some(bs)
}

/// Decodes a string of hexadecimal digits into bytes, two digits each;
/// an odd length or a stray character is refused.
pub fn decode_hex(s: &str) -> (r: Result<Vec<u8>, ColorError>)
    ensures
        match r {
            Ok(bs) => s@.len() % 2 == 0 && all_hex_digits(s@) && bs@ == decoded_bytes(s@),
            Err(e) => (s@.len() % 2 != 0 || !all_hex_digits(s@)) && e == ColorError::MalformedHex,
        },
{
    let cs = chars_of(s);
    match decode_chars(&cs) {
        Some(bs) => Ok(bs),
        None => Err(ColorError::MalformedHex),
    }
}

/// Writes bytes as lowercase hexadecimal, two digits each.
pub fn encode_hex(bytes: &[u8]) -> (r: String)
    ensures
        r@ == encoded_hex(bytes@),
{
    let n: usize = bytes.len();
    let mut s = String::new();
    let mut i: usize = 0;
    while i < n
        invariant
            i <= n,
            n == bytes@.len(),
            s@ == encoded_hex(bytes@.take(i as int)),
        decreases n - i,
    {
        let b = bytes[i];
        push_char(&mut s, digit_char_of(b / 16));
        push_char(&mut s, digit_char_of(b % 16));
        proof {
            lemma_encoded_take(bytes@, i as int);
            assert(s@ =~= encoded_hex(bytes@.take(i + 1int)));
        }
        i = i + 1;
    }
    proof {
        assert(bytes@.take(n as int) =~= bytes@);
    }
    s
}

/// Doubles every character in place, turning each digit of a short
/// hexadecimal form into a two-digit group.
pub fn pad_hex(s: &str) -> (r: String)
    ensures
        r@ == padded(s@),
{
    let cs = chars_of(s);
    let n: usize = cs.len();
    let mut out = String::new();
    let mut i: usize = 0;
    while i < n
        invariant
            i <= n,
            n == cs@.len(),
            cs@ == s@,
            out@ == padded(s@.take(i as int)),
        decreases n - i,
    {
        let c = cs[i];
        push_char(&mut out, c);
        push_char(&mut out, c);
        proof {
            lemma_padded_take(s@, i as int);
            assert(out@ =~= padded(s@.take(i + 1int)));
        }
        i = i + 1;
    }
    proof {
        assert(s@.take(n as int) =~= s@);
    }
    out
}

impl Color {
    /// Parses a hexadecimal color.
    pub fn from_hex(input: &str) -> (r: Result<Color, ColorError>)
        ensures
            r == from_hex_spec(input@),
    {
        let cs = chars_of(input);
        let t = trim_chars(&cs);
        let u: Vec<char> = if t.len() > 0 && t[0] == '#' {
            let rest = copy_range(&t, 1, t.len());
            proof {
                assert(rest@ =~= t@.skip(1));
            }
            trim_chars(&rest)
        } else {
            t
        };
        proof {
            assert(u@ == strip_hash(input@));
        }
        if !all_hex_chars(&u) {
            return Err(ColorError::MalformedHex);
        }
        let n: usize = u.len();
        if n == 3 || n == 4 {
            proof {
                lemma_padded_props(u@);
            }
            let mut p: Vec<char> = Vec::new();
            let mut i: usize = 0;
            while i < n
                invariant
                    i <= n,
                    n == u@.len(),
                    p@ == padded(u@.take(i as int)),
                decreases n - i,
            {
                let c = u[i];
                p.push(c);
                p.push(c);
                proof {
                    lemma_padded_take(u@, i as int);
                    assert(p@ =~= padded(u@.take(i + 1int)));
                }
                i = i + 1;
            }
            proof {
                assert(u@.take(n as int) =~= u@);
            }
            match decode_chars(&p) {
                Some(bs) => {
                    proof {
                        lemma_decoded_len(p@);
                    }
                    if n == 3 {
                        Ok(Color { r: bs[0], g: bs[1], b: bs[2], a: 255 })
                    } else {
                        Ok(Color { r: bs[0], g: bs[1], b: bs[2], a: bs[3] })
                    }
                },
                None => {
                    proof {
                        assert(false);
                    }
                    Err(ColorError::MalformedHex)
                },
            }
        } else if n == 6 || n == 8 {
            match decode_chars(&u) {
                Some(bs) => {
                    proof {
                        lemma_decoded_len(u@);
                    }
                    if n == 6 {
                        Ok(Color { r: bs[0], g: bs[1], b: bs[2], a: 255 })
                    } else {
                        Ok(Color { r: bs[0], g: bs[1], b: bs[2], a: bs[3] })
                    }
                },
                None => {
                    proof {
                        assert(false);
                    }
                    Err(ColorError::MalformedHex)
                },
            }
        } else {
            Err(ColorError::MalformedHex)
        }
    }

    /// Serializes to `#` and 8 lowercase hexadecimal digits.
    pub fn to_hex(&self) -> (r: String)
        ensures
            r@ == to_hex_spec(*self),
    {
        let mut bytes: Vec<u8> = Vec::new();
        bytes.push(self.r);
        bytes.push(self.g);
        bytes.push(self.b);
        bytes.push(self.a);
        proof {
            assert(bytes@ =~= seq![self.r, self.g, self.b, self.a]);
        }
        let tail = encode_hex(bytes.as_slice());
        let mut s = String::new();
        push_char(&mut s, '#');
        let r = s.concat(tail.as_str());
        proof {
            assert(r@ =~= to_hex_spec(*self));
        }
        r
    }
}

} // verus!
