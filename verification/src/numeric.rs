//! Exact conversion between channel bytes and decimal fractions.
//!
//! A fraction written as `I.d1 d2 .. dk` maps to the byte
//! `round(value * 255)` with halves rounded up, and a byte maps back to a
//! fraction rounded to three decimal places; both rules are stated and
//! computed over integers alone.
use vstd::arithmetic::div_mod::{
    lemma_div_denominator, lemma_div_is_ordered, lemma_hoist_over_denominator,
};
use vstd::prelude::*;

use crate::text::lemma_find_char_at;

verus! {

pub open spec fn pow10(k: nat) -> int
    decreases k,
{
    if k == 0 {
        1
    } else {
        10 * pow10((k - 1) as nat)
    }
}

pub open spec fn all_digit_vals(ds: Seq<u8>) -> bool {
    forall|i: int| 0 <= i < ds.len() ==> #[trigger] ds[i] < 10
}

/// The number that a sequence of decimal digit values writes out.
pub open spec fn digits_num(ds: Seq<u8>) -> int
    decreases ds.len(),
{
    if ds.len() == 0 {
        0
    } else {
        ds[0] * pow10((ds.len() - 1) as nat) + digits_num(ds.skip(1))
    }
}

/// The byte that the fraction `ip.ds` converts to: the floor of
/// `value * 255 + 1/2`, written over the numerator `ip * 10^k + digits`
/// and the denominator `10^k`.
pub open spec fn frac_to_byte_spec(ip: int, ds: Seq<u8>) -> int {
    (510 * (ip * pow10(ds.len()) + digits_num(ds)) + pow10(ds.len())) / (2 * pow10(ds.len()))
}

/// Whether the fraction `ip.ds` lies in [0, 1].
pub open spec fn frac_le_one(ip: int, ds: Seq<u8>) -> bool {
    ip == 0 || (ip == 1 && digits_num(ds) == 0)
}

/// The fraction of a byte, in thousandths: `round(b / 255 * 1000)` with
/// halves rounded up.
pub open spec fn milli_spec(b: int) -> int {
    (2000 * b + 255) / 510
}

pub proof fn lemma_pow10_pos(k: nat)
    ensures
        pow10(k) >= 1,
    decreases k,
{
    if k > 0 {
        lemma_pow10_pos((k - 1) as nat);
    }
}

pub proof fn lemma_digits_num_bound(ds: Seq<u8>)
    requires
        all_digit_vals(ds),
    ensures
        0 <= digits_num(ds) < pow10(ds.len()),
    decreases ds.len(),
{
    if ds.len() > 0 {
        lemma_digits_num_bound(ds.skip(1));
        lemma_pow10_pos((ds.len() - 1) as nat);
        let p = pow10((ds.len() - 1) as nat);
        assert(ds[0] * p <= 9 * p) by (nonlinear_arith)
            requires
                ds[0] <= 9,
                p >= 1,
        ;
        assert(ds[0] * p >= 0) by (nonlinear_arith)
            requires
                ds[0] >= 0,
                p >= 1,
        ;
    }
}

/// A digit sequence writes zero exactly when every digit is zero.
pub proof fn lemma_digits_num_zero(ds: Seq<u8>)
    requires
        all_digit_vals(ds),
    ensures
        digits_num(ds) == 0 <==> (forall|i: int| 0 <= i < ds.len() ==> #[trigger] ds[i] == 0),
    decreases ds.len(),
{
    if ds.len() > 0 {
        lemma_digits_num_zero(ds.skip(1));
        lemma_digits_num_bound(ds.skip(1));
        lemma_pow10_pos((ds.len() - 1) as nat);
        let p = pow10((ds.len() - 1) as nat);
        assert(ds[0] >= 1 ==> ds[0] * p >= p) by (nonlinear_arith)
            requires
                p >= 1,
        ;
        assert(ds[0] == 0 ==> ds[0] * p == 0) by (nonlinear_arith);
        assert forall|i: int| 0 <= i < ds.len() && digits_num(ds) == 0 implies #[trigger] ds[i]
            == 0 by {
            if i > 0 {
                assert(ds.skip(1)[i - 1] == ds[i]);
            }
        }
        if forall|i: int| 0 <= i < ds.len() ==> #[trigger] ds[i] == 0 {
            assert(forall|i: int| 0 <= i < ds.skip(1).len() ==> #[trigger] ds.skip(1)[i] == 0);
        }
    }
}

/// Appending a digit multiplies the number by ten and adds the digit.
pub proof fn lemma_digits_num_snoc(ds: Seq<u8>)
    requires
        ds.len() > 0,
    ensures
        digits_num(ds) == 10 * digits_num(ds.drop_last()) + ds.last(),
    decreases ds.len(),
{
    if ds.len() == 1 {
        assert(ds.drop_last().len() == 0);
        assert(ds.skip(1).len() == 0);
        assert(digits_num(ds.skip(1)) == 0);
        assert(digits_num(ds.drop_last()) == 0);
        assert(pow10(0) == 1);
        assert(digits_num(ds) == ds[0] * pow10(0) + digits_num(ds.skip(1)));
    } else {
        lemma_digits_num_snoc(ds.skip(1));
        assert(ds.skip(1).drop_last() =~= ds.drop_last().skip(1));
        assert(ds.drop_last()[0] == ds[0]);
        assert(ds.skip(1).last() == ds.last());
        let p = pow10((ds.len() - 2) as nat);
        assert(pow10((ds.len() - 1) as nat) == 10 * p);
        assert(digits_num(ds) == ds[0] * (10 * p) + digits_num(ds.skip(1)));
        assert(digits_num(ds.drop_last()) == ds[0] * p + digits_num(ds.drop_last().skip(1)));
        assert(ds[0] * (10 * p) == 10 * (ds[0] * p)) by (nonlinear_arith);
    }
}

/// The floor of `510 * 0.d1 d2 .. dk`, computed one digit at a time from
/// the right.
pub open spec fn frac_scaled(ds: Seq<u8>) -> int
    decreases ds.len(),
{
    if ds.len() == 0 {
        0
    } else {
        (510 * ds[0] + frac_scaled(ds.skip(1))) / 10
    }
}

/// The digit-at-a-time floor equals the floor of the closed fraction.
pub proof fn lemma_frac_scaled(ds: Seq<u8>)
    requires
        all_digit_vals(ds),
    ensures
        frac_scaled(ds) == 510 * digits_num(ds) / pow10(ds.len()),
        0 <= frac_scaled(ds) <= 509,
    decreases ds.len(),
{
    if ds.len() == 0 {
        assert(510 * 0int / 1 == 0);
    } else {
        let rest = ds.skip(1);
        lemma_frac_scaled(rest);
        lemma_digits_num_bound(rest);
        lemma_pow10_pos((ds.len() - 1) as nat);
        let p = pow10((ds.len() - 1) as nat);
        let num1 = digits_num(rest);
        // 510*d + (510*num1)/p == (510*d*p + 510*num1)/p
        lemma_hoist_over_denominator(510 * num1, 510 * ds[0], p as nat);
        assert(510 * num1 >= 0) by (nonlinear_arith)
            requires
                num1 >= 0,
        ;
        assert(510 * ds[0] * p + 510 * num1 >= 0) by (nonlinear_arith)
            requires
                ds[0] >= 0,
                p >= 1,
                num1 >= 0,
        ;
        lemma_div_denominator(510 * ds[0] * p + 510 * num1, p, 10);
        assert(510 * ds[0] * p + 510 * num1 == 510 * digits_num(ds)) by (nonlinear_arith)
            requires
                digits_num(ds) == ds[0] * p + num1,
        ;
        assert(p * 10 == pow10(ds.len()));
        assert(frac_scaled(ds) == 510 * digits_num(ds) / pow10(ds.len()));
        assert(0 <= frac_scaled(ds) <= 509) by {
            assert(510 * ds[0] + frac_scaled(rest) <= 510 * 9 + 509);
            assert(510 * ds[0] + frac_scaled(rest) >= 0);
        }
    }
}

/// The byte of the fraction `ip.ds`, computed exactly.
pub fn frac_digits_to_byte(ip: u8, ds: &Vec<u8>) -> (r: u8)
    requires
        all_digit_vals(ds@),
        frac_le_one(ip as int, ds@),
    ensures
        r as int == frac_to_byte_spec(ip as int, ds@),
{
    let mut w: u32 = 0;
    let mut i: usize = ds.len();
    while i > 0
        invariant
            i <= ds@.len(),
            all_digit_vals(ds@),
            w == frac_scaled(ds@.skip(i as int)),
            w <= 509,
        decreases i,
    {
        i = i - 1;
        proof {
            assert(ds@.skip(i as int)[0] == ds@[i as int]);
            assert(ds@.skip(i as int).skip(1) =~= ds@.skip(i as int + 1));
        }
        w = (510 * (ds[i] as u32) + w) / 10;
    }
    proof {
        assert(ds@.skip(0) =~= ds@);
        lemma_frac_scaled(ds@);
        let p = pow10(ds@.len());
        let num = digits_num(ds@);
        lemma_pow10_pos(ds@.len());
        lemma_digits_num_bound(ds@);
        // (510*(ip*p + num) + p) / (2*p) == ((510*(ip*p + num) + p) / p) / 2
        let x = 510 * (ip as int * p + num) + p;
        assert(x == 510 * num + (510 * ip as int + 1) * p) by (nonlinear_arith)
            requires
                x == 510 * (ip as int * p + num) + p,
        ;
        assert(510 * num >= 0) by (nonlinear_arith)
            requires
                num >= 0,
        ;
        assert(x >= 0) by (nonlinear_arith)
            requires
                510 * num >= 0,
                p >= 1,
                ip >= 0,
                x == 510 * num + (510 * ip as int + 1) * p,
        ;
        lemma_div_denominator(x, p, 2);
        lemma_hoist_over_denominator(510 * num, 510 * ip as int + 1, p as nat);
        assert(x / p == 510 * num / p + (510 * ip as int + 1));
        assert(frac_to_byte_spec(ip as int, ds@) == (510 * ip as int + w + 1) / 2int);
        if ip == 1 {
            lemma_digits_num_zero(ds@);
            assert(forall|j: int| 0 <= j < ds@.len() ==> #[trigger] ds@[j] == 0);
            assert(510 * num == 0);
            assert(w == 0);
        }
    }
    let r: u32 = (510 * (ip as u32) + w + 1) / 2;
    r as u8
}

/// The fraction of a byte, in thousandths.
pub fn u8_to_milli(b: u8) -> (r: u16)
    ensures
        r as int == milli_spec(b as int),
        r <= 1000,
{
    ((2000 * (b as u32) + 255) / 510) as u16
}

/// The number a digit sequence writes, exact up to 255; any larger number
/// is reported as 256.
pub fn digits_value_capped(ds: &Vec<u8>) -> (r: u32)
    requires
        all_digit_vals(ds@),
    ensures
        digits_num(ds@) <= 255 ==> r == digits_num(ds@),
        digits_num(ds@) > 255 ==> r == 256,
{
    let n: usize = ds.len();
    let mut r: u32 = 0;
    let mut i: usize = 0;
    while i < n
        invariant
            i <= n,
            n == ds@.len(),
            all_digit_vals(ds@),
            (digits_num(ds@.take(i as int)) <= 255 && r == digits_num(ds@.take(i as int)))
                || (digits_num(ds@.take(i as int)) > 255 && r == 256),
        decreases n - i,
    {
        proof {
            let pref = ds@.take(i as int);
            let pref1 = ds@.take(i + 1int);
            assert(all_digit_vals(pref)) by {
                assert(forall|j: int| 0 <= j < pref.len() ==> pref[j] == ds@[j]);
            }
            lemma_digits_num_bound(pref);
            lemma_digits_num_snoc(pref1);
            assert(pref1.drop_last() =~= pref);
            assert(pref1.last() == ds@[i as int]);
        }
        let d = ds[i] as u32;
        let t: u32 = 10 * r + d;
        r = if t > 256 {
            256
        } else {
            t
        };
        i = i + 1;
    }
    proof {
        assert(ds@.take(n as int) =~= ds@);
    }
    r
}

/// A larger byte value never decodes to a smaller fraction.
pub proof fn lemma_byte_to_fraction_monotonic(b1: int, b2: int)
    requires
        0 <= b1 <= b2 <= 255,
    ensures
        milli_spec(b1) <= milli_spec(b2),
{
    lemma_div_is_ordered(2000 * b1 + 255, 2000 * b2 + 255, 510);
}

/// Why a numeric field was refused: its spelling, or its value.
#[derive(Debug, Clone, Copy, PartialEq, Eq, Structural)]
pub enum FieldError {
    Syntax,
    Range,
}

/// A field that spells a whole number: one or more decimal digits.
pub open spec fn int_syntax(f: Seq<char>) -> bool {
    f.len() > 0 && crate::text::all_digits(f)
}

pub open spec fn int_value(f: Seq<char>) -> int {
    digits_num(crate::text::digit_vals(f))
}

/// A field that spells a fraction: digits, with at most one point.
pub open spec fn frac_syntax(f: Seq<char>) -> bool {
    let i = crate::text::find_char(f, '.');
    if i >= f.len() {
        f.len() > 0 && crate::text::all_digits(f)
    } else {
        f.len() > 1 && crate::text::all_digits(f.take(i)) && crate::text::all_digits(
            f.skip(i + 1),
        )
    }
}

/// The whole part of a fraction field.
pub open spec fn frac_ipart(f: Seq<char>) -> int {
    let i = crate::text::find_char(f, '.');
    if i >= f.len() {
        int_value(f)
    } else {
        digits_num(crate::text::digit_vals(f.take(i)))
    }
}

/// The digits after the point of a fraction field.
pub open spec fn frac_fdigits(f: Seq<char>) -> Seq<u8> {
    let i = crate::text::find_char(f, '.');
    if i >= f.len() {
        Seq::empty()
    } else {
        crate::text::digit_vals(f.skip(i + 1))
    }
}

/// Whether a fraction field's value lies in [0, 1].
pub open spec fn frac_in_range(f: Seq<char>) -> bool {
    frac_le_one(frac_ipart(f), frac_fdigits(f))
}

/// The byte a fraction field converts to.
pub open spec fn frac_byte(f: Seq<char>) -> int {
    frac_to_byte_spec(frac_ipart(f), frac_fdigits(f))
}

/// The digit values of `v` between `from` and `to`, when all of them are
/// decimal digits.
fn digit_vals_range(v: &Vec<char>, from: usize, to: usize) -> (r: Option<Vec<u8>>)
    requires
        from <= to <= v@.len(),
    ensures
        match r {
            Some(ds) => crate::text::all_digits(v@.subrange(from as int, to as int)) && ds@
                == crate::text::digit_vals(v@.subrange(from as int, to as int)) && all_digit_vals(
                ds@,
            ),
            None => !crate::text::all_digits(v@.subrange(from as int, to as int)),
        },
{
    let ghost seg = v@.subrange(from as int, to as int);
    let mut ds: Vec<u8> = Vec::new();
    let mut i: usize = from;
    while i < to
        invariant
            from <= i <= to <= v@.len(),
            seg == v@.subrange(from as int, to as int),
            forall|j: int| 0 <= j < i - from ==> crate::text::is_digit(#[trigger] seg[j]),
            ds@ == crate::text::digit_vals(seg.take(i - from)),
            all_digit_vals(ds@),
        decreases to - i,
    {
        let c = v[i];
        if !('0' <= c && c <= '9') {
            proof {
                assert(seg[i - from] == c);
            }
            return None;
        }
        let d: u8 = (c as u32 - '0' as u32) as u8;
        ds.push(d);
        i = i + 1;
        proof {
            assert(ds@ =~= crate::text::digit_vals(seg.take(i - from)));
        }
    }
    proof {
        assert(seg.take(to - from) =~= seg);
    }
    Some(ds)
}

/// Reads a field as a whole number in [0, 255].
pub fn parse_int_field(v: &Vec<char>, from: usize, to: usize) -> (r: Result<u8, FieldError>)
    requires
        from <= to <= v@.len(),
    ensures
        match r {
            Ok(b) => int_syntax(v@.subrange(from as int, to as int)) && b as int == int_value(
                v@.subrange(from as int, to as int),
            ) && int_value(v@.subrange(from as int, to as int)) <= 255,
            Err(FieldError::Syntax) => !int_syntax(v@.subrange(from as int, to as int)),
            Err(FieldError::Range) => int_syntax(v@.subrange(from as int, to as int)) && int_value(
                v@.subrange(from as int, to as int),
            ) > 255,
        },
{
    let ghost seg = v@.subrange(from as int, to as int);
    if to == from {
        return Err(FieldError::Syntax);
    }
    match digit_vals_range(v, from, to) {
        None => Err(FieldError::Syntax),
        Some(ds) => {
            let val = digits_value_capped(&ds);
            if val > 255 {
                Err(FieldError::Range)
            } else {
                Ok(val as u8)
            }
        },
    }
}

/// Reads a field as a fraction in [0, 1] and converts it to a byte.
pub fn parse_frac_field(v: &Vec<char>, from: usize, to: usize) -> (r: Result<u8, FieldError>)
    requires
        from <= to <= v@.len(),
    ensures
        match r {
            Ok(b) => frac_syntax(v@.subrange(from as int, to as int)) && frac_in_range(
                v@.subrange(from as int, to as int),
            ) && b as int == frac_byte(v@.subrange(from as int, to as int)),
            Err(FieldError::Syntax) => !frac_syntax(v@.subrange(from as int, to as int)),
            Err(FieldError::Range) => frac_syntax(v@.subrange(from as int, to as int))
                && !frac_in_range(v@.subrange(from as int, to as int)),
        },
{
    let ghost seg = v@.subrange(from as int, to as int);
    let mut dot: usize = from;
    while dot < to && v[dot] != '.'
        invariant
            from <= dot <= to <= v@.len(),
            forall|j: int| 0 <= j < dot - from ==> seg[j] != '.',
            seg == v@.subrange(from as int, to as int),
        decreases to - dot,
    {
        dot = dot + 1;
    }
    proof {
        if dot < to {
            assert(seg[dot - from] == '.');
        }
        lemma_find_char_at(seg, '.', dot - from);
    }
    if dot == to {
        // no point: the field is a whole number
        if to == from {
            return Err(FieldError::Syntax);
        }
        match digit_vals_range(v, from, to) {
            None => Err(FieldError::Syntax),
            Some(ds) => {
                let ip = digits_value_capped(&ds);
                if ip >= 2 {
                    Err(FieldError::Range)
                } else {
                    let fd: Vec<u8> = Vec::new();
                    proof {
                        assert(frac_fdigits(seg) =~= fd@);
                    }
                    let b = frac_digits_to_byte(ip as u8, &fd);
                    Ok(b)
                }
            },
        }
    } else {
        if to - from <= 1 {
            // the field is a lone point
            return Err(FieldError::Syntax);
        }
        proof {
            assert(seg.take(dot - from) =~= v@.subrange(from as int, dot as int));
            assert(seg.skip(dot - from + 1) =~= v@.subrange(dot + 1int, to as int));
        }
        match digit_vals_range(v, from, dot) {
            None => Err(FieldError::Syntax),
            Some(ds) => {
                match digit_vals_range(v, dot + 1, to) {
                    None => Err(FieldError::Syntax),
                    Some(fd) => {
                        let ip = digits_value_capped(&ds);
                        if ip >= 2 {
                            return Err(FieldError::Range);
                        }
                        if ip == 1 {
                            let fval = digits_value_capped(&fd);
                            if fval != 0 {
                                return Err(FieldError::Range);
                            }
                        }
                        let b = frac_digits_to_byte(ip as u8, &fd);
                        Ok(b)
                    },
                }
            },
        }
    }
}

} // verus!
