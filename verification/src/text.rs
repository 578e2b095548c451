//! Character classes, whitespace trimming, comma splitting and the small
//! string-building steps that the color notations share.
use vstd::prelude::*;
use vstd::string::StrSliceExecFns;

verus! {

/// The whitespace characters tolerated around tokens: the ASCII ones.
pub open spec fn is_space(c: char) -> bool {
    c == ' ' || c == '\t' || c == '\n' || c == '\r' || c == '\u{b}' || c == '\u{c}'
}

pub open spec fn is_digit(c: char) -> bool {
    '0' <= c && c <= '9'
}

pub open spec fn is_hex_digit(c: char) -> bool {
    is_digit(c) || ('a' <= c && c <= 'f') || ('A' <= c && c <= 'F')
}

/// Numeric value of a hexadecimal digit (so also of a decimal digit).
pub open spec fn hex_val(c: char) -> int
    recommends
        is_hex_digit(c),
{
    if is_digit(c) {
        c as int - '0' as int
    } else if 'a' <= c && c <= 'f' {
        c as int - 'a' as int + 10
    } else {
        c as int - 'A' as int + 10
    }
}

/// The lowercase digit character of a value below 16.
pub open spec fn digit_char(v: int) -> char
    recommends
        0 <= v < 16,
{
    if v == 0 { '0' } else if v == 1 { '1' } else if v == 2 { '2' } else if v == 3 { '3' }
    else if v == 4 { '4' } else if v == 5 { '5' } else if v == 6 { '6' } else if v == 7 { '7' }
    else if v == 8 { '8' } else if v == 9 { '9' } else if v == 10 { 'a' } else if v == 11 { 'b' }
    else if v == 12 { 'c' } else if v == 13 { 'd' } else if v == 14 { 'e' } else { 'f' }
}

pub open spec fn all_digits(s: Seq<char>) -> bool {
    forall|i: int| 0 <= i < s.len() ==> is_digit(#[trigger] s[i])
}

pub open spec fn all_hex_digits(s: Seq<char>) -> bool {
    forall|i: int| 0 <= i < s.len() ==> is_hex_digit(#[trigger] s[i])
}

/// The digit values of a sequence of decimal digit characters.
pub open spec fn digit_vals(s: Seq<char>) -> Seq<u8> {
    s.map(|i: int, c: char| (c as int - '0' as int) as u8)
}

pub open spec fn trim_left(s: Seq<char>) -> Seq<char>
    decreases s.len(),
{
    if s.len() > 0 && is_space(s[0]) {
        trim_left(s.skip(1))
    } else {
        s
    }
}

pub open spec fn trim_right(s: Seq<char>) -> Seq<char>
    decreases s.len(),
{
    if s.len() > 0 && is_space(s[s.len() - 1]) {
        trim_right(s.drop_last())
    } else {
        s
    }
}

/// A sequence without its leading and trailing whitespace.
pub open spec fn trim(s: Seq<char>) -> Seq<char> {
    trim_right(trim_left(s))
}

pub proof fn lemma_trim_left_at(s: Seq<char>, k: int)
    requires
        0 <= k <= s.len(),
        forall|j: int| 0 <= j < k ==> is_space(#[trigger] s[j]),
        k == s.len() || !is_space(s[k]),
    ensures
        trim_left(s) == s.skip(k),
    decreases k,
{
    if k == 0 {
        assert(s.skip(0) =~= s);
    } else {
        lemma_trim_left_at(s.skip(1), k - 1);
        assert(s.skip(1).skip(k - 1) =~= s.skip(k));
    }
}

pub proof fn lemma_trim_right_at(s: Seq<char>, h: int)
    requires
        0 <= h <= s.len(),
        forall|j: int| h <= j < s.len() ==> is_space(#[trigger] s[j]),
        h == 0 || !is_space(s[h - 1]),
    ensures
        trim_right(s) == s.take(h),
    decreases s.len(),
{
    if h == s.len() {
        assert(s.take(h) =~= s);
    } else {
        lemma_trim_right_at(s.drop_last(), h);
        assert(s.drop_last().take(h) =~= s.take(h));
    }
}

/// A sequence with no whitespace at all is its own trim.
pub proof fn lemma_trim_id(s: Seq<char>)
    requires
        forall|j: int| 0 <= j < s.len() ==> !is_space(#[trigger] s[j]),
    ensures
        trim(s) == s,
{
    lemma_trim_left_at(s, 0);
    assert(s.skip(0) =~= s);
    lemma_trim_right_at(s, s.len() as int);
    assert(s.take(s.len() as int) =~= s);
}

/// The index of the first occurrence of `c`, or the length when absent.
pub open spec fn find_char(s: Seq<char>, c: char) -> int
    decreases s.len(),
{
    if s.len() == 0 {
        0
    } else if s[0] == c {
        0
    } else {
        1 + find_char(s.skip(1), c)
    }
}

pub proof fn lemma_find_char_bounds(s: Seq<char>, c: char)
    ensures
        0 <= find_char(s, c) <= s.len(),
        find_char(s, c) < s.len() ==> s[find_char(s, c)] == c,
        forall|j: int| 0 <= j < find_char(s, c) ==> s[j] != c,
    decreases s.len(),
{
    if s.len() > 0 && s[0] != c {
        lemma_find_char_bounds(s.skip(1), c);
        assert forall|j: int| 0 <= j < find_char(s, c) implies s[j] != c by {
            if j > 0 {
                assert(s.skip(1)[j - 1] != c);
            }
        }
    }
}

pub proof fn lemma_find_char_at(s: Seq<char>, c: char, k: int)
    requires
        0 <= k <= s.len(),
        forall|j: int| 0 <= j < k ==> s[j] != c,
        k == s.len() || s[k] == c,
    ensures
        find_char(s, c) == k,
    decreases k,
{
    if k > 0 {
        lemma_find_char_at(s.skip(1), c, k - 1);
    }
}

/// The pieces of `s` between its commas, in order; a sequence without a
/// comma is one piece.
pub open spec fn split_fields(s: Seq<char>) -> Seq<Seq<char>>
    decreases s.len(),
    via split_fields_decreases
{
    let i = find_char(s, ',');
    if i >= s.len() {
        seq![s]
    } else {
        seq![s.take(i)] + split_fields(s.skip(i + 1))
    }
}

#[via_fn]
proof fn split_fields_decreases(s: Seq<char>) {
    lemma_find_char_bounds(s, ',');
}

/// The decimal spelling of a byte value, without leading zeros.
pub open spec fn dec_str(n: int) -> Seq<char>
    recommends
        0 <= n <= 255,
{
    if n < 10 {
        seq![digit_char(n)]
    } else if n < 100 {
        seq![digit_char(n / 10), digit_char(n % 10)]
    } else {
        seq![digit_char(n / 100), digit_char((n / 10) % 10), digit_char(n % 10)]
    }
}

/// The spelling of a fraction given in thousandths, with up to three
/// decimal places and trailing zeros dropped.
pub open spec fn milli_str(t: int) -> Seq<char>
    recommends
        0 <= t <= 1000,
{
    if t == 1000 {
        seq!['1']
    } else if t == 0 {
        seq!['0']
    } else if t % 10 != 0 {
        seq!['0', '.', digit_char(t / 100), digit_char((t / 10) % 10), digit_char(t % 10)]
    } else if (t / 10) % 10 != 0 {
        seq!['0', '.', digit_char(t / 100), digit_char((t / 10) % 10)]
    } else {
        seq!['0', '.', digit_char(t / 100)]
    }
}

/// Relies on `String::push`: appends the given character to the end of the string.
#[verifier::external_body]
pub(crate) fn push_char(s: &mut String, c: char)
    ensures
        final(s)@ == old(s)@.push(c),
{
    s.push(c);
}

/// The characters of a string slice, as a vector.
pub fn chars_of(s: &str) -> (r: Vec<char>)
    ensures
        r@ == s@,
{
    let n: usize = s.unicode_len();
    let mut r: Vec<char> = Vec::new();
    let mut i: usize = 0;
    while i < n
        invariant
            i <= n,
            n == s@.len(),
            r@ == s@.take(i as int),
        decreases n - i,
    {
        let c = s.get_char(i);
        r.push(c);
        i = i + 1;
        proof {
            assert(r@ =~= s@.take(i as int));
        }
    }
    proof {
        assert(s@.take(n as int) =~= s@);
    }
    r
}

/// The characters of `v` from `from` (inclusive) to `to` (exclusive).
pub fn copy_range(v: &Vec<char>, from: usize, to: usize) -> (r: Vec<char>)
    requires
        from <= to <= v@.len(),
    ensures
        r@ == v@.subrange(from as int, to as int),
{
    let mut r: Vec<char> = Vec::new();
    let mut i: usize = from;
    while i < to
        invariant
            from <= i <= to <= v@.len(),
            r@ == v@.subrange(from as int, i as int),
        decreases to - i,
    {
        let c = v[i];
        r.push(c);
        i = i + 1;
        proof {
            assert(r@ =~= v@.subrange(from as int, i as int));
        }
    }
    r
}

pub fn is_space_char(c: char) -> (r: bool)
    ensures
        r == is_space(c),
{
    c == ' ' || c == '\t' || c == '\n' || c == '\r' || c == '\u{b}' || c == '\u{c}'
}

/// `v` without its leading and trailing whitespace.
pub fn trim_chars(v: &Vec<char>) -> (r: Vec<char>)
    ensures
        r@ == trim(v@),
{
    let n: usize = v.len();
    let mut lo: usize = 0;
    while lo < n && is_space_char(v[lo])
        invariant
            lo <= n,
            n == v@.len(),
            forall|j: int| 0 <= j < lo ==> is_space(#[trigger] v@[j]),
        decreases n - lo,
    {
        lo = lo + 1;
    }
    proof {
        lemma_trim_left_at(v@, lo as int);
    }
    let mut hi: usize = n;
    while hi > lo && is_space_char(v[hi - 1])
        invariant
            lo <= hi <= n,
            n == v@.len(),
            forall|j: int| hi <= j < n ==> is_space(#[trigger] v@[j]),
        decreases hi,
    {
        hi = hi - 1;
    }
    proof {
        let t = v@.skip(lo as int);
        lemma_trim_right_at(t, hi - lo);
        assert(t.take(hi - lo) =~= v@.subrange(lo as int, hi as int));
    }
    copy_range(v, lo, hi)
}

/// The pieces of `v` between its commas, in order.
pub fn split_commas(v: &Vec<char>) -> (r: Vec<Vec<char>>)
    ensures
        r.deep_view() == split_fields(v@),
{
    let n: usize = v.len();
    let mut r: Vec<Vec<char>> = Vec::new();
    let mut start: usize = 0;
    let mut i: usize = 0;
    proof {
        assert(v@.skip(0) =~= v@);
        assert(r.deep_view() + split_fields(v@) =~~= split_fields(v@));
    }
    while i < n
        invariant
            start <= i <= n,
            n == v@.len(),
            forall|j: int| start <= j < i ==> v@[j] != ',',
            split_fields(v@) == r.deep_view() + split_fields(v@.skip(start as int)),
        decreases n - i,
    {
        if v[i] == ',' {
            let field = copy_range(v, start, i);
            proof {
                let rest = v@.skip(start as int);
                assert(forall|j: int| 0 <= j < i - start ==> rest[j] != ',');
                lemma_find_char_at(rest, ',', i - start);
                assert(rest.take(i - start) =~= v@.subrange(start as int, i as int));
                assert(rest.skip(i - start + 1) =~= v@.skip(i + 1));
                let old_dv = r.deep_view();
                assert(split_fields(rest) == seq![field@] + split_fields(v@.skip(i + 1)));
                assert((old_dv + split_fields(rest)) =~= (old_dv.push(field@) + split_fields(
                    v@.skip(i + 1),
                )));
            }
            let ghost old_r = r.deep_view();
            r.push(field);
            proof {
                assert(r.deep_view() =~~= old_r.push(v@.subrange(start as int, i as int)));
            }
            start = i + 1;
        }
        i = i + 1;
    }
    let field = copy_range(v, start, n);
    proof {
        let rest = v@.skip(start as int);
        lemma_find_char_at(rest, ',', n - start);
        assert(rest.take(n - start) =~= rest);
        assert(split_fields(rest) == seq![field@]);
        let old_dv = r.deep_view();
        assert((old_dv + split_fields(rest)) =~= old_dv.push(field@));
    }
    let ghost old_r = r.deep_view();
    r.push(field);
    proof {
        assert(r.deep_view() =~~= old_r.push(v@.subrange(start as int, n as int)));
    }
    r
}

/// The character of a digit value below 16.
pub fn digit_char_of(v: u8) -> (c: char)
    requires
        v < 16,
    ensures
        c == digit_char(v as int),
{
    match v {
        0 => '0',
        1 => '1',
        2 => '2',
        3 => '3',
        4 => '4',
        5 => '5',
        6 => '6',
        7 => '7',
        8 => '8',
        9 => '9',
        10 => 'a',
        11 => 'b',
        12 => 'c',
        13 => 'd',
        14 => 'e',
        _ => 'f',
    }
}

/// Appends the decimal spelling of a byte value.
pub fn push_dec_u8(s: &mut String, n: u8)
    ensures
        final(s)@ == old(s)@ + dec_str(n as int),
{
    if n < 10 {
        push_char(s, digit_char_of(n));
    } else if n < 100 {
        push_char(s, digit_char_of(n / 10));
        push_char(s, digit_char_of(n % 10));
    } else {
        push_char(s, digit_char_of(n / 100));
        push_char(s, digit_char_of((n / 10) % 10));
        push_char(s, digit_char_of(n % 10));
    }
    proof {
        assert(s@ =~= old(s)@ + dec_str(n as int));
    }
}

/// Appends the spelling of a fraction given in thousandths.
pub fn push_milli(s: &mut String, t: u16)
    requires
        t <= 1000,
    ensures
        final(s)@ == old(s)@ + milli_str(t as int),
{
    if t == 1000 {
        push_char(s, '1');
    } else if t == 0 {
        push_char(s, '0');
    } else {
        push_char(s, '0');
        push_char(s, '.');
        push_char(s, digit_char_of((t / 100) as u8));
        if t % 10 != 0 {
            push_char(s, digit_char_of(((t / 10) % 10) as u8));
            push_char(s, digit_char_of((t % 10) as u8));
        } else if (t / 10) % 10 != 0 {
            push_char(s, digit_char_of(((t / 10) % 10) as u8));
        }
    }
    proof {
        assert(s@ =~= old(s)@ + milli_str(t as int));
    }
}

} // verus!
