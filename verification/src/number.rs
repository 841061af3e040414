//! Decimal numbers as text: writing them, and reading integers and decimal fractions.

use crate::text::push_all;
use vstd::prelude::*;

verus! {

/// Whether `c` is an ASCII digit.
pub open spec fn is_digit(c: char) -> bool {
    '0' <= c <= '9'
}

/// The value of an ASCII digit.
pub open spec fn digit_value(c: char) -> nat {
    (c as u32 - '0' as u32) as nat
}

/// The ASCII digit of value `d`.
pub open spec fn digit(d: nat) -> char {
    ('0' as u32 + d) as char
}

/// `n` in decimal, without leading zeros.
pub open spec fn decimal(n: nat) -> Seq<char>
    decreases n,
{
    if n < 10 {
        seq![digit(n)]
    } else {
        decimal(n / 10).push(digit(n % 10))
    }
}

/// `k` zeros.
pub open spec fn zeros(k: nat) -> Seq<char> {
    Seq::new(k, |i: int| '0')
}

/// `n` in decimal, with zeros in front up to `width` characters.
pub open spec fn padded(n: nat, width: nat) -> Seq<char> {
    if decimal(n).len() < width {
        zeros((width - decimal(n).len()) as nat) + decimal(n)
    } else {
        decimal(n)
    }
}

/// `i` in decimal, with a minus sign where it is negative.
pub open spec fn signed_decimal(i: int) -> Seq<char> {
    if i < 0 {
        seq!['-'] + decimal((-i) as nat)
    } else {
        decimal(i as nat)
    }
}

/// Whether every character is a digit.
pub open spec fn all_digits(s: Seq<char>) -> bool {
    forall|i: int| 0 <= i < s.len() ==> is_digit(#[trigger] s[i])
}

/// The value of a run of digits.
pub open spec fn digits_value(s: Seq<char>) -> nat
    decreases s.len(),
{
    if s.len() == 0 {
        0
    } else {
        digits_value(s.drop_last()) * 10 + digit_value(s.last())
    }
}

/// `s` without a plus sign in front.
pub open spec fn without_plus(s: Seq<char>) -> Seq<char> {
    if s.len() > 0 && s[0] == '+' {
        s.drop_first()
    } else {
        s
    }
}

/// The natural number that `s` writes: an optional `+`, then digits only.
pub open spec fn natural(s: Seq<char>) -> Option<nat> {
    let body = without_plus(s);
    if body.len() > 0 && all_digits(body) {
        Some(digits_value(body))
    } else {
        None
    }
}

/// The integer that `s` writes: an optional sign, then digits only.
pub open spec fn integer(s: Seq<char>) -> Option<int> {
    if s.len() > 0 && s[0] == '-' {
        let body = s.drop_first();
        if body.len() > 0 && all_digits(body) {
            Some(-(digits_value(body) as int))
        } else {
            None
        }
    } else {
        match natural(s) {
            Some(n) => Some(n as int),
            None => None,
        }
    }
}

/// Decimal digits of `n`.
pub proof fn lemma_decimal(n: nat)
    ensures
        decimal(n).len() > 0,
        all_digits(decimal(n)),
        digits_value(decimal(n)) == n,
    decreases n,
{
    reveal_with_fuel(digits_value, 2);
    if n < 10 {
        assert(decimal(n).drop_last() =~= Seq::<char>::empty());
    } else {
        lemma_decimal(n / 10);
        assert(decimal(n).drop_last() =~= decimal(n / 10));
    }
}

/// Zeros in front do not change the value.
pub proof fn lemma_zeros_value(k: nat, s: Seq<char>)
    requires
        all_digits(s),
    ensures
        all_digits(zeros(k) + s),
        digits_value(zeros(k) + s) == digits_value(s),
    decreases s.len() + k,
{
    let t = zeros(k) + s;
    if s.len() > 0 {
        lemma_zeros_value(k, s.drop_last());
        assert(t.drop_last() =~= zeros(k) + s.drop_last());
    } else if k > 0 {
        lemma_zeros_value((k - 1) as nat, s);
        assert(t.drop_last() =~= zeros((k - 1) as nat) + s);
    }
}

/// Padded decimals hold digits only and keep the value.
pub proof fn lemma_padded(n: nat, width: nat)
    ensures
        padded(n, width).len() > 0,
        padded(n, width).len() >= width,
        all_digits(padded(n, width)),
        digits_value(padded(n, width)) == n,
{
    lemma_decimal(n);
    if decimal(n).len() < width {
        lemma_zeros_value((width - decimal(n).len()) as nat, decimal(n));
    }
}

/// A written natural number reads back as itself.
pub proof fn lemma_natural_padded(n: nat, width: nat)
    ensures
        natural(padded(n, width)) == Some(n),
{
    lemma_padded(n, width);
    assert(is_digit(padded(n, width)[0]));
}

/// A written integer reads back as itself.
pub proof fn lemma_integer_signed(i: int)
    ensures
        integer(signed_decimal(i)) == Some(i),
{
    if i < 0 {
        lemma_decimal((-i) as nat);
        assert(signed_decimal(i).drop_first() =~= decimal((-i) as nat));
    } else {
        lemma_decimal(i as nat);
        assert(is_digit(decimal(i as nat)[0]));
    }
}

/// The digit of value `d`.
fn digit_char(d: u64) -> (c: char)
    requires
        d < 10,
    ensures
        c == digit(d as nat),
{
    ('0' as u8 + d as u8) as char
}

/// Appends `n` in decimal.
pub fn push_decimal(out: &mut Vec<char>, n: u64)
    ensures
        final(out)@ == old(out)@ + decimal(n as nat),
    decreases n,
{
    if n < 10 {
        out.push(digit_char(n));
        assert(out@ =~= old(out)@ + seq![digit(n as nat)]);
    } else {
        push_decimal(out, n / 10);
        out.push(digit_char(n % 10));
        assert(out@ =~= old(out)@ + decimal(n as nat));
    }
}

/// Appends `n` in decimal, with zeros in front up to `width` characters.
pub fn push_padded(out: &mut Vec<char>, n: u64, width: usize)
    ensures
        final(out)@ == old(out)@ + padded(n as nat, width as nat),
{
    let mut digits: Vec<char> = Vec::new();
    push_decimal(&mut digits, n);
    assert(digits@ =~= decimal(n as nat));
    let ghost start = out@;
    let count: usize = if digits.len() < width {
        width - digits.len()
    } else {
        0
    };
    assert(start + zeros(0) =~= start);
    for i in 0..count
        invariant
            out@ == start + zeros(i as nat),
    {
        out.push('0');
        assert(start + zeros((i + 1) as nat) =~= (start + zeros(i as nat)).push('0'));
    }
    push_all(out, digits.as_slice());
    assert(out@ =~= start + padded(n as nat, width as nat));
}

/// Appends `i` in decimal, with a minus sign where it is negative.
pub fn push_signed(out: &mut Vec<char>, i: i64)
    ensures
        final(out)@ == old(out)@ + signed_decimal(i as int),
{
    if i < 0 {
        out.push('-');
        let m: u64 = if i == i64::MIN {
            0x8000_0000_0000_0000
        } else {
            (-i) as u64
        };
        push_decimal(out, m);
        assert(out@ =~= old(out)@ + signed_decimal(i as int));
    } else {
        push_decimal(out, i as u64);
    }
}

/// Whether `c` is an ASCII digit.
pub fn is_digit_char(c: char) -> (r: bool)
    ensures
        r == is_digit(c),
{
    '0' <= c && c <= '9'
}

/// The value of a prefix of the digits never exceeds that of the whole.
pub proof fn lemma_digits_prefix(s: Seq<char>, i: int)
    requires
        0 <= i <= s.len(),
    ensures
        digits_value(s.take(i)) <= digits_value(s),
    decreases s.len() - i,
{
    if i < s.len() {
        lemma_digits_prefix(s, i + 1);
        assert(s.take(i + 1).drop_last() =~= s.take(i));
    } else {
        assert(s.take(i) =~= s);
    }
}

/// Why a text is not an integer of the wanted type.
#[derive(Debug, Clone, Copy, PartialEq, Eq, Structural)]
pub enum IntegerError {
    /// There is no text at all.
    Empty,
    /// Something other than an optional sign and digits.
    InvalidDigit,
    /// The number does not fit the type.
    OutOfRange,
}

/// The value of `s` where it is digits only and fits `u64`.
pub(crate) fn digits_to_u64(s: &[char]) -> (r: Result<u64, IntegerError>)
    ensures
        match r {
            Ok(v) => s@.len() > 0 && all_digits(s@) && digits_value(s@) == v,
            Err(IntegerError::Empty) => s@.len() == 0,
            Err(IntegerError::InvalidDigit) => s@.len() > 0 && !all_digits(s@),
            Err(IntegerError::OutOfRange) => s@.len() > 0 && all_digits(s@) && digits_value(s@)
                > u64::MAX,
        },
{
    if s.len() == 0 {
        return Err(IntegerError::Empty);
    }
    for i in 0..s.len()
        invariant
            forall|j: int| 0 <= j < i ==> is_digit(#[trigger] s@[j]),
    {
        if !is_digit_char(s[i]) {
            return Err(IntegerError::InvalidDigit);
        }
    }
    let mut v: u64 = 0;
    for i in 0..s.len()
        invariant
            s@.len() > 0,
            all_digits(s@),
            v == digits_value(s@.take(i as int)),
    {
        let d: u64 = (s[i] as u32 - '0' as u32) as u64;
        proof {
            assert(is_digit(s@[i as int]));
            assert(s@.take(i + 1).drop_last() =~= s@.take(i as int));
            lemma_digits_prefix(s@, i + 1);
        }
        if v > (u64::MAX - d) / 10 {
            return Err(IntegerError::OutOfRange);
        }
        v = v * 10 + d;
    }
    assert(s@.take(s@.len() as int) =~= s@);
    Ok(v)
}

/// What reading an unsigned integer gives: the number where the text is an optional `+` and
/// digits and the number fits, else the reason.
pub open spec fn read_u64(s: Seq<char>) -> Result<u64, IntegerError> {
    if s.len() == 0 {
        Err(IntegerError::Empty)
    } else {
        match natural(s) {
            None => Err(IntegerError::InvalidDigit),
            Some(n) => if n <= u64::MAX {
                Ok(n as u64)
            } else {
                Err(IntegerError::OutOfRange)
            },
        }
    }
}

/// Reads an unsigned integer: an optional `+`, then digits only.
pub fn parse_u64(s: &[char]) -> (r: Result<u64, IntegerError>)
    ensures
        r == read_u64(s@),
{
    if s.len() == 0 {
        return Err(IntegerError::Empty);
    }
    let body = if s[0] == '+' {
        vstd::slice::slice_subrange(s, 1, s.len())
    } else {
        s
    };
    assert(body@ =~= without_plus(s@));
    match digits_to_u64(body) {
        Err(IntegerError::Empty) => Err(IntegerError::InvalidDigit),
        other => other,
    }
}

/// What reading a signed integer gives.
pub open spec fn read_i64(s: Seq<char>) -> Option<i64> {
    match integer(s) {
        Some(i) => if i64::MIN <= i <= i64::MAX {
            Some(i as i64)
        } else {
            None
        },
        None => None,
    }
}

/// Reads a signed integer: an optional sign, then digits only.
pub fn parse_i64(s: &[char]) -> (r: Option<i64>)
    ensures
        r == read_i64(s@),
{
    if s.len() > 0 && s[0] == '-' {
        let body = vstd::slice::slice_subrange(s, 1, s.len());
        assert(body@ =~= s@.drop_first());
        match digits_to_u64(body) {
            Ok(m) => {
                if m < 0x8000_0000_0000_0000 {
                    Some(-(m as i64))
                } else if m == 0x8000_0000_0000_0000 {
                    Some(i64::MIN)
                } else {
                    None
                }
            },
            Err(_) => None,
        }
    } else {
        match parse_u64(s) {
            Ok(m) => {
                if m <= 0x7fff_ffff_ffff_ffff {
                    Some(m as i64)
                } else {
                    None
                }
            },
            Err(_) => None,
        }
    }
}

/// What reading a 32-bit signed integer gives.
pub open spec fn read_i32(s: Seq<char>) -> Option<i32> {
    match integer(s) {
        Some(i) => if i32::MIN <= i <= i32::MAX {
            Some(i as i32)
        } else {
            None
        },
        None => None,
    }
}

/// Reads a 32-bit signed integer: an optional sign, then digits only.
pub fn parse_i32(s: &[char]) -> (r: Option<i32>)
    ensures
        r == read_i32(s@),
{
    match parse_i64(s) {
        Some(i) => {
            if -0x8000_0000 <= i && i <= 0x7fff_ffff {
                Some(i as i32)
            } else {
                None
            }
        },
        None => None,
    }
}

/// `10` to the power `k`.
pub open spec fn pow10(k: nat) -> nat
    decreases k,
{
    if k == 0 {
        1
    } else {
        10 * pow10((k - 1) as nat)
    }
}

/// The length of the run of digits at the front of `s`.
pub open spec fn digit_run(s: Seq<char>) -> nat
    decreases s.len(),
{
    if s.len() == 0 || !is_digit(s[0]) {
        0
    } else {
        1 + digit_run(s.drop_first())
    }
}

/// A number written as a decimal fraction: `digits` times `10` to the power `scale`, an
/// infinity, or no number at all.
pub enum Real {
    Finite { negative: bool, digits: Seq<char>, scale: int },
    Infinite { negative: bool },
    NotANumber,
}

/// `c` as an ASCII small letter.
pub open spec fn small(c: char) -> char {
    if 'A' <= c <= 'Z' {
        (c as u32 + 32) as char
    } else {
        c
    }
}

/// Whether `s` is `t` but for the case of ASCII letters; `t` is in small letters.
pub open spec fn is_caseless(s: Seq<char>, t: Seq<char>) -> bool {
    &&& s.len() == t.len()
    &&& forall|i: int| 0 <= i < s.len() ==> small(#[trigger] s[i]) == t[i]
}

/// Whether a sign stands in front of `s`.
pub open spec fn has_sign(s: Seq<char>) -> bool {
    s.len() > 0 && (s[0] == '+' || s[0] == '-')
}

/// `s` without a sign in front.
pub open spec fn without_sign(s: Seq<char>) -> Seq<char> {
    if has_sign(s) {
        s.drop_first()
    } else {
        s
    }
}

/// The power of ten that `s` writes behind a mantissa: nothing, or `e`, an optional sign and
/// digits.
pub open spec fn exponent(s: Seq<char>) -> Option<int> {
    if s.len() == 0 {
        Some(0)
    } else if s[0] != 'e' && s[0] != 'E' {
        None
    } else {
        let t = s.drop_first();
        let body = without_sign(t);
        if body.len() > 0 && all_digits(body) {
            Some(
                if t[0] == '-' {
                    -(digits_value(body) as int)
                } else {
                    digits_value(body) as int
                },
            )
        } else {
            None
        }
    }
}

/// The digits in front of the point, those behind it, and what follows them.
pub open spec fn mantissa_parts(s: Seq<char>) -> (Seq<char>, Seq<char>, Seq<char>) {
    let whole = s.take(digit_run(s) as int);
    let rest = s.skip(digit_run(s) as int);
    if rest.len() > 0 && rest[0] == '.' {
        let tail = rest.drop_first();
        (whole, tail.take(digit_run(tail) as int), tail.skip(digit_run(tail) as int))
    } else {
        (whole, Seq::empty(), rest)
    }
}

/// The number that `s` writes: an optional sign, then `inf`, `infinity` or `nan` in any case, or
/// digits with an optional point among or around them and an optional power of ten.
pub open spec fn decimal_number(s: Seq<char>) -> Option<Real> {
    let negative = s.len() > 0 && s[0] == '-';
    let body = without_sign(s);
    if is_caseless(body, "inf"@) || is_caseless(body, "infinity"@) {
        Some(Real::Infinite { negative })
    } else if is_caseless(body, "nan"@) {
        Some(Real::NotANumber)
    } else {
        let (whole, fraction, rest) = mantissa_parts(body);
        match exponent(rest) {
            Some(e) if whole.len() + fraction.len() > 0 => Some(
                Real::Finite { negative, digits: whole + fraction, scale: e - fraction.len() },
            ),
            _ => None,
        }
    }
}

/// `mantissa` times `10` to the power `scale`, rounded to the nearest integer, halves up.
pub open spec fn nearest(mantissa: nat, scale: int) -> nat {
    if scale >= 0 {
        mantissa * pow10(scale as nat)
    } else {
        let unit = pow10((-scale) as nat);
        (2 * mantissa + unit) / (2 * unit)
    }
}

/// A number rounded to the nearest integer and kept within `u64`: what is below zero or no number
/// is `0`, what is too large is `u64::MAX`.
pub open spec fn nearest_u64(x: Real) -> u64 {
    match x {
        Real::Finite { negative, digits, scale } => if negative {
            0
        } else if nearest(digits_value(digits), scale) > u64::MAX {
            u64::MAX
        } else {
            nearest(digits_value(digits), scale) as u64
        },
        Real::Infinite { negative } => if negative {
            0
        } else {
            u64::MAX
        },
        Real::NotANumber => 0,
    }
}

/// What reading a number gives when it is rounded to the nearest integer.
pub open spec fn read_nearest(s: Seq<char>) -> Option<u64> {
    match decimal_number(s) {
        Some(x) => Some(nearest_u64(x)),
        None => None,
    }
}

/// `digit_run` from what holds of each character.
pub proof fn lemma_digit_run(s: Seq<char>, n: int)
    requires
        0 <= n <= s.len(),
        forall|j: int| 0 <= j < n ==> is_digit(#[trigger] s[j]),
        n < s.len() ==> !is_digit(s[n]),
    ensures
        digit_run(s) == n,
    decreases n,
{
    if n > 0 {
        let t = s.drop_first();
        assert(is_digit(s[0]));
        assert forall|j: int| 0 <= j < n - 1 implies is_digit(#[trigger] t[j]) by {
            assert(t[j] == s[j + 1]);
        }
        lemma_digit_run(t, n - 1);
    }
}

/// Powers of ten are positive.
pub proof fn lemma_pow10_positive(k: nat)
    ensures
        pow10(k) > 0,
    decreases k,
{
    if k > 0 {
        lemma_pow10_positive((k - 1) as nat);
    }
}

/// Powers of ten grow.
pub proof fn lemma_pow10_grows(j: nat, k: nat)
    requires
        j <= k,
    ensures
        pow10(j) <= pow10(k),
    decreases k - j,
{
    if j < k {
        lemma_pow10_grows(j, (k - 1) as nat);
        lemma_pow10_positive((k - 1) as nat);
    }
}

/// Digits write a number below the power of ten of their count.
pub proof fn lemma_digits_bound(d: Seq<char>)
    requires
        all_digits(d),
    ensures
        digits_value(d) < pow10(d.len()),
    decreases d.len(),
{
    if d.len() > 0 {
        lemma_digits_bound(d.drop_last());
        assert(is_digit(d.last()));
    }
}

/// The value of digits from that of two parts.
pub proof fn lemma_digits_parts(d: Seq<char>, p: int)
    requires
        0 <= p <= d.len(),
    ensures
        digits_value(d) == digits_value(d.take(p)) * pow10((d.len() - p) as nat) + digits_value(
            d.skip(p),
        ),
    decreases d.len() - p,
{
    if p == d.len() {
        assert(d.take(p) =~= d);
        assert(d.skip(p) =~= Seq::<char>::empty());
        assert(pow10((d.len() - p) as nat) == 1);
        assert(digits_value(d.take(p)) * 1 == digits_value(d));
    } else {
        let e = d.drop_last();
        lemma_digits_parts(e, p);
        assert(e.take(p) =~= d.take(p));
        assert(d.skip(p).drop_last() =~= e.skip(p));
        let a = digits_value(d.take(p));
        let b = pow10((e.len() - p) as nat);
        assert((a * b) * 10 == a * (10 * b)) by (nonlinear_arith);
    }
}

/// The number whose decimal digits are `d` with the point behind the first `p` of them, rounded
/// to the nearest integer, halves up.
spec fn rounded_at(d: Seq<char>, p: int) -> nat {
    if p >= d.len() {
        digits_value(d) * pow10((p - d.len()) as nat)
    } else if p >= 0 {
        digits_value(d.take(p)) + if digit_value(d[p]) >= 5 {
            1nat
        } else {
            0nat
        }
    } else {
        0
    }
}

/// Rounding looks at one digit only.
proof fn lemma_nearest(d: Seq<char>, scale: int)
    requires
        all_digits(d),
    ensures
        nearest(digits_value(d), scale) == rounded_at(d, d.len() + scale),
{
    let p = d.len() + scale;
    let m = digits_value(d);
    if p < d.len() {
        let k = (d.len() - p) as nat;
        let unit = pow10(k);
        lemma_pow10_positive(k);
        lemma_pow10_positive((k - 1) as nat);
        let tenth = pow10((k - 1) as nat);
        assert(unit == 10 * tenth);
        if p >= 0 {
            let hi = digits_value(d.take(p));
            let lo = digits_value(d.skip(p));
            lemma_digits_parts(d, p);
            assert(m == hi * unit + lo);
            lemma_digits_parts(d.skip(p), 1);
            let one = d.skip(p).take(1);
            assert(one.drop_last() =~= Seq::<char>::empty());
            assert(one.last() == d[p]);
            reveal_with_fuel(digits_value, 2);
            assert(digits_value(one) == digit_value(d[p]));
            assert(is_digit(d[p]));
            let low = d.skip(p).skip(1);
            assert(all_digits(low)) by {
                assert forall|i: int| 0 <= i < low.len() implies is_digit(#[trigger] low[i]) by {
                    assert(low[i] == d[p + 1 + i]);
                }
            }
            lemma_digits_bound(low);
            let c = digit_value(d[p]);
            let rest = digits_value(low);
            assert(lo == c * tenth + rest);
            assert(2 * m + unit == hi * (2 * unit) + (2 * lo + unit)) by (nonlinear_arith)
                requires
                    m == hi * unit + lo,
            ;
            if c >= 5 {
                assert(unit <= 2 * lo < 2 * unit + unit) by (nonlinear_arith)
                    requires
                        lo == c * tenth + rest,
                        rest < tenth,
                        5 <= c <= 9,
                        unit == 10 * tenth,
                        tenth > 0,
                ;
                assert(2 * lo < 2 * unit) by (nonlinear_arith)
                    requires
                        lo == c * tenth + rest,
                        rest < tenth,
                        c <= 9,
                        unit == 10 * tenth,
                        tenth > 0,
                ;
                assert((2 * m + unit) / (2 * unit) == hi + 1) by (nonlinear_arith)
                    requires
                        2 * m + unit == hi * (2 * unit) + (2 * lo + unit),
                        unit <= 2 * lo < 2 * unit,
                        unit > 0,
                ;
            } else {
                assert(2 * lo < unit) by (nonlinear_arith)
                    requires
                        lo == c * tenth + rest,
                        rest < tenth,
                        0 <= c <= 4,
                        unit == 10 * tenth,
                        tenth > 0,
                ;
                assert((2 * m + unit) / (2 * unit) == hi) by (nonlinear_arith)
                    requires
                        2 * m + unit == hi * (2 * unit) + (2 * lo + unit),
                        2 * lo < unit,
                        unit > 0,
                ;
            }
        } else {
            lemma_digits_bound(d);
            lemma_pow10_grows(d.len(), (k - 1) as nat);
            assert(10 * m < unit);
            assert((2 * m + unit) / (2 * unit) == 0) by (nonlinear_arith)
                requires
                    0 <= m,
                    10 * m < unit,
                    unit > 0,
            ;
        }
    }
}

/// Tests whether `s` is `t` but for the case of ASCII letters.
pub(crate) fn caseless(s: &[char], t: &[char]) -> (r: bool)
    ensures
        r == is_caseless(s@, t@),
{
    if s.len() != t.len() {
        return false;
    }
    for i in 0..s.len()
        invariant
            s@.len() == t@.len(),
            forall|j: int| 0 <= j < i ==> small(#[trigger] s@[j]) == t@[j],
    {
        let c = s[i];
        let l = if 'A' <= c && c <= 'Z' {
            (c as u8 + 32) as char
        } else {
            c
        };
        assert(l == small(c));
        if l != t[i] {
            return false;
        }
    }
    true
}

/// The length of the run of digits at the front of `s`.
fn count_digits(s: &[char]) -> (r: usize)
    ensures
        r == digit_run(s@),
        r <= s@.len(),
        all_digits(s@.take(r as int)),
        r < s@.len() ==> !is_digit(s@[r as int]),
{
    let mut n: usize = 0;
    while n < s.len() && is_digit_char(s[n])
        invariant
            n <= s@.len(),
            forall|j: int| 0 <= j < n ==> is_digit(#[trigger] s@[j]),
        decreases s@.len() - n,
    {
        n += 1;
    }
    proof {
        lemma_digit_run(s@, n as int);
    }
    n
}

/// Exponents from here on are not told apart.
pub(crate) const LARGE_EXPONENT: i128 = 0x10_0000_0000_0000_0000_0000_0000;

/// The value of digits, but no more than `LARGE_EXPONENT`.
fn digits_capped(s: &[char]) -> (r: i128)
    requires
        all_digits(s@),
    ensures
        0 <= r <= LARGE_EXPONENT,
        r < LARGE_EXPONENT ==> r == digits_value(s@),
        r == LARGE_EXPONENT ==> digits_value(s@) >= LARGE_EXPONENT,
{
    let mut v: i128 = 0;
    for i in 0..s.len()
        invariant
            all_digits(s@),
            0 <= v < LARGE_EXPONENT,
            v == digits_value(s@.take(i as int)),
    {
        proof {
            assert(is_digit(s@[i as int]));
            assert(s@.take(i + 1).drop_last() =~= s@.take(i as int));
            lemma_digits_prefix(s@, i + 1);
        }
        let d: i128 = (s[i] as u32 - '0' as u32) as i128;
        v = v * 10 + d;
        if v >= LARGE_EXPONENT {
            return LARGE_EXPONENT;
        }
    }
    assert(s@.take(s@.len() as int) =~= s@);
    v
}

/// Reads the power of ten behind a mantissa; one that is larger than `LARGE_EXPONENT` is cut to it.
pub(crate) fn parse_exponent(s: &[char]) -> (r: Option<i128>)
    ensures
        r is Some <==> exponent(s@) is Some,
        r matches Some(e) ==> {
            let exact = exponent(s@)->0;
            &&& -LARGE_EXPONENT <= e <= LARGE_EXPONENT
            &&& -LARGE_EXPONENT < e < LARGE_EXPONENT ==> e == exact
            &&& e == LARGE_EXPONENT ==> exact >= LARGE_EXPONENT
            &&& e == -LARGE_EXPONENT ==> exact <= -LARGE_EXPONENT
        },
{
    if s.len() == 0 {
        return Some(0);
    }
    if s[0] != 'e' && s[0] != 'E' {
        return None;
    }
    let t = vstd::slice::slice_subrange(s, 1, s.len());
    assert(t@ =~= s@.drop_first());
    let signed = t.len() > 0 && (t[0] == '+' || t[0] == '-');
    let negative = t.len() > 0 && t[0] == '-';
    let body = if signed {
        vstd::slice::slice_subrange(t, 1, t.len())
    } else {
        t
    };
    assert(body@ =~= without_sign(t@));
    if body.len() == 0 || count_digits(body) < body.len() {
        return None;
    }
    assert(body@.take(body@.len() as int) =~= body@);
    let v: i128 = digits_capped(body);
    if negative {
        Some(-v)
    } else {
        Some(v)
    }
}

/// `rounded_at`, with `u64::MAX` in place of what is larger.
fn round_digits(d: &[char], p: i128) -> (r: u64)
    requires
        all_digits(d@),
    ensures
        r == if rounded_at(d@, p as int) > u64::MAX {
            u64::MAX as nat
        } else {
            rounded_at(d@, p as int)
        },
{
    if p < 0 {
        return 0;
    }
    let keep: usize = if p < d.len() as i128 {
        p as usize
    } else {
        d.len()
    };
    let head = vstd::slice::slice_subrange(d, 0, keep);
    assert(head@ =~= d@.take(keep as int));
    assert(all_digits(head@)) by {
        assert forall|i: int| 0 <= i < head@.len() implies is_digit(#[trigger] head@[i]) by {
            assert(head@[i] == d@[i]);
        }
    }
    let whole: u64 = match digits_to_u64(head) {
        Ok(v) => v,
        Err(IntegerError::Empty) => 0,
        Err(_) => {
            proof {
                if keep == d@.len() {
                    assert(d@.take(keep as int) =~= d@);
                    lemma_pow10_positive((p - d@.len()) as nat);
                    let unit = pow10((p - d@.len()) as nat);
                    let m = digits_value(d@);
                    assert(m * unit >= m) by (nonlinear_arith)
                        requires
                            unit >= 1,
                    ;
                }
            }
            return u64::MAX;
        },
    };
    if keep < d.len() {
        let c = d[keep];
        assert(is_digit(d@[keep as int]));
        if c >= '5' {
            if whole == u64::MAX {
                u64::MAX
            } else {
                whole + 1
            }
        } else {
            whole
        }
    } else {
        assert(d@.take(keep as int) =~= d@);
        assert(digits_value(d@) == whole);
        let mut v: u64 = whole;
        let mut left: i128 = p - d.len() as i128;
        let ghost total = rounded_at(d@, p as int);
        assert(v * pow10(left as nat) == total);
        while left > 0
            invariant
                left >= 0,
                v * pow10(left as nat) == total,
                total == rounded_at(d@, p as int),
            decreases left,
        {
            if v == 0 {
                return 0;
            }
            proof {
                lemma_pow10_positive((left - 1) as nat);
                let unit = pow10((left - 1) as nat);
                assert(v * (10 * unit) == (v * 10) * unit) by (nonlinear_arith);
                assert((v * 10) * unit >= v * 10) by (nonlinear_arith)
                    requires
                        unit >= 1,
                        v >= 0,
                ;
            }
            if v > u64::MAX / 10 {
                return u64::MAX;
            }
            v = v * 10;
            left = left - 1;
        }
        assert(pow10(left as nat) == 1);
        assert(v * 1 == v);
        v
    }
}

/// Beyond every `u64` the point's place no longer matters.
proof fn lemma_far_point(d: Seq<char>, p: int, q: int)
    requires
        all_digits(d),
        p >= d.len() + 20,
        q >= d.len() + 20,
    ensures
        rounded_at(d, p) > u64::MAX <==> rounded_at(d, q) > u64::MAX,
        rounded_at(d, p) <= u64::MAX ==> rounded_at(d, p) == rounded_at(d, q),
{
    let m = digits_value(d);
    let a = pow10((p - d.len()) as nat);
    let b = pow10((q - d.len()) as nat);
    assert(pow10(20) > u64::MAX) by {
        reveal_with_fuel(pow10, 21);
    }
    lemma_pow10_grows(20, (p - d.len()) as nat);
    lemma_pow10_grows(20, (q - d.len()) as nat);
    if m > 0 {
        assert(m * a >= a && m * b >= b) by (nonlinear_arith)
            requires
                m >= 1,
        ;
    } else {
        assert(m * a == 0 && m * b == 0) by (nonlinear_arith)
            requires
                m == 0,
        ;
    }
}

/// The digits of a mantissa, how many of them stand in front of the point, and where the rest
/// begins.
pub(crate) fn split_mantissa(body: &[char]) -> (r: (Vec<char>, usize, usize))
    ensures
        r.2 <= body@.len(),
        r.1 <= r.2,
        r.0@.len() <= r.2,
        mantissa_parts(body@).0.len() == r.1,
        mantissa_parts(body@).0 + mantissa_parts(body@).1 == r.0@,
        mantissa_parts(body@).2 == body@.skip(r.2 as int),
        all_digits(r.0@),
{
    let a = count_digits(body);
    let mut digits = vstd::slice::slice_to_vec(vstd::slice::slice_subrange(body, 0, a));
    assert(digits@ =~= body@.take(a as int));
    let ghost (w0, f0, r0) = mantissa_parts(body@);
    let rest = vstd::slice::slice_subrange(body, a, body.len());
    assert(rest@ =~= body@.skip(a as int));
    let mut after: usize = a;
    if rest.len() > 0 && rest[0] == '.' {
        let tail = vstd::slice::slice_subrange(rest, 1, rest.len());
        assert(tail@ =~= rest@.drop_first());
        let b = count_digits(tail);
        let fraction = vstd::slice::slice_subrange(tail, 0, b);
        assert(fraction@ =~= tail@.take(b as int));
        push_all(&mut digits, fraction);
        after = a + 1 + b;
        assert(tail@.skip(b as int) =~= body@.skip(after as int));
        assert(all_digits(f0));
    }
    assert(digits@ =~= w0 + f0);
    assert(all_digits(digits@)) by {
        assert forall|i: int| 0 <= i < digits@.len() implies is_digit(#[trigger] digits@[i]) by {
            if i < a {
                assert(digits@[i] == w0[i]);
            } else {
                assert(digits@[i] == f0[i - a]);
            }
        }
    }
    (digits, a, after)
}

/// Reads a number and rounds it to the nearest integer.
pub fn parse_nearest(s: &[char]) -> (r: Option<u64>)
    ensures
        r == read_nearest(s@),
{
    let signed = s.len() > 0 && (s[0] == '+' || s[0] == '-');
    let negative = s.len() > 0 && s[0] == '-';
    let body = if signed {
        vstd::slice::slice_subrange(s, 1, s.len())
    } else {
        s
    };
    assert(body@ =~= without_sign(s@));
    if caseless(body, crate::text::chars_of("inf").as_slice()) || caseless(
        body,
        crate::text::chars_of("infinity").as_slice(),
    ) {
        return Some(
            if negative {
                0
            } else {
                u64::MAX
            },
        );
    }
    if caseless(body, crate::text::chars_of("nan").as_slice()) {
        return Some(0);
    }
    let (digits, a, after) = split_mantissa(body);
    let ghost (w0, f0, r0) = mantissa_parts(body@);
    let last = vstd::slice::slice_subrange(body, after, body.len());
    assert(last@ =~= r0);
    match parse_exponent(last) {
        Some(e) => {
            if digits.len() == 0 {
                return None;
            }
            if negative {
                return Some(0);
            }
            let p: i128 = a as i128 + e;
            let ghost exact = exponent(r0)->0;
            proof {
                let scale = exact - f0.len();
                lemma_nearest(digits@, scale);
                let q = digits@.len() + scale;
                assert(q == a + exact);
                if e == LARGE_EXPONENT {
                    lemma_far_point(digits@, p as int, q);
                }
            }
            Some(round_digits(digits.as_slice(), p))
        },
        None => None,
    }
}

/// `2` to the power `k`.
pub open spec fn pow2(k: nat) -> nat
    decreases k,
{
    if k == 0 {
        1
    } else {
        2 * pow2((k - 1) as nat)
    }
}

/// The smallest power of two by which `n` has fewer than `bits + 1` binary digits.
pub open spec fn spacing(n: nat, bits: nat) -> nat
    decreases n,
{
    if n < pow2(bits) || n == 0 {
        1
    } else {
        2 * spacing(n / 2, bits)
    }
}

/// `n` rounded to `bits` binary digits: to the nearest number that has no more, and halfway
/// between two of them to the one whose last digit is even. This is what storing `n` in a
/// floating-point number with `bits` significant digits does.
pub open spec fn significant(n: nat, bits: nat) -> nat {
    let unit = spacing(n, bits);
    let q = n / unit;
    let rest = n % unit;
    if 2 * rest < unit || (2 * rest == unit && q % 2 == 0) {
        q * unit
    } else {
        (q + 1) * unit
    }
}

/// Spacing found by counting upwards.
pub proof fn lemma_spacing(n: nat, bits: nat, unit: nat, m: nat)
    requires
        unit > 0,
        m == n / unit,
        spacing(n, bits) == unit * spacing(m, bits),
        m >= pow2(bits),
        m > 0,
    ensures
        m / 2 == n / (unit * 2),
        spacing(n, bits) == (unit * 2) * spacing(m / 2, bits),
{
    vstd::arithmetic::div_mod::lemma_div_denominator(n as int, unit as int, 2);
    let x = spacing(m / 2, bits);
    assert(unit * (2 * x) == (unit * 2) * x) by (nonlinear_arith);
}

proof fn lemma_pow2_values()
    ensures
        pow2(24) == 0x100_0000,
        pow2(53) == 0x20_0000_0000_0000,
{
    reveal_with_fuel(pow2, 54);
}

/// Rounding to `bits` binary digits stays within a factor of two.
pub proof fn lemma_significant_bounds(n: nat, bits: nat)
    requires
        bits > 0,
    ensures
        significant(n, bits) <= 2 * n + 1,
{
    lemma_spacing_bound(n, bits);
    lemma_significant_bound(n, bits, spacing(n, bits));
}

/// Powers of two are positive.
pub proof fn lemma_pow2_positive(k: nat)
    ensures
        pow2(k) > 0,
    decreases k,
{
    if k > 0 {
        lemma_pow2_positive((k - 1) as nat);
    }
}

proof fn lemma_spacing_bound(n: nat, bits: nat)
    requires
        bits > 0,
    ensures
        1 <= spacing(n, bits),
        spacing(n, bits) <= n || spacing(n, bits) == 1,
    decreases n,
{
    if !(n < pow2(bits) || n == 0) {
        lemma_pow2_positive((bits - 1) as nat);
        lemma_spacing_bound(n / 2, bits);
    }
}

proof fn lemma_significant_bound(n: nat, bits: nat, unit: nat)
    requires
        unit > 0,
        unit == spacing(n, bits),
    ensures
        significant(n, bits) <= n + unit,
        n / unit * unit <= n,
        (n / unit + 1) * unit <= n + unit,
{
    let q = n / unit;
    vstd::arithmetic::div_mod::lemma_fundamental_div_mod(n as int, unit as int);
    assert(q * unit + n % unit == n) by (nonlinear_arith)
        requires
            n == unit * q + n % unit,
    ;
    assert((q + 1) * unit == q * unit + unit) by (nonlinear_arith);
}

/// Rounds `n` to `bits` binary digits.
pub fn round_significant(n: u64, bits: u8) -> (r: u128)
    requires
        bits == 24 || bits == 53,
    ensures
        r == significant(n as nat, bits as nat),
{
    let limit: u64 = if bits == 24 {
        0x100_0000
    } else {
        0x20_0000_0000_0000
    };
    proof {
        lemma_pow2_values();
    }
    let mut m: u64 = n;
    let mut unit: u128 = 1;
    assert(1 * spacing(n as nat, bits as nat) == spacing(n as nat, bits as nat));
    while m >= limit
        invariant
            limit == pow2(bits as nat),
            limit >= 0x100_0000,
            unit > 0,
            m == n as nat / unit as nat,
            unit * m <= n,
            unit <= 0x2_0000_0000_0000_0000,
            spacing(n as nat, bits as nat) == unit * spacing(m as nat, bits as nat),
        decreases m,
    {
        proof {
            lemma_spacing(n as nat, bits as nat, unit as nat, m as nat);
            assert(unit <= 0x1_0000_0000_0000_0000) by (nonlinear_arith)
                requires
                    unit * m <= n,
                    m >= 1,
                    n <= 0xffff_ffff_ffff_ffff,
            ;
            assert((unit * 2) * (m / 2) <= n) by (nonlinear_arith)
                requires
                    unit * m <= n,
                    unit > 0,
            ;
        }
        m = m / 2;
        unit = unit * 2;
    }
    assert(unit * 1 == unit);
    assert(unit == spacing(n as nat, bits as nat));
    let q: u128 = n as u128 / unit;
    let rest: u128 = n as u128 % unit;
    proof {
        lemma_significant_bound(n as nat, bits as nat, unit as nat);
        if unit > n {
            assert(m == 0 || unit <= n) by (nonlinear_arith)
                requires
                    unit * m <= n,
            ;
        }
    }
    if 2 * rest < unit || (2 * rest == unit && q % 2 == 0) {
        q * unit
    } else {
        (q + 1) * unit
    }
}

} // verus!
