//! Which decimal numbers are finite as 64-bit floating-point numbers.

use crate::float::{double, lemma_first_digit, lemma_pow10_sum};
use crate::number::{all_digits, decimal_number, digit_value, digits_value, exponent, is_digit, lemma_decimal, lemma_digits_bound, lemma_digits_parts, lemma_pow10_grows, lemma_pow10_positive, lemma_pow2_positive, mantissa_parts, pow10, pow2, without_sign, zeros, Real};
use crate::number::{caseless, parse_exponent, push_decimal, split_mantissa, LARGE_EXPONENT};
use crate::text::chars_of;
use vstd::prelude::*;
use vstd::slice::{slice_subrange, slice_to_vec};

verus! {

// ---- Definitions ---------------------------------------------------------------------------

/// Halfway between the largest finite number, which has 53 binary digits in front of 971 zeros,
/// and the next one. What is below rounds to a finite number; this and what is above does not.
pub open spec fn float_limit() -> nat {
    0x3f_ffff_ffff_ffff * pow2(970)
}

/// Whether `mantissa` times `10` to the power `scale` is less than `limit`.
pub open spec fn scaled_below(mantissa: nat, scale: int, limit: nat) -> bool {
    if scale >= 0 {
        mantissa * pow10(scale as nat) < limit
    } else {
        mantissa < limit * pow10((-scale) as nat)
    }
}

/// Whether a number is finite as a 64-bit floating-point number.
pub open spec fn finite(x: Real) -> bool {
    match x {
        Real::Finite { digits, scale, .. } => scaled_below(digits_value(digits), scale, float_limit()),
        _ => false,
    }
}

/// Whether `s` writes a number that is finite as a 64-bit floating-point number.
pub open spec fn finite_number(s: Seq<char>) -> bool {
    match decimal_number(s) {
        Some(x) => finite(x),
        None => false,
    }
}

// ---- Digits --------------------------------------------------------------------------------

/// Whether digits have no zeros in front.
spec fn lean(d: Seq<char>) -> bool {
    all_digits(d) && (d.len() > 0 ==> d[0] != '0')
}

/// How large the number is that digits write, where there are no zeros in front.
proof fn lemma_magnitude(d: Seq<char>)
    requires
        lean(d),
        d.len() > 0,
    ensures
        pow10((d.len() - 1) as nat) <= digits_value(d) < pow10(d.len()),
{
    lemma_digits_bound(d);
    lemma_first_digit(d);
    assert(is_digit(d[0]));
    let unit = pow10((d.len() - 1) as nat);
    assert(digit_value(d[0]) * unit >= unit) by (nonlinear_arith)
        requires
            digit_value(d[0]) >= 1,
    ;
}

/// The first digit in which two runs differ decides which is less.
proof fn lemma_difference(a: Seq<char>, b: Seq<char>, i: int)
    requires
        all_digits(a),
        all_digits(b),
        a.len() == b.len(),
        0 <= i < a.len(),
        a.take(i) == b.take(i),
        digit_value(a[i]) < digit_value(b[i]),
    ensures
        digits_value(a) < digits_value(b),
{
    lemma_digits_parts(a, i);
    lemma_digits_parts(b, i);
    let x = a.skip(i);
    let y = b.skip(i);
    lemma_first_digit(x);
    lemma_first_digit(y);
    let rest = x.drop_first();
    assert forall|k: int| 0 <= k < rest.len() implies is_digit(#[trigger] rest[k]) by {
        assert(rest[k] == a[i + 1 + k]);
    }
    lemma_digits_bound(rest);
    let unit = pow10((x.len() - 1) as nat);
    let (p, q) = (digit_value(x[0]), digit_value(y[0]));
    assert(p * unit + unit <= q * unit) by (nonlinear_arith)
        requires
            p + 1 <= q,
    ;
}

/// Zeros behind digits multiply by powers of ten.
proof fn lemma_zeros_behind(d: Seq<char>, k: nat)
    requires
        all_digits(d),
    ensures
        all_digits(d + zeros(k)),
        digits_value(d + zeros(k)) == digits_value(d) * pow10(k),
    decreases k,
{
    let e = d + zeros(k);
    if k > 0 {
        let j = (k - 1) as nat;
        lemma_zeros_behind(d, j);
        assert(e.drop_last() =~= d + zeros(j));
        assert(all_digits(e)) by {
            assert forall|i: int| 0 <= i < e.len() implies is_digit(#[trigger] e[i]) by {
                if i < e.len() - 1 {
                    assert(e[i] == (d + zeros(j))[i]);
                }
            }
        }
        let (m, unit) = (digits_value(d), pow10(j));
        assert((m * unit) * 10 == m * (10 * unit)) by (nonlinear_arith);
    } else {
        assert(e =~= d);
        assert(digits_value(d) * 1 == digits_value(d));
    }
}

/// Whether the number that `a` writes is less than that of `b`.
fn less(a: &[char], b: &[char]) -> (r: bool)
    requires
        all_digits(a@),
        all_digits(b@),
        a@.len() == b@.len(),
    ensures
        r == (digits_value(a@) < digits_value(b@)),
{
    for i in 0..a.len()
        invariant
            all_digits(a@),
            all_digits(b@),
            a@.len() == b@.len(),
            a@.take(i as int) == b@.take(i as int),
    {
        assert(is_digit(a@[i as int]) && is_digit(b@[i as int]));
        if a[i] < b[i] {
            proof {
                lemma_difference(a@, b@, i as int);
            }
            return true;
        }
        if b[i] < a[i] {
            proof {
                lemma_difference(b@, a@, i as int);
            }
            return false;
        }
        assert(a@.take(i + 1) =~= b@.take(i + 1)) by {
            assert(a@.take(i + 1) =~= a@.take(i as int).push(a@[i as int]));
            assert(b@.take(i + 1) =~= b@.take(i as int).push(b@[i as int]));
        }
    }
    assert(a@.take(a@.len() as int) =~= a@);
    assert(b@.take(b@.len() as int) =~= b@);
    false
}

/// Digits with zeros behind them.
fn with_zeros(d: &[char], k: usize) -> (r: Vec<char>)
    ensures
        r@ == d@ + zeros(k as nat),
{
    let mut out = slice_to_vec(d);
    assert(out@ =~= d@ + zeros(0));
    for i in 0..k
        invariant
            out@ == d@ + zeros(i as nat),
    {
        out.push('0');
        assert(out@ =~= d@ + zeros((i + 1) as nat));
    }
    out
}

/// Digits without the zeros in front.
fn without_zeros(d: &[char]) -> (r: Vec<char>)
    requires
        all_digits(d@),
    ensures
        lean(r@),
        r@.len() <= d@.len(),
        digits_value(r@) == digits_value(d@),
{
    let mut i: usize = 0;
    assert(d@.skip(0) =~= d@);
    while i < d.len() && d[i] == '0'
        invariant
            i <= d@.len(),
            all_digits(d@),
            digits_value(d@.skip(i as int)) == digits_value(d@),
        decreases d@.len() - i,
    {
        proof {
            let s = d@.skip(i as int);
            lemma_first_digit(s);
            assert(s.drop_first() =~= d@.skip(i + 1));
            assert(0 * pow10((s.len() - 1) as nat) == 0);
        }
        i += 1;
    }
    let r = slice_to_vec(slice_subrange(d, i, d.len()));
    proof {
        assert(r@ =~= d@.skip(i as int));
        assert forall|k: int| 0 <= k < r@.len() implies is_digit(#[trigger] r@[k]) by {
            assert(r@[k] == d@[i + k]);
        }
    }
    r
}

// ---- The limit -----------------------------------------------------------------------------

/// The digits of the limit.
fn limit_digits() -> (r: Vec<char>)
    ensures
        lean(r@),
        r@.len() > 0,
        digits_value(r@) == float_limit(),
{
    let mut v: Vec<char> = Vec::new();
    push_decimal(&mut v, 0x3f_ffff_ffff_ffff);
    proof {
        assert(v@ =~= crate::number::decimal(0x3f_ffff_ffff_ffff));
        lemma_decimal(0x3f_ffff_ffff_ffff);
    }
    for i in 0..970usize
        invariant
            all_digits(v@),
            digits_value(v@) == 0x3f_ffff_ffff_ffff * pow2(i as nat),
    {
        let carry: u8 = double(&mut v);
        if carry == 1 {
            let ghost low = v@;
            v.insert(0, '1');
            proof {
                assert(v@ =~= seq!['1'] + low);
                lemma_first_digit(v@);
                assert(v@.drop_first() =~= low);
                assert forall|k: int| 0 <= k < v@.len() implies is_digit(#[trigger] v@[k]) by {
                    if k > 0 {
                        assert(v@[k] == low[k - 1]);
                    }
                }
            }
        } else {
            assert(0 * pow10(v@.len()) == 0);
        }
        assert(pow2((i + 1) as nat) == 2 * pow2(i as nat));
    }
    let r = without_zeros(v.as_slice());
    proof {
        lemma_pow2_positive(970);
        if r@.len() == 0 {
            assert(digits_value(r@) == 0);
        }
    }
    r
}

// ---- Comparing -----------------------------------------------------------------------------

/// A number with fewer digits in front of the point is less, one with more is not.
proof fn lemma_by_magnitude(d: Seq<char>, scale: int, limit: Seq<char>)
    requires
        lean(d),
        d.len() > 0,
        lean(limit),
        limit.len() > 0,
    ensures
        d.len() + scale < limit.len() ==> scaled_below(digits_value(d), scale, digits_value(limit)),
        d.len() + scale > limit.len() ==> !scaled_below(digits_value(d), scale, digits_value(limit)),
{
    lemma_magnitude(d);
    lemma_magnitude(limit);
    let (m, l) = (digits_value(d), digits_value(limit));
    let (k, n) = (d.len(), limit.len());
    let low = pow10((k - 1) as nat);
    let high = pow10(k);
    let limit_low = pow10((n - 1) as nat);
    let limit_high = pow10(n);
    if scale >= 0 {
        let unit = pow10(scale as nat);
        if k + scale < n {
            lemma_pow10_sum(k, scale as nat);
            lemma_pow10_grows((k + scale) as nat, (n - 1) as nat);
            assert(m * unit <= high * unit) by (nonlinear_arith)
                requires
                    m <= high,
            ;
            lemma_pow10_positive(scale as nat);
            assert(m * unit < high * unit) by (nonlinear_arith)
                requires
                    m < high,
                    unit >= 1,
            ;
        } else if k + scale > n {
            lemma_pow10_sum((k - 1) as nat, scale as nat);
            lemma_pow10_grows(n, (k - 1 + scale) as nat);
            assert(m * unit >= low * unit) by (nonlinear_arith)
                requires
                    m >= low,
            ;
        }
    } else {
        let s = (-scale) as nat;
        let unit = pow10(s);
        lemma_pow10_positive(s);
        if k + scale < n {
            lemma_pow10_sum((n - 1) as nat, s);
            lemma_pow10_grows(k, (n - 1 + s) as nat);
            assert(l * unit >= limit_low * unit) by (nonlinear_arith)
                requires
                    l >= limit_low,
            ;
        } else if k + scale > n {
            lemma_pow10_sum(n, s);
            lemma_pow10_grows((n + s) as nat, (k - 1) as nat);
            assert(l * unit <= limit_high * unit) by (nonlinear_arith)
                requires
                    l <= limit_high,
            ;
        }
    }
}

/// Zero is less than the limit, wherever the point stands.
proof fn lemma_zero_below(scale: int, limit: nat)
    requires
        limit > 0,
    ensures
        scaled_below(0, scale, limit),
{
    if scale >= 0 {
        assert(0 * pow10(scale as nat) == 0);
    } else {
        let unit = pow10((-scale) as nat);
        lemma_pow10_positive((-scale) as nat);
        assert(limit * unit > 0) by (nonlinear_arith)
            requires
                limit > 0,
                unit >= 1,
        ;
    }
}

/// Compares a number with the limit. `d` are its digits, `fraction` of them behind the point, and
/// `exact` is the power of ten; `e` is that power, cut to `LARGE_EXPONENT`.
fn is_below(d: &[char], fraction: usize, e: i128, Ghost(exact): Ghost<int>) -> (r: bool)
    requires
        all_digits(d@),
        fraction <= d@.len(),
        -LARGE_EXPONENT <= e <= LARGE_EXPONENT,
        -LARGE_EXPONENT < e < LARGE_EXPONENT ==> e == exact,
        e == LARGE_EXPONENT ==> exact >= LARGE_EXPONENT,
        e == -LARGE_EXPONENT ==> exact <= -LARGE_EXPONENT,
    ensures
        r == scaled_below(digits_value(d@), exact - fraction, float_limit()),
{
    let limit = limit_digits();
    let m = without_zeros(d);
    let ghost scale = exact - fraction;
    proof {
        lemma_pow2_positive(970);
    }
    if m.len() == 0 {
        proof {
            lemma_zero_below(scale, float_limit());
        }
        return true;
    }
    proof {
        lemma_by_magnitude(m@, scale, limit@);
    }
    let by: i128 = e - fraction as i128;
    let front: i128 = m.len() as i128 + by;
    if front < limit.len() as i128 {
        return true;
    }
    if front > limit.len() as i128 {
        return false;
    }
    assert(by == scale);
    if by >= 0 {
        let a = with_zeros(m.as_slice(), by as usize);
        proof {
            lemma_zeros_behind(m@, by as nat);
        }
        less(a.as_slice(), limit.as_slice())
    } else {
        let b = with_zeros(limit.as_slice(), (-by) as usize);
        proof {
            lemma_zeros_behind(limit@, (-by) as nat);
        }
        less(m.as_slice(), b.as_slice())
    }
}

/// Whether `s` writes a number that is finite as a 64-bit floating-point number.
pub fn is_finite_number(s: &[char]) -> (r: bool)
    ensures
        r == finite_number(s@),
{
    let signed = s.len() > 0 && (s[0] == '+' || s[0] == '-');
    let body = if signed {
        slice_subrange(s, 1, s.len())
    } else {
        s
    };
    assert(body@ =~= without_sign(s@));
    if caseless(body, chars_of("inf").as_slice()) || caseless(body, chars_of("infinity").as_slice())
        || caseless(body, chars_of("nan").as_slice()) {
        return false;
    }
    let (digits, a, after) = split_mantissa(body);
    let ghost (w0, f0, r0) = mantissa_parts(body@);
    let last = slice_subrange(body, after, body.len());
    assert(last@ =~= r0);
    match parse_exponent(last) {
        Some(e) => if digits.len() == 0 {
            false
        } else {
            is_below(digits.as_slice(), digits.len() - a, e, Ghost(exponent(r0)->0))
        },
        None => false,
    }
}

} // verus!
