//! Decimal numbers in binary floating point: what reading a number of seconds into 53 significant
//! binary digits and multiplying it by a thousand gives.

use crate::number::{all_digits, decimal_number, digit_value, digits_value, is_digit, lemma_digits_bound, lemma_digits_parts, lemma_pow10_grows, lemma_pow10_positive, lemma_pow2_positive, lemma_spacing, pow10, pow2, significant, spacing, Real};
use crate::number::{exponent, lemma_zeros_value, mantissa_parts, without_sign, zeros};
use crate::number::{caseless, digits_to_u64, parse_exponent, round_significant, split_mantissa, IntegerError, LARGE_EXPONENT};
use crate::text::{chars_of, push_all};
use vstd::arithmetic::div_mod::{lemma_div_multiples_vanish_quotient, lemma_fundamental_div_mod, lemma_fundamental_div_mod_converse};
use vstd::prelude::*;
use vstd::slice::{slice_subrange, slice_to_vec};

verus! {

// ---- Definitions ---------------------------------------------------------------------------

/// `mantissa` times `10` to the power `scale` times `2` to the power `k`, rounded down.
pub open spec fn shifted(mantissa: nat, scale: int, k: nat) -> nat {
    if scale >= 0 {
        mantissa * pow10(scale as nat) * pow2(k)
    } else {
        (mantissa * pow2(k)) / pow10((-scale) as nat)
    }
}

/// Whether nothing was rounded off.
pub open spec fn shifted_exactly(mantissa: nat, scale: int, k: nat) -> bool {
    scale >= 0 || (mantissa * pow2(k)) % pow10((-scale) as nat) == 0
}

/// The same with one more binary digit, which tells whether anything was rounded off. Rounding
/// this to some digits fewer is rounding the number itself.
pub open spec fn marked(mantissa: nat, scale: int, k: nat) -> nat {
    2 * shifted(mantissa, scale, k) + if shifted_exactly(mantissa, scale, k) {
        0nat
    } else {
        1nat
    }
}

/// A number times a thousand, the way arithmetic with 53 significant binary digits gives it: the
/// number is rounded to 53 digits, and so is its product with a thousand. Both are counted in
/// units of `2` to the power `-67`; where that does not leave 53 digits, the number is so small
/// that the product is below one half.
pub open spec fn float_thousand(mantissa: nat, scale: int) -> nat {
    significant(significant(marked(mantissa, scale, 66), 53) * 1000, 53)
}

/// A number of seconds as milliseconds: its product with a thousand, rounded to the nearest
/// integer, halves up, or rounded down.
pub open spec fn float_millis(mantissa: nat, scale: int, nearest: bool) -> nat {
    (float_thousand(mantissa, scale) + if nearest {
        pow2(66)
    } else {
        0
    }) / pow2(67)
}

/// The milliseconds of a number of seconds, kept within `u64`: what is below zero or no number is
/// `0`, what is too large is `u64::MAX`.
pub open spec fn millis_of(x: Real, nearest: bool) -> u64 {
    match x {
        Real::Finite { negative, digits, scale } => if negative {
            0
        } else {
            capped(float_millis(digits_value(digits), scale, nearest))
        },
        Real::Infinite { negative } => if negative {
            0
        } else {
            u64::MAX
        },
        Real::NotANumber => 0,
    }
}

/// A number, or `u64::MAX` where it is larger.
pub open spec fn capped(n: nat) -> u64 {
    if n > u64::MAX {
        u64::MAX
    } else {
        n as u64
    }
}

/// What reading a number of seconds gives in milliseconds, to the nearest or rounded down.
pub open spec fn read_seconds(s: Seq<char>, nearest: bool) -> Option<u64> {
    match decimal_number(s) {
        Some(x) => Some(millis_of(x, nearest)),
        None => None,
    }
}

// ---- Rounding to 53 digits -----------------------------------------------------------------

/// Some powers of two.
proof fn lemma_pow2_constants()
    ensures
        pow2(0) == 1,
        pow2(4) == 16,
        pow2(52) == 0x10_0000_0000_0000,
        pow2(53) == 0x20_0000_0000_0000,
        pow2(66) == 0x4_0000_0000_0000_0000,
        pow2(67) == 0x8_0000_0000_0000_0000,
        pow2(71) == 0x80_0000_0000_0000_0000,
{
    reveal_with_fuel(pow2, 72);
}

/// The spacing leaves all but one of the digits.
proof fn lemma_spacing_ratio(n: nat, bits: nat)
    requires
        bits > 0,
    ensures
        spacing(n, bits) == 1 || spacing(n, bits) * pow2((bits - 1) as nat) <= n,
        spacing(n, bits) >= 1,
    decreases n,
{
    if !(n < pow2(bits) || n == 0) {
        lemma_spacing_ratio(n / 2, bits);
        let s = spacing(n / 2, bits);
        let u = pow2((bits - 1) as nat);
        assert((2 * s) * u == 2 * (s * u)) by (nonlinear_arith);
        assert(pow2(bits) == 2 * u);
        if s == 1 {
            assert(1 * u == u);
        }
    }
}

/// How far rounding to 53 digits moves a number.
proof fn lemma_significant_near(n: nat)
    ensures
        significant(n, 53) <= n + n / 0x10_0000_0000_0000,
        n <= significant(n, 53) + n / 0x10_0000_0000_0000,
{
    lemma_spacing_ratio(n, 53);
    lemma_pow2_constants();
    let u = spacing(n, 53);
    let q = n / u;
    let rest = n % u;
    lemma_fundamental_div_mod(n as int, u as int);
    assert(q * u + rest == n) by (nonlinear_arith)
        requires
            n == u * q + rest,
    ;
    assert((q + 1) * u == q * u + u) by (nonlinear_arith);
    if u == 1 {
        assert(rest == 0);
    } else {
        assert(u <= n / 0x10_0000_0000_0000) by (nonlinear_arith)
            requires
                u * 0x10_0000_0000_0000 <= n,
        ;
    }
}

/// Doubling a number doubles what it is rounded to.
proof fn lemma_significant_double(n: nat, bits: nat)
    requires
        bits > 0,
    ensures
        significant(2 * n, bits) == 2 * significant(n, bits),
{
    lemma_spacing_ratio(n, bits);
    let u = spacing(n, bits);
    assert(pow2(bits) >= 2) by {
        assert(pow2((bits - 1) as nat) >= 1) by {
            lemma_pow2_positive((bits - 1) as nat);
        }
    }
    if 2 * n < pow2(bits) || n == 0 {
        assert(u == 1);
        assert(spacing(2 * n, bits) == 1);
        assert(n / 1 == n && n % 1 == 0 && (2 * n) / 1 == 2 * n && (2 * n) % 1 == 0);
        assert(n * 1 == n && (2 * n) * 1 == 2 * n);
        assert(significant(n, bits) == n);
        assert(significant(2 * n, bits) == 2 * n);
    } else {
        assert((2 * n) / 2 == n);
        assert(spacing(2 * n, bits) == 2 * u);
        let q = n / u;
        let rest = n % u;
        lemma_fundamental_div_mod(n as int, u as int);
        assert((2 * n) as int == q * (2 * u) + 2 * rest) by (nonlinear_arith)
            requires
                n == u * q + rest,
        ;
        lemma_fundamental_div_mod_converse((2 * n) as int, (2 * u) as int, q as int, (2 * rest) as int);
        assert((2 * n) / (2 * u) == q && (2 * n) % (2 * u) == 2 * rest);
        assert(q * (2 * u) == 2 * (q * u)) by (nonlinear_arith);
        assert((q + 1) * (2 * u) == 2 * ((q + 1) * u)) by (nonlinear_arith);
    }
}

/// A power of two as a factor stays one when a number is rounded.
proof fn lemma_significant_shift(n: nat, s: nat, bits: nat)
    requires
        bits > 0,
    ensures
        significant(n * pow2(s), bits) == significant(n, bits) * pow2(s),
    decreases s,
{
    if s == 0 {
        assert(n * 1 == n);
        assert(significant(n, bits) * 1 == significant(n, bits));
    } else {
        let t = (s - 1) as nat;
        lemma_significant_shift(n, t, bits);
        lemma_significant_double(n * pow2(t), bits);
        assert(n * (2 * pow2(t)) == 2 * (n * pow2(t))) by (nonlinear_arith);
        assert(significant(n, bits) * (2 * pow2(t)) == 2 * (significant(n, bits) * pow2(t)))
            by (nonlinear_arith);
    }
}

// ---- Binary digits of a decimal fraction ---------------------------------------------------

/// The first digit and the rest.
pub proof fn lemma_first_digit(d: Seq<char>)
    requires
        d.len() > 0,
    ensures
        digits_value(d) == digit_value(d[0]) * pow10((d.len() - 1) as nat) + digits_value(
            d.drop_first(),
        ),
{
    lemma_digits_parts(d, 1);
    let one = d.take(1);
    assert(one.drop_last() =~= Seq::<char>::empty());
    assert(digits_value(one.drop_last()) == 0);
    assert(digits_value(one) == digit_value(d[0]));
    assert(d.skip(1) =~= d.drop_first());
}

/// One digit of a doubling.
proof fn lemma_double_step(c: nat, carry: nat, rest: nat, doubled: nat, unit: nat, digit: nat, next: nat)
    requires
        2 * rest == carry * unit + doubled,
        2 * c + carry == 10 * next + digit,
    ensures
        2 * (c * unit + rest) == next * (10 * unit) + (digit * unit + doubled),
{
    assert(2 * (c * unit + rest) == (2 * c + carry) * unit + doubled) by (nonlinear_arith)
        requires
            2 * rest == carry * unit + doubled,
    ;
    assert((10 * next + digit) * unit == next * (10 * unit) + digit * unit) by (nonlinear_arith);
}

/// Doubles a decimal fraction and returns the digit in front of the point.
pub(crate) fn double(f: &mut Vec<char>) -> (carry: u8)
    requires
        all_digits(old(f)@),
    ensures
        all_digits(final(f)@),
        final(f)@.len() == old(f)@.len(),
        carry <= 1,
        2 * digits_value(old(f)@) == carry * pow10(old(f)@.len()) + digits_value(final(f)@),
{
    let ghost start = f@;
    let n: usize = f.len();
    let mut j: usize = n;
    let mut carry: u8 = 0;
    assert(start.skip(n as int) =~= Seq::<char>::empty());
    assert(f@.skip(n as int) =~= Seq::<char>::empty());
    assert(carry * pow10(0) == 0);
    while j > 0
        invariant
            j <= n,
            n == start.len(),
            f@.len() == n,
            all_digits(start),
            all_digits(f@),
            carry <= 1,
            forall|i: int| 0 <= i < j ==> f@[i] == start[i],
            2 * digits_value(start.skip(j as int)) == carry * pow10((n - j) as nat) + digits_value(
                f@.skip(j as int),
            ),
        decreases j,
    {
        let k: usize = j - 1;
        assert(is_digit(f@[k as int]));
        let c: u8 = f[k] as u8 - '0' as u8;
        let v: u8 = 2 * c + carry;
        let d: u8 = v % 10;
        let next: u8 = v / 10;
        let ch: char = ('0' as u8 + d) as char;
        let ghost before = f@;
        proof {
            lemma_first_digit(start.skip(k as int));
            assert(start.skip(k as int).drop_first() =~= start.skip(j as int));
            assert(start.skip(k as int)[0] == start[k as int]);
        }
        f.set(k, ch);
        proof {
            assert(digit_value(ch) == d);
            lemma_first_digit(f@.skip(k as int));
            assert(f@.skip(k as int).drop_first() =~= before.skip(j as int));
            assert(f@.skip(k as int)[0] == ch);
            assert forall|i: int| 0 <= i < f@.len() implies is_digit(#[trigger] f@[i]) by {
                if i != k {
                    assert(f@[i] == before[i]);
                }
            }
            let unit = pow10((n - j) as nat);
            lemma_double_step(
                c as nat,
                carry as nat,
                digits_value(start.skip(j as int)),
                digits_value(before.skip(j as int)),
                unit,
                d as nat,
                next as nat,
            );
            assert(pow10((n - k) as nat) == 10 * unit);
        }
        carry = next;
        j = k;
    }
    assert(start.skip(0) =~= start);
    assert(f@.skip(0) =~= f@);
    carry
}

/// One more binary digit.
proof fn lemma_bit_step(value: nat, bits: nat, scaled: nat, rest: nat, unit: nat, carry: nat, doubled: nat)
    requires
        value * scaled == bits * unit + rest,
        2 * rest == carry * unit + doubled,
    ensures
        value * (2 * scaled) == (2 * bits + carry) * unit + doubled,
{
    assert(value * (2 * scaled) == 2 * (value * scaled)) by (nonlinear_arith);
    assert(2 * (bits * unit + rest) == (2 * bits + carry) * unit + doubled) by (nonlinear_arith)
        requires
            2 * rest == carry * unit + doubled,
    ;
}

/// The first 66 binary digits of a decimal fraction, and whether nothing is behind them.
fn fraction_bits(f: Vec<char>) -> (r: (u128, bool))
    requires
        all_digits(f@),
    ensures
        r.0 < pow2(66),
        r.0 == (digits_value(f@) * pow2(66)) / pow10(f@.len()),
        r.1 == ((digits_value(f@) * pow2(66)) % pow10(f@.len()) == 0),
{
    let ghost value = digits_value(f@);
    let ghost unit = pow10(f@.len());
    let mut rest = f;
    let mut bits: u128 = 0;
    proof {
        lemma_digits_bound(f@);
        assert(value * 1 == value);
        assert(0 * unit == 0);
        lemma_pow2_constants();
    }
    for i in 0..66usize
        invariant
            all_digits(rest@),
            unit == pow10(rest@.len()),
            value * pow2(i as nat) == bits * unit + digits_value(rest@),
            bits < pow2(i as nat),
            pow2(i as nat) <= 0x4_0000_0000_0000_0000,
            pow2(66) == 0x4_0000_0000_0000_0000,
    {
        let ghost before = digits_value(rest@);
        let carry = double(&mut rest);
        proof {
            lemma_bit_step(
                value,
                bits as nat,
                pow2(i as nat),
                before,
                unit,
                carry as nat,
                digits_value(rest@),
            );
            assert(pow2((i + 1) as nat) == 2 * pow2(i as nat));
            lemma_pow2_up_to((i + 1) as nat, 66);
        }
        bits = 2 * bits + carry as u128;
    }
    let mut exact = true;
    for i in 0..rest.len()
        invariant
            exact == (forall|k: int| 0 <= k < i ==> rest@[k] == '0'),
    {
        if rest[i] != '0' {
            exact = false;
        }
    }
    proof {
        lemma_digits_bound(rest@);
        let product = (value * pow2(66)) as int;
        lemma_fundamental_div_mod_converse(product, unit as int, bits as int, digits_value(rest@) as int);
        lemma_zero_digits(rest@);
    }
    (bits, exact)
}

/// Powers of two grow.
proof fn lemma_pow2_up_to(j: nat, k: nat)
    requires
        j <= k,
    ensures
        pow2(j) <= pow2(k),
    decreases k,
{
    if j < k {
        lemma_pow2_up_to(j, (k - 1) as nat);
    }
}

/// Digits write zero where all of them are zeros, and only there.
pub proof fn lemma_zero_digits(d: Seq<char>)
    requires
        all_digits(d),
    ensures
        digits_value(d) == 0 <==> forall|k: int| 0 <= k < d.len() ==> d[k] == '0',
    decreases d.len(),
{
    if d.len() > 0 {
        let front = d.drop_last();
        assert forall|i: int| 0 <= i < front.len() implies is_digit(#[trigger] front[i]) by {
            assert(front[i] == d[i]);
        }
        lemma_zero_digits(front);
        assert(is_digit(d[d.len() - 1]));
        if digits_value(d) == 0 {
            assert(digits_value(front) == 0);
            assert forall|k: int| 0 <= k < d.len() implies d[k] == '0' by {
                if k < front.len() {
                    assert(front[k] == d[k]);
                }
            }
        }
        if forall|k: int| 0 <= k < d.len() ==> d[k] == '0' {
            assert forall|k: int| 0 <= k < front.len() implies front[k] == '0' by {
                assert(front[k] == d[k]);
            }
            assert(d[d.len() - 1] == '0');
        }
    }
}

// ---- Milliseconds --------------------------------------------------------------------------

/// Rounds a number to 53 binary digits: to an integer of no more digits and a power of two.
fn round_53(t: u128) -> (r: (u64, u32))
    requires
        t < pow2(124),
    ensures
        r.0 <= 0x20_0000_0000_0000,
        r.1 <= 71,
        significant(t as nat, 53) == r.0 * pow2(r.1 as nat),
{
    let mut m: u128 = t;
    let mut s: u32 = 0;
    let mut unit: u128 = 1;
    proof {
        lemma_pow2_constants();
        assert(1 * spacing(t as nat, 53) == spacing(t as nat, 53));
        assert(t as nat / 1 == t);
    }
    while m >= 0x20_0000_0000_0000
        invariant
            pow2(53) == 0x20_0000_0000_0000,
            unit == pow2(s as nat),
            unit >= 1,
            m == t as nat / unit as nat,
            s <= 71,
            m < pow2((124 - s) as nat),
            spacing(t as nat, 53) == unit * spacing(m as nat, 53),
        decreases m,
    {
        proof {
            if s == 71 {
                assert(m < pow2(53));
            }
            lemma_spacing(t as nat, 53, unit as nat, m as nat);
            assert(pow2((s + 1) as nat) == 2 * pow2(s as nat));
            assert(pow2((124 - s) as nat) == 2 * pow2((124 - s - 1) as nat));
            lemma_pow2_up_to(s as nat, 71);
            lemma_pow2_constants();
        }
        m = m / 2;
        unit = unit * 2;
        s = s + 1;
    }
    proof {
        lemma_pow2_up_to(s as nat, 71);
        lemma_pow2_constants();
    }
    assert(unit * 1 == unit);
    assert(unit == spacing(t as nat, 53));
    let rest: u128 = t % unit;
    let q: u64 = m as u64;
    if 2 * rest < unit || (2 * rest == unit && q % 2 == 0) {
        (q, s)
    } else {
        (q + 1, s)
    }
}

/// The milliseconds of a number that was marked.
fn millis_of_marked(t: u128, nearest: bool) -> (r: u64)
    requires
        t < pow2(124),
    ensures
        ({
            let y = significant(significant(t as nat, 53) * 1000, 53);
            let n = (y + if nearest {
                pow2(66)
            } else {
                0
            }) / pow2(67);
            r == capped(n)
        }),
{
    let (m, s) = round_53(t);
    let thousand: u64 = m * 1000;
    let p: u128 = round_significant(thousand, 53);
    let ghost y = significant(significant(t as nat, 53) * 1000, 53);
    let ghost plus = if nearest {
        pow2(66)
    } else {
        0
    };
    proof {
        lemma_significant_shift(thousand as nat, s as nat, 53);
        assert((m * pow2(s as nat)) * 1000 == (m * 1000) * pow2(s as nat)) by (nonlinear_arith);
        assert(y == p * pow2(s as nat));
        crate::number::lemma_significant_bounds(thousand as nat, 53);
    }
    let n: u128 = if s >= 67 {
        let up: u32 = s - 67;
        let factor: u128 = power_of_two(up);
        proof {
            lemma_pow2_sum(67, up as nat);
            let f = pow2(up as nat) as int;
            assert(p * (pow2(67) * f) == (p * f) * pow2(67)) by (nonlinear_arith);
            assert(pow2(67) == 2 * pow2(66));
            lemma_pow2_positive(66);
            lemma_fundamental_div_mod_converse(
                (y + plus) as int,
                pow2(67) as int,
                p * f,
                plus as int,
            );
            lemma_pow2_up_to(up as nat, 4);
            lemma_pow2_constants();
            assert(p * factor <= 0x2_0000_0000_0000_0000 * 16) by (nonlinear_arith)
                requires
                    p <= 0x2_0000_0000_0000_0000,
                    factor <= 16,
            ;
        }
        p * factor
    } else {
        let down: u32 = 67 - s;
        let unit: u128 = power_of_two(down);
        let more: u128 = if nearest {
            unit / 2
        } else {
            0
        };
        proof {
            lemma_pow2_sum(s as nat, down as nat);
            lemma_pow2_sum(s as nat, (down - 1) as nat);
            let c = pow2(s as nat) as int;
            let half = pow2((down - 1) as nat) as int;
            assert(pow2(down as nat) == 2 * pow2((down - 1) as nat));
            assert(y + plus == c * (p + more)) by (nonlinear_arith)
                requires
                    y == p * c,
                    pow2(66) == c * half,
                    (plus == pow2(66) && more == half) || (plus == 0 && more == 0),
            ;
            lemma_pow2_positive(s as nat);
            lemma_pow2_positive(down as nat);
            lemma_div_multiples_vanish_quotient(c, p + more, pow2(down as nat) as int);
        }
        (p + more) / unit
    };
    if n > 0xffff_ffff_ffff_ffff {
        u64::MAX
    } else {
        n as u64
    }
}

/// Powers of two multiply by adding.
proof fn lemma_pow2_sum(a: nat, b: nat)
    ensures
        pow2(a + b) == pow2(a) * pow2(b),
    decreases b,
{
    if b == 0 {
        assert(pow2(a) * 1 == pow2(a));
    } else {
        let c = (b - 1) as nat;
        lemma_pow2_sum(a, c);
        assert((a + b - 1) as nat == a + c);
        assert(2 * (pow2(a) * pow2(c)) == pow2(a) * (2 * pow2(c))) by (nonlinear_arith);
    }
}

/// `2` to a small power.
fn power_of_two(k: u32) -> (r: u128)
    requires
        k <= 67,
    ensures
        r == pow2(k as nat),
        r >= 1,
        r <= 0x8_0000_0000_0000_0000,
{
    proof {
        lemma_pow2_constants();
        lemma_pow2_up_to(k as nat, 67);
    }
    let mut r: u128 = 1;
    for i in 0..k
        invariant
            k <= 67,
            r == pow2(i as nat),
            pow2(k as nat) <= 0x8_0000_0000_0000_0000,
    {
        proof {
            assert(pow2((i + 1) as nat) == 2 * pow2(i as nat));
            lemma_pow2_up_to((i + 1) as nat, k as nat);
        }
        r = r * 2;
    }
    proof {
        lemma_pow2_positive(k as nat);
    }
    r
}

/// What stands in front of the point among digits: the digits there, followed by zeros where the
/// point stands behind all digits; `u64::MAX` where that is larger.
fn whole_part(d: &[char], p: i128) -> (r: u64)
    requires
        all_digits(d@),
        p >= 0,
    ensures
        ({
            let n = if p < d@.len() {
                digits_value(d@.take(p as int))
            } else {
                digits_value(d@) * pow10((p - d@.len()) as nat)
            };
            r == if n > u64::MAX {
                u64::MAX as nat
            } else {
                n
            }
        }),
{
    let keep: usize = if p < d.len() as i128 {
        p as usize
    } else {
        d.len()
    };
    let head = slice_subrange(d, 0, keep);
    assert(head@ =~= d@.take(keep as int));
    assert forall|i: int| 0 <= i < head@.len() implies is_digit(#[trigger] head@[i]) by {
        assert(head@[i] == d@[i]);
    }
    assert(keep == d@.len() ==> head@ =~= d@);
    let (first, large): (u64, bool) = match digits_to_u64(head) {
        Ok(v) => (v, false),
        Err(IntegerError::Empty) => (0, false),
        Err(_) => (u64::MAX, true),
    };
    if keep < d.len() {
        return first;
    }
    let ghost m = digits_value(d@);
    let ghost total = m * pow10((p - d@.len()) as nat);
    if large {
        proof {
            lemma_pow10_positive((p - d@.len()) as nat);
            let unit = pow10((p - d@.len()) as nat);
            assert(m * unit >= m) by (nonlinear_arith)
                requires
                    unit >= 1,
            ;
        }
        return u64::MAX;
    }
    let mut v: u64 = first;
    let mut left: i128 = p - d.len() as i128;
    while left > 0
        invariant
            left >= 0,
            v * pow10(left as nat) == total,
            total == digits_value(d@) * pow10((p - d@.len()) as nat),
            p >= d@.len(),
        decreases left,
    {
        if v == 0 {
            assert(0 * pow10(left as nat) == 0);
            return 0;
        }
        proof {
            lemma_pow10_positive((left - 1) as nat);
            let unit = pow10((left - 1) as nat);
            assert(v * (10 * unit) == (v * 10) * unit) by (nonlinear_arith);
            assert((v * 10) * unit >= v * 10) by (nonlinear_arith)
                requires
                    unit >= 1,
                    v >= 0,
            ;
        }
        if v > u64::MAX / 10 {
            return u64::MAX;
        }
        v = v * 10;
        left = left - 1;
    }
    assert(pow10(left as nat) == 1);
    assert(v * 1 == v);
    v
}

/// Where the result is larger than every `u64`.
proof fn lemma_large(mantissa: nat, scale: int)
    requires
        shifted(mantissa, scale, 66) >= 0x200_0000_0000_0000 * pow2(66),
    ensures
        float_millis(mantissa, scale, true) > u64::MAX,
        float_millis(mantissa, scale, false) > u64::MAX,
{
    lemma_pow2_constants();
    let t = marked(mantissa, scale, 66);
    let x = significant(t, 53);
    let y = significant(x * 1000, 53);
    lemma_significant_near(t);
    lemma_significant_near(x * 1000);
    assert(t >= 0x400_0000_0000_0000 * 0x4_0000_0000_0000_0000);
    assert(y >= 0x1_0000_0000_0000_0000 * 0x8_0000_0000_0000_0000);
    assert(y / pow2(67) >= 0x1_0000_0000_0000_0000 && (y + pow2(66)) / pow2(67)
        >= 0x1_0000_0000_0000_0000) by {
        assert(pow2(67) == 0x8_0000_0000_0000_0000);
    }
}

/// Where the result is zero.
proof fn lemma_small(d: Seq<char>, p: int)
    requires
        all_digits(d),
        p < -20,
    ensures
        float_millis(digits_value(d), p - d.len(), true) == 0,
        float_millis(digits_value(d), p - d.len(), false) == 0,
{
    lemma_pow2_constants();
    lemma_digits_bound(d);
    let m = digits_value(d);
    let n = d.len();
    let far = (n - p) as nat;
    lemma_pow10_sum(n, (far - n) as nat);
    lemma_pow10_grows(21, (far - n) as nat);
    assert(pow10(21) > 0x4_0000_0000_0000_0000) by {
        reveal_with_fuel(pow10, 22);
    }
    let a = pow10(n);
    let b = pow10((far - n) as nat);
    assert(m * pow2(66) < a * b) by (nonlinear_arith)
        requires
            m < a,
            pow2(66) < b,
            pow2(66) > 0,
    ;
    assert(shifted(m, p - n, 66) == 0) by {
        vstd::arithmetic::div_mod::lemma_basic_div((m * pow2(66)) as int, (a * b) as int);
    }
    let t = marked(m, p - n, 66);
    assert(t <= 1);
    assert(significant(t, 53) == t) by {
        lemma_significant_near(t);
    }
    lemma_significant_near(t * 1000);
    assert(significant(t * 1000, 53) <= 1000);
}

/// Powers of ten multiply by adding.
pub proof fn lemma_pow10_sum(a: nat, b: nat)
    ensures
        pow10(a + b) == pow10(a) * pow10(b),
    decreases b,
{
    if b == 0 {
        assert(pow10(a) * 1 == pow10(a));
    } else {
        let c = (b - 1) as nat;
        lemma_pow10_sum(a, c);
        assert((a + b - 1) as nat == a + c);
        assert(10 * (pow10(a) * pow10(c)) == pow10(a) * (10 * pow10(c))) by (nonlinear_arith);
    }
}

/// A number in units of `2` to the power `-66`, from what stands in front of the point and
/// behind it.
proof fn lemma_shifted_parts(m: nat, whole: nat, fraction: nat, places: nat)
    requires
        places > 0,
        m == whole * pow10(places) + fraction,
    ensures
        shifted(m, -(places as int), 66) == whole * pow2(66) + (fraction * pow2(66)) / pow10(places),
        shifted_exactly(m, -(places as int), 66) == ((fraction * pow2(66)) % pow10(places) == 0),
{
    lemma_pow10_positive(places);
    let d = pow10(places) as int;
    let k = pow2(66) as int;
    let q = (fraction * k) / d;
    let r = (fraction * k) % d;
    lemma_fundamental_div_mod(fraction * k, d);
    assert(m * k == (whole * k + q) * d + r) by (nonlinear_arith)
        requires
            m == whole * d + fraction,
            fraction * k == d * q + r,
    ;
    lemma_fundamental_div_mod_converse(m * k, d, whole * k + q, r);
}

/// The milliseconds of the number that `whole` and the digits `fraction` behind the point write.
fn millis_of_parts(whole: u64, fraction: Vec<char>, nearest: bool) -> (r: u64)
    requires
        all_digits(fraction@),
        fraction@.len() > 0,
    ensures
        ({
            let m = whole * pow10(fraction@.len()) + digits_value(fraction@);
            r == capped(float_millis(m as nat, -(fraction@.len() as int), nearest))
        }),
{
    let ghost places = fraction@.len();
    let ghost value = digits_value(fraction@);
    let ghost m = (whole * pow10(places) + value) as nat;
    let (bits, exact) = fraction_bits(fraction);
    proof {
        lemma_shifted_parts(m, whole as nat, value, places);
        lemma_pow2_constants();
    }
    if whole >= 0x200_0000_0000_0000 {
        proof {
            assert(whole * pow2(66) >= 0x200_0000_0000_0000 * pow2(66)) by (nonlinear_arith)
                requires
                    whole >= 0x200_0000_0000_0000,
            ;
            lemma_large(m, -(places as int));
        }
        return u64::MAX;
    }
    let base: u128 = whole as u128 * 0x4_0000_0000_0000_0000 + bits;
    let t: u128 = if exact {
        2 * base
    } else {
        2 * base + 1
    };
    proof {
        assert(t == marked(m, -(places as int), 66));
        lemma_pow2_sum(57, 67);
        assert(pow2(57) == 0x200_0000_0000_0000) by {
            reveal_with_fuel(pow2, 58);
        }
    }
    millis_of_marked(t, nearest)
}

/// The milliseconds of an integral number of seconds.
fn millis_of_whole(whole: u64, nearest: bool) -> (r: u64)
    ensures
        r == capped(float_millis(whole as nat, 0, nearest)),
{
    proof {
        lemma_pow2_constants();
        assert(pow10(0) == 1);
        assert(whole * 1 == whole);
    }
    if whole >= 0x200_0000_0000_0000 {
        proof {
            assert(whole * pow2(66) >= 0x200_0000_0000_0000 * pow2(66)) by (nonlinear_arith)
                requires
                    whole >= 0x200_0000_0000_0000,
            ;
            lemma_large(whole as nat, 0);
        }
        return u64::MAX;
    }
    let t: u128 = 2 * (whole as u128 * 0x4_0000_0000_0000_0000);
    proof {
        lemma_pow2_sum(57, 67);
        assert(pow2(57) == 0x200_0000_0000_0000) by {
            reveal_with_fuel(pow2, 58);
        }
    }
    millis_of_marked(t, nearest)
}

/// Where the point stands far behind the digits, only whether they are all zeros matters.
proof fn lemma_far(d: Seq<char>, p: int)
    requires
        all_digits(d),
        p >= d.len() + 20,
    ensures
        digits_value(d) == 0 ==> float_millis(digits_value(d), p - d.len(), true) == 0,
        digits_value(d) == 0 ==> float_millis(digits_value(d), p - d.len(), false) == 0,
        digits_value(d) > 0 ==> float_millis(digits_value(d), p - d.len(), true) > u64::MAX,
        digits_value(d) > 0 ==> float_millis(digits_value(d), p - d.len(), false) > u64::MAX,
{
    lemma_pow2_constants();
    let m = digits_value(d);
    let k = (p - d.len()) as nat;
    lemma_pow10_grows(20, k);
    assert(pow10(20) > 0x200_0000_0000_0000) by {
        reveal_with_fuel(pow10, 21);
    }
    let unit = pow10(k);
    let two = pow2(66);
    if m == 0 {
        assert(0 * unit * two == 0) by (nonlinear_arith);
        assert(marked(m, p - d.len(), 66) == 0);
        lemma_significant_near(0);
        assert(significant(0, 53) == 0);
    } else {
        assert(m * unit * two >= 0x200_0000_0000_0000 * two) by (nonlinear_arith)
            requires
                m >= 1,
                unit >= 0x200_0000_0000_0000,
                two >= 0,
        ;
        lemma_large(m, p - d.len());
    }
}

/// Where what stands in front of the point is large.
proof fn lemma_large_whole(d: Seq<char>, p: int)
    requires
        0 <= p < d.len(),
        digits_value(d.take(p)) >= 0x200_0000_0000_0000,
    ensures
        float_millis(digits_value(d), p - d.len(), true) > u64::MAX,
        float_millis(digits_value(d), p - d.len(), false) > u64::MAX,
{
    let w = digits_value(d.take(p));
    let places = (d.len() - p) as nat;
    let two = pow2(66);
    lemma_digits_parts(d, p);
    lemma_shifted_parts(digits_value(d), w, digits_value(d.skip(p)), places);
    lemma_pow2_constants();
    assert(w * two >= 0x200_0000_0000_0000 * two) by (nonlinear_arith)
        requires
            w >= 0x200_0000_0000_0000,
            two >= 0,
    ;
    assert(-(places as int) == p - d.len());
    lemma_large(digits_value(d), p - d.len());
}

/// The milliseconds of the seconds that digits write with the point behind the first `p` of them.
fn float_of(d: &[char], p: i128, nearest: bool) -> (r: u64)
    requires
        all_digits(d@),
    ensures
        r == capped(float_millis(digits_value(d@), p - d@.len(), nearest)),
{
    if p < -20 {
        proof {
            lemma_small(d@, p as int);
        }
        return 0;
    }
    if p < 0 {
        let mut f: Vec<char> = Vec::new();
        let lead: u8 = (-p) as u8;
        for i in 0..lead
            invariant
                f@ == zeros(i as nat),
        {
            f.push('0');
            assert(f@ =~= zeros((i + 1) as nat));
        }
        push_all(&mut f, d);
        proof {
            lemma_zeros_value(lead as nat, d@);
            assert(0 * pow10(f@.len()) == 0);
        }
        return millis_of_parts(0, f, nearest);
    }
    let whole = whole_part(d, p);
    if p < d.len() as i128 {
        let f = slice_to_vec(slice_subrange(d, p as usize, d.len()));
        proof {
            assert(f@ =~= d@.skip(p as int));
            assert forall|i: int| 0 <= i < f@.len() implies is_digit(#[trigger] f@[i]) by {
                assert(f@[i] == d@[p + i]);
            }
            lemma_digits_parts(d@, p as int);
        }
        if whole == u64::MAX {
            proof {
                lemma_large_whole(d@, p as int);
            }
            return u64::MAX;
        }
        millis_of_parts(whole, f, nearest)
    } else {
        proof {
            let m = digits_value(d@);
            let unit = pow10((p - d@.len()) as nat);
            let two = pow2(66);
            lemma_pow2_constants();
            assert(pow10(0) == 1);
            assert((m * unit) * 1 * two == m * unit * two) by (nonlinear_arith);
            if whole == u64::MAX {
                assert(m * unit * two >= 0x200_0000_0000_0000 * two) by (nonlinear_arith)
                    requires
                        m * unit >= 0x200_0000_0000_0000,
                        two >= 0,
                ;
                lemma_large(m, p - d@.len());
                assert(whole * two >= 0x200_0000_0000_0000 * two) by (nonlinear_arith)
                    requires
                        whole >= 0x200_0000_0000_0000,
                        two >= 0,
                ;
                assert(whole * 1 == whole);
                lemma_large(whole as nat, 0);
            } else {
                assert(shifted(m, p - d@.len(), 66) == shifted(whole as nat, 0, 66));
            }
        }
        millis_of_whole(whole, nearest)
    }
}

/// Reads a number of seconds as milliseconds, to the nearest or rounded down.
pub fn parse_seconds(s: &[char], nearest: bool) -> (r: Option<u64>)
    ensures
        r == read_seconds(s@, nearest),
{
    let signed = s.len() > 0 && (s[0] == '+' || s[0] == '-');
    let negative = s.len() > 0 && s[0] == '-';
    let body = if signed {
        slice_subrange(s, 1, s.len())
    } else {
        s
    };
    assert(body@ =~= without_sign(s@));
    if caseless(body, chars_of("inf").as_slice()) || caseless(body, chars_of("infinity").as_slice()) {
        return Some(
            if negative {
                0
            } else {
                u64::MAX
            },
        );
    }
    if caseless(body, chars_of("nan").as_slice()) {
        return Some(0);
    }
    let (digits, a, after) = split_mantissa(body);
    let ghost (w0, f0, r0) = mantissa_parts(body@);
    let last = slice_subrange(body, after, body.len());
    assert(last@ =~= r0);
    match parse_exponent(last) {
        Some(e) => {
            if digits.len() == 0 {
                return None;
            }
            if negative {
                return Some(0);
            }
            let p: i128 = a as i128 + e;
            let ghost exact = exponent(r0)->0;
            proof {
                let scale = exact - f0.len();
                let q = digits@.len() + scale;
                assert(q == a + exact);
                if e == LARGE_EXPONENT {
                    lemma_far(digits@, p as int);
                    lemma_far(digits@, q);
                }
                if e == -LARGE_EXPONENT {
                    lemma_small(digits@, p as int);
                    lemma_small(digits@, q);
                }
            }
            Some(float_of(digits.as_slice(), p, nearest))
        },
        None => None,
    }
}

/// Law: thousandths of a second below a minute are read exactly.
pub proof fn law_thousandths_exact(v: nat)
    requires
        v < 60_000,
    ensures
        float_millis(v, -3, true) == v,
{
    lemma_pow2_constants();
    assert(pow10(3) == 1000) by {
        reveal_with_fuel(pow10, 4);
    }
    let a = v * pow2(66);
    assert(a == v * 0x4_0000_0000_0000_0000);
    let t = marked(v, -3, 66);
    let x = significant(t, 53);
    let y = significant(x * 1000, 53);
    lemma_significant_near(t);
    lemma_significant_near(x * 1000);
    assert(1000 * t <= 2 * a + 2000 && 2 * a <= 1000 * t + 2000);
    assert(y + 0x4_0000_0000_0000_0000 >= v * 0x8_0000_0000_0000_0000);
    assert(y < v * 0x8_0000_0000_0000_0000 + 0x4_0000_0000_0000_0000);
    lemma_fundamental_div_mod_converse(
        (y + pow2(66)) as int,
        pow2(67) as int,
        v as int,
        y + pow2(66) - v * pow2(67),
    );
}

} // verus!
