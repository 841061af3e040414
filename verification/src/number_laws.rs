//! What written numbers mean and how they are rounded.

use crate::finite::{finite, float_limit};
use crate::float::{float_millis, float_thousand, lemma_first_digit, lemma_pow10_sum, marked, read_seconds, shifted};
use crate::number::{all_digits, decimal, decimal_number, digits_value, integer, is_caseless, is_digit, lemma_decimal, lemma_digit_run, lemma_digits_bound, lemma_integer_signed, lemma_pow10_grows, lemma_pow10_positive, mantissa_parts, nearest, nearest_u64, padded, pow10, pow2, read_i32, read_i64, read_u64, signed_decimal, significant, small, spacing, IntegerError, Real};
use vstd::prelude::*;

verus! {

// ---- Writing -------------------------------------------------------------------------------

/// Law: a decimal number is made of digits without a zero in front, one more for every power of
/// ten.
pub proof fn law_decimal(n: nat, d: nat)
    requires
        d < 10,
    ensures
        decimal(d) == seq![('0' as u32 + d) as char],
        n > 0 ==> decimal(10 * n + d) == decimal(n) + seq![('0' as u32 + d) as char],
        n > 0 ==> decimal(n)[0] != '0',
    decreases n,
{
    if n > 0 {
        assert((10 * n + d) / 10 == n && (10 * n + d) % 10 == d);
        assert(decimal(10 * n + d) =~= decimal(n) + seq![('0' as u32 + d) as char]);
        if n >= 10 {
            law_decimal(n / 10, d);
            lemma_decimal(n / 10);
            assert(decimal(n)[0] == decimal(n / 10)[0]);
        }
    }
}

/// Law: digits mean what they mean one by one, each ten times the next.
pub proof fn law_digits(s: Seq<char>, c: char)
    requires
        is_digit(c),
    ensures
        digits_value(Seq::empty()) == 0,
        digits_value(s.push(c)) == 10 * digits_value(s) + (c as u32 - '0' as u32),
{
    assert(s.push(c).drop_last() =~= s);
}

/// Law: padding puts zeros in front of a number, up to a width, and leaves it alone where it is
/// that wide already.
pub proof fn law_padded(n: nat, width: nat)
    ensures
        decimal(n).len() >= width ==> padded(n, width) == decimal(n),
        decimal(n).len() < width ==> padded(n, width).len() == width,
        ({
            let k = padded(n, width).len() - decimal(n).len();
            &&& k >= 0
            &&& padded(n, width).skip(k) == decimal(n)
            &&& forall|i: int| 0 <= i < k ==> #[trigger] padded(n, width)[i] == '0'
        }),
{
    let k = padded(n, width).len() - decimal(n).len();
    assert(padded(n, width).skip(k) =~= decimal(n));
}

// ---- Integers ------------------------------------------------------------------------------

/// Law: digits, with or without a plus sign, read as their value where it fits; nothing is no
/// number, and neither is what holds anything but digits.
pub proof fn law_read_unsigned(s: Seq<char>)
    requires
        s.len() > 0,
    ensures
        all_digits(s) && digits_value(s) <= u64::MAX ==> read_u64(s) == Ok::<u64, IntegerError>(
            digits_value(s) as u64,
        ) && read_u64(seq!['+'] + s) == read_u64(s),
        all_digits(s) && digits_value(s) > u64::MAX ==> read_u64(s) == Err::<u64, IntegerError>(
            IntegerError::OutOfRange,
        ),
        !all_digits(s) && s[0] != '+' ==> read_u64(s) == Err::<u64, IntegerError>(
            IntegerError::InvalidDigit,
        ),
        !all_digits(s) ==> read_u64(seq!['+'] + s) == Err::<u64, IntegerError>(IntegerError::InvalidDigit),
        read_u64(Seq::empty()) == Err::<u64, IntegerError>(IntegerError::Empty),
{
    let t = seq!['+'] + s;
    assert(t.drop_first() =~= s);
    if all_digits(s) {
        assert(is_digit(s[0]));
    }
}

/// Law: a minus sign in front of digits makes the number negative, and a plus sign changes nothing;
/// what is written of an integer reads back.
pub proof fn law_read_signed(s: Seq<char>, i: int)
    requires
        s.len() > 0,
        all_digits(s),
    ensures
        integer(s) == Some(digits_value(s) as int),
        integer(seq!['+'] + s) == Some(digits_value(s) as int),
        integer(seq!['-'] + s) == Some(-(digits_value(s) as int)),
        integer(signed_decimal(i)) == Some(i),
        i < 0 ==> signed_decimal(i) == seq!['-'] + decimal((-i) as nat),
        i >= 0 ==> signed_decimal(i) == decimal(i as nat),
        i64::MIN <= i <= i64::MAX ==> read_i64(signed_decimal(i)) == Some(i as i64),
        !(i64::MIN <= i <= i64::MAX) ==> read_i64(signed_decimal(i)) is None,
        i32::MIN <= i <= i32::MAX ==> read_i32(signed_decimal(i)) == Some(i as i32),
        !(i32::MIN <= i <= i32::MAX) ==> read_i32(signed_decimal(i)) is None,
{
    assert(is_digit(s[0]));
    assert((seq!['+'] + s).drop_first() =~= s);
    assert((seq!['-'] + s).drop_first() =~= s);
    lemma_integer_signed(i);
}

// ---- Fractions -----------------------------------------------------------------------------

/// Text that begins with a digit is no name of a number.
proof fn lemma_no_name(t: Seq<char>)
    requires
        t.len() > 0,
        is_digit(t[0]),
    ensures
        !is_caseless(t, "inf"@),
        !is_caseless(t, "infinity"@),
        !is_caseless(t, "nan"@),
{
    reveal_strlit("inf");
    reveal_strlit("infinity");
    reveal_strlit("nan");
    assert(small(t[0]) == t[0]);
}

/// The parts of digits with a point among them and something behind.
proof fn lemma_parts(w: Seq<char>, f: Seq<char>, r: Seq<char>)
    requires
        all_digits(w),
        all_digits(f),
        r.len() > 0 ==> !is_digit(r[0]) && r[0] != '.',
    ensures
        mantissa_parts(w + r) == (w, Seq::<char>::empty(), r),
        mantissa_parts(w + seq!['.'] + f + r) == (w, f, r),
{
    let s = w + r;
    let n = w.len() as int;
    assert forall|j: int| 0 <= j < n implies is_digit(#[trigger] s[j]) by {
        assert(s[j] == w[j]);
    }
    if r.len() > 0 {
        assert(s[n] == r[0]);
    }
    lemma_digit_run(s, n);
    assert(s.take(n) =~= w);
    assert(s.skip(n) =~= r);
    let t = w + seq!['.'] + f + r;
    assert forall|j: int| 0 <= j < n implies is_digit(#[trigger] t[j]) by {
        assert(t[j] == w[j]);
    }
    assert(t[n] == '.');
    lemma_digit_run(t, n);
    assert(t.take(n) =~= w);
    let tail = f + r;
    assert(t.skip(n).drop_first() =~= tail);
    let m = f.len() as int;
    assert forall|j: int| 0 <= j < m implies is_digit(#[trigger] tail[j]) by {
        assert(tail[j] == f[j]);
    }
    if r.len() > 0 {
        assert(tail[m] == r[0]);
    }
    lemma_digit_run(tail, m);
    assert(tail.take(m) =~= f);
    assert(tail.skip(m) =~= r);
}

/// Law: a number is digits, with a point and digits behind it or without; the digits behind the
/// point count as tenths, hundredths and so on. A power of ten behind it is added to that, and a
/// minus sign in front makes it negative.
pub proof fn law_number(w: Seq<char>, f: Seq<char>, e: Seq<char>)
    requires
        all_digits(w),
        w.len() > 0,
        all_digits(f),
        all_digits(e),
        e.len() > 0,
    ensures
        decimal_number(w) == Some(Real::Finite { negative: false, digits: w, scale: 0 }),
        decimal_number(w + seq!['.'] + f) == Some(
            Real::Finite { negative: false, digits: w + f, scale: -(f.len() as int) },
        ),
        decimal_number(w + seq!['.'] + f + seq!['e'] + e) == Some(
            Real::Finite { negative: false, digits: w + f, scale: digits_value(e) - f.len() },
        ),
        decimal_number(w + seq!['.'] + f + seq!['e', '-'] + e) == Some(
            Real::Finite { negative: false, digits: w + f, scale: -(digits_value(e) as int) - f.len() },
        ),
        decimal_number(seq!['-'] + (w + seq!['.'] + f)) == Some(
            Real::Finite { negative: true, digits: w + f, scale: -(f.len() as int) },
        ),
{
    let none = Seq::<char>::empty();
    let p = w + seq!['.'] + f;
    assert(is_digit(w[0]));
    lemma_no_name(w);
    lemma_no_name(p);
    lemma_parts(w, f, none);
    assert(w + none =~= w);
    assert(p + none =~= p);
    assert(w + Seq::<char>::empty() =~= w);
    let a = seq!['e'] + e;
    lemma_no_name(p + a);
    lemma_parts(w, f, a);
    assert(p + a =~= w + seq!['.'] + f + seq!['e'] + e);
    assert(a.drop_first() =~= e);
    assert(is_digit(e[0]));
    let b = seq!['e', '-'] + e;
    lemma_no_name(p + b);
    lemma_parts(w, f, b);
    assert(p + b =~= w + seq!['.'] + f + seq!['e', '-'] + e);
    assert(b.drop_first()[0] == '-');
    assert(b.drop_first().drop_first() =~= e);
    assert((seq!['-'] + p).drop_first() =~= p);
}

/// Law: digits behind a point need none in front of it; a capital `E` and a plus sign change nothing.
pub proof fn law_number_forms(w: Seq<char>, f: Seq<char>, e: Seq<char>)
    requires
        all_digits(w),
        w.len() > 0,
        all_digits(f),
        all_digits(e),
        e.len() > 0,
    ensures
        f.len() > 0 ==> decimal_number(seq!['.'] + f) == Some(
            Real::Finite { negative: false, digits: f, scale: -(f.len() as int) },
        ),
        decimal_number(seq!['+'] + (w + seq!['.'] + f)) == decimal_number(w + seq!['.'] + f),
        decimal_number(w + seq!['.'] + f + seq!['E'] + e) == decimal_number(
            w + seq!['.'] + f + seq!['e'] + e,
        ),
        decimal_number(w + seq!['.'] + f + seq!['e', '+'] + e) == decimal_number(
            w + seq!['.'] + f + seq!['e'] + e,
        ),
        decimal_number(w + seq!['e'] + e) == Some(
            Real::Finite { negative: false, digits: w, scale: digits_value(e) as int },
        ),
{
    let none = Seq::<char>::empty();
    law_number(w, f, e);
    let p = w + seq!['.'] + f;
    assert(is_digit(w[0]));
    assert(is_digit(e[0]));
    if f.len() > 0 {
        let t = seq!['.'] + f;
        reveal_strlit("inf");
        reveal_strlit("infinity");
        reveal_strlit("nan");
        assert(small(t[0]) == '.');
        lemma_parts(none, f, none);
        assert(none + seq!['.'] + f + none =~= t);
        assert(none + f =~= f);
    }
    assert((seq!['+'] + p).drop_first() =~= p);
    let a = seq!['E'] + e;
    lemma_no_name(p + a);
    lemma_parts(w, f, a);
    assert(p + a =~= w + seq!['.'] + f + seq!['E'] + e);
    assert(a.drop_first() =~= e);
    let b = seq!['e', '+'] + e;
    lemma_no_name(p + b);
    lemma_parts(w, f, b);
    assert(p + b =~= w + seq!['.'] + f + seq!['e', '+'] + e);
    assert(b.drop_first()[0] == '+');
    assert(b.drop_first().drop_first() =~= e);
    let c = seq!['e'] + e;
    lemma_no_name(w + c);
    lemma_parts(w, none, c);
    assert(w + c =~= w + seq!['e'] + e);
    assert(c.drop_first() =~= e);
    assert(w + none =~= w);
}

/// Law: rounding to the nearest integer is off by one half at most, and halves go up.
pub proof fn law_nearest(m: nat, k: nat)
    ensures
        nearest(m, k as int) == m * pow10(k),
        2 * nearest(m, -(k as int)) * pow10(k) <= 2 * m + pow10(k),
        2 * m < 2 * nearest(m, -(k as int)) * pow10(k) + pow10(k),
{
    let u = pow10(k);
    lemma_pow10_positive(k);
    let q = nearest(m, -(k as int));
    if k == 0 {
        assert(pow10(0) == 1);
        assert(m * 1 == m);
        assert(2 * m * 1 == 2 * m);
    } else {
        let x = 2 * m + u;
        vstd::arithmetic::div_mod::lemma_fundamental_div_mod(x as int, (2 * u) as int);
        assert(q == x / (2 * u));
        assert((2 * u) * q == 2 * q * u) by (nonlinear_arith);
    }
}

/// Law: a number within `u64` is rounded to the nearest integer; what is below zero is zero, and
/// what is too large is the largest there is.
pub proof fn law_nearest_kept(digits: Seq<char>, scale: int)
    ensures
        nearest(digits_value(digits), scale) <= u64::MAX ==> nearest_u64(
            Real::Finite { negative: false, digits, scale },
        ) == nearest(digits_value(digits), scale),
        nearest(digits_value(digits), scale) > u64::MAX ==> nearest_u64(
            Real::Finite { negative: false, digits, scale },
        ) == u64::MAX,
        nearest_u64(Real::Finite { negative: true, digits, scale }) == 0,
        nearest_u64(Real::Infinite { negative: true }) == 0,
        nearest_u64(Real::Infinite { negative: false }) == u64::MAX,
        nearest_u64(Real::NotANumber) == 0,
{
}

// ---- Binary digits -------------------------------------------------------------------------

/// The spacing is a power of two that leaves no more than `bits` digits.
proof fn lemma_spacing_size(n: nat, bits: nat)
    requires
        bits > 0,
    ensures
        spacing(n, bits) >= 1,
        n < pow2(bits) * spacing(n, bits),
        spacing(n, bits) > 1 ==> pow2((bits - 1) as nat) * spacing(n, bits) <= n,
    decreases n,
{
    let u = pow2(bits);
    crate::number::lemma_pow2_positive((bits - 1) as nat);
    if n < u || n == 0 {
        assert(u * 1 == u);
    } else {
        lemma_spacing_size(n / 2, bits);
        let s = spacing(n / 2, bits);
        let v = pow2((bits - 1) as nat);
        assert(u * (2 * s) == 2 * (u * s)) by (nonlinear_arith);
        assert(v * (2 * s) == 2 * (v * s)) by (nonlinear_arith);
        assert(u == 2 * v);
        if s == 1 {
            assert(v * 2 == u);
            assert(v * 1 == v);
        }
    }
}

/// Law: a number of up to `bits` binary digits stays as it is; a longer one becomes a multiple of
/// the last digit that is kept, and is off by half of that at most.
pub proof fn law_significant(n: nat, bits: nat)
    requires
        bits > 0,
    ensures
        n < pow2(bits) ==> significant(n, bits) == n,
        ({
            let u = spacing(n, bits);
            &&& u >= 1
            &&& n < pow2(bits) * u
            &&& u > 1 ==> pow2((bits - 1) as nat) * u <= n
            &&& significant(n, bits) % u == 0
            &&& 2 * significant(n, bits) <= 2 * n + u
            &&& 2 * n <= 2 * significant(n, bits) + u
        }),
{
    let u = spacing(n, bits);
    lemma_spacing_size(n, bits);
    let q = n / u;
    let r = n % u;
    vstd::arithmetic::div_mod::lemma_fundamental_div_mod(n as int, u as int);
    assert(n == q * u + r) by (nonlinear_arith)
        requires
            n == u * q + r,
    ;
    assert((q + 1) * u == q * u + u) by (nonlinear_arith);
    vstd::arithmetic::div_mod::lemma_mod_multiples_basic(q as int, u as int);
    vstd::arithmetic::div_mod::lemma_mod_multiples_basic((q + 1) as int, u as int);
    if n < pow2(bits) {
        assert(u == 1);
        assert(r == 0);
        assert(q * 1 == q);
    }
}

// ---- Seconds -------------------------------------------------------------------------------

/// Rounding to 53 digits and multiplying by a thousand in 53 digits are off by little.
proof fn lemma_thousand(n: nat)
    requires
        n < 0x20_0000_0000_0000_0000_0000_0000,
    ensures
        ({
            let y = significant(significant(n, 53) * 1000, 53);
            1000 * n - 0x2000_0000_0000_0000 <= y <= 1000 * n + 0x2000_0000_0000_0000
        }),
{
    let kept = pow2(52);
    assert(kept == 0x10_0000_0000_0000) by {
        reveal_with_fuel(pow2, 53);
    }
    law_significant(n, 53);
    let u = spacing(n, 53);
    assert(kept * u == 0x10_0000_0000_0000 * u) by (nonlinear_arith)
        requires
            kept == 0x10_0000_0000_0000,
    ;
    assert(u <= 0x2_0000_0000_0000);
    let x = significant(n, 53);
    let m = x * 1000;
    law_significant(m, 53);
    let v = spacing(m, 53);
    assert(kept * v == 0x10_0000_0000_0000 * v) by (nonlinear_arith)
        requires
            kept == 0x10_0000_0000_0000,
    ;
    assert(v <= 0x1000_0000_0000_0000);
}

/// Powers of two that the units below use.
proof fn lemma_units()
    ensures
        pow2(66) == 0x4_0000_0000_0000_0000,
        pow2(67) == 0x8_0000_0000_0000_0000,
{
    reveal_with_fuel(pow2, 68);
}

/// Thousandths in small units.
proof fn lemma_marked_thousandths(v: nat)
    ensures
        v * 0x8_0000_0000_0000_0000 - 2000 <= 1000 * marked(v, -3, 66) <= v * 0x8_0000_0000_0000_0000
            + 1000,
{
    let a = pow2(66);
    lemma_units();
    assert(pow10(3) == 1000) by {
        reveal_with_fuel(pow10, 4);
    }
    assert(v * a == v * 0x4_0000_0000_0000_0000) by (nonlinear_arith)
        requires
            a == 0x4_0000_0000_0000_0000,
    ;
    assert(shifted(v, -3, 66) == (v * 0x4_0000_0000_0000_0000) / 1000);
}

/// What is close to thousandths in small units is rounded to them.
proof fn lemma_thousandths_of(y: nat, n: nat, v: nat)
    requires
        v * 0x8_0000_0000_0000_0000 - 2000 <= 1000 * n <= v * 0x8_0000_0000_0000_0000 + 1000,
        1000 * n - 0x2000_0000_0000_0000 <= y <= 1000 * n + 0x2000_0000_0000_0000,
    ensures
        (y + 0x4_0000_0000_0000_0000) / 0x8_0000_0000_0000_0000 == v,
        v - 1 <= y / 0x8_0000_0000_0000_0000 <= v + 1,
{
}

/// Law: a number of thousandths of a second, up to centuries, is that many milliseconds to the
/// nearest, and no more than one off rounded down.
pub proof fn law_thousandths(v: nat)
    requires
        v < 0x1_0000_0000 * 1000,
    ensures
        float_millis(v, -3, true) == v,
        v - 1 <= float_millis(v, -3, false) <= v + 1,
{
    lemma_units();
    lemma_marked_thousandths(v);
    lemma_thousand(marked(v, -3, 66));
    lemma_thousandths_of(float_thousand(v, -3), marked(v, -3, 66), v);
}

/// Millionths in small units.
proof fn lemma_marked_millionths(v: nat)
    ensures
        v * 0x8_0000_0000_0000_0000 - 2_000_000 <= 1_000_000 * marked(v, -6, 66) <= v
            * 0x8_0000_0000_0000_0000 + 1_000_000,
{
    let a = pow2(66);
    lemma_units();
    assert(pow10(6) == 1_000_000) by {
        reveal_with_fuel(pow10, 7);
    }
    assert(v * a == v * 0x4_0000_0000_0000_0000) by (nonlinear_arith)
        requires
            a == 0x4_0000_0000_0000_0000,
    ;
    assert(shifted(v, -6, 66) == (v * 0x4_0000_0000_0000_0000) / 1_000_000);
}

/// What is close to millionths in small units is rounded close to them.
proof fn lemma_millionths_of(y: nat, n: nat, v: nat)
    requires
        v * 0x8_0000_0000_0000_0000 - 2_000_000 <= 1_000_000 * n <= v * 0x8_0000_0000_0000_0000
            + 1_000_000,
        1000 * n - 0x2000_0000_0000_0000 <= y <= 1000 * n + 0x2000_0000_0000_0000,
    ensures
        -520 <= 1000 * ((y + 0x4_0000_0000_0000_0000) / 0x8_0000_0000_0000_0000) - v <= 520,
        -1040 <= 1000 * (y / 0x8_0000_0000_0000_0000) - v <= 40,
{
}

/// Law: a number of microseconds is rounded to the nearest millisecond, or down, to within a few
/// microseconds.
pub proof fn law_millionths(v: nat)
    requires
        v < 0x1_0000_0000 * 1_000_000,
    ensures
        -520 <= 1000 * float_millis(v, -6, true) - v <= 520,
        -1040 <= 1000 * float_millis(v, -6, false) - v <= 40,
{
    lemma_units();
    lemma_marked_millionths(v);
    lemma_thousand(marked(v, -6, 66));
    lemma_millionths_of(float_thousand(v, -6), marked(v, -6, 66), v);
}

/// Whole numbers in small units.
proof fn lemma_whole(v: nat)
    ensures
        marked(v, 0, 66) == v * 0x8_0000_0000_0000_0000,
{
    let a = pow2(66);
    lemma_units();
    let one = pow10(0);
    assert(one == 1);
    assert(v * one * a == v * 0x4_0000_0000_0000_0000) by (nonlinear_arith)
        requires
            a == 0x4_0000_0000_0000_0000,
            one == 1,
    ;
}

/// Law: whole seconds are a thousand milliseconds each to the nearest, and no more than one off
/// rounded down.
pub proof fn law_whole_seconds(v: nat)
    requires
        v < 0x1_0000_0000,
    ensures
        float_millis(v, 0, true) == 1000 * v,
        1000 * v - 1 <= float_millis(v, 0, false) <= 1000 * v + 1,
{
    lemma_whole(v);
    let n = marked(v, 0, 66);
    lemma_thousand(n);
    let y = float_thousand(v, 0);
    lemma_seconds_of(y, v);
    lemma_units();
}

/// What is close to a number of small units is rounded to it.
proof fn lemma_seconds_of(y: nat, v: nat)
    requires
        1000 * (v * 0x8_0000_0000_0000_0000) - 0x2000_0000_0000_0000 <= y <= 1000 * (v
            * 0x8_0000_0000_0000_0000) + 0x2000_0000_0000_0000,
    ensures
        (y + 0x4_0000_0000_0000_0000) / 0x8_0000_0000_0000_0000 == 1000 * v,
        1000 * v - 1 <= y / 0x8_0000_0000_0000_0000 <= 1000 * v + 1,
{
}

/// Law: a number of seconds is read as milliseconds, kept within `u64`; a negative one is none, and
/// what is no number is not read.
pub proof fn law_read_seconds(w: Seq<char>, f: Seq<char>, near: bool)
    requires
        all_digits(w),
        w.len() > 0,
        all_digits(f),
    ensures
        ({
            let ms = float_millis(digits_value(w + f), -(f.len() as int), near);
            &&& read_seconds(w + seq!['.'] + f, near) == Some(
                if ms <= u64::MAX {
                    ms as u64
                } else {
                    u64::MAX
                },
            )
            &&& read_seconds(seq!['-'] + (w + seq!['.'] + f), near) == Some(0u64)
        }),
        read_seconds(w, near) == read_seconds(w + seq!['.'], near),
        read_seconds(Seq::empty(), near) is None,
{
    law_number(w, f, seq!['0']);
    let none = Seq::<char>::empty();
    law_number(w, none, seq!['0']);
    assert(w + seq!['.'] + none =~= w + seq!['.']);
    assert(w + none =~= w);
    reveal_strlit("inf");
    reveal_strlit("infinity");
    reveal_strlit("nan");
    assert(none.take(0) =~= none && none.skip(0) =~= none);
}

// ---- Finite numbers ------------------------------------------------------------------------

/// A thousand is less than two to the power ten.
proof fn lemma_tens(k: nat)
    ensures
        pow10(3 * k) <= pow2(10 * k),
        pow10(3 * k) > 0,
    decreases k,
{
    if k > 0 {
        let j = (k - 1) as nat;
        lemma_tens(j);
        reveal_with_fuel(pow10, 4);
        reveal_with_fuel(pow2, 11);
        assert(pow10(3 * k) == 1000 * pow10(3 * j));
        assert(pow2(10 * k) == 1024 * pow2(10 * j));
    } else {
        assert(pow10(0) == 1 && pow2(0) == 1);
    }
}

/// Powers of two multiply.
proof fn lemma_pow2_add(a: nat, b: nat)
    ensures
        pow2(a + b) == pow2(a) * pow2(b),
    decreases a,
{
    if a > 0 {
        lemma_pow2_add((a - 1) as nat, b);
        let (x, y, z) = (pow2((a - 1) as nat), pow2(b), pow2((a - 1 + b) as nat));
        assert(2 * z == (2 * x) * y) by (nonlinear_arith)
            requires
                z == x * y,
        ;
    } else {
        assert(1 * pow2(b) == pow2(b));
    }
}

/// Two to the power 93 is less than ten to the power 28.
proof fn lemma_twenty_eight()
    ensures
        0 < pow2(93) <= pow10(28),
{
    assert(pow2(93) == 0x2000_0000_0000_0000_0000_0000) by {
        assert(pow2(31) == 0x8000_0000) by {
            reveal_with_fuel(pow2, 32);
        }
        lemma_pow2_add(31, 31);
        lemma_pow2_add(62, 31);
    }
    assert(pow10(28) == 10_000_000_000_000_000_000_000_000_000) by {
        assert(pow10(14) == 100_000_000_000_000) by {
            reveal_with_fuel(pow10, 15);
        }
        lemma_pow10_sum(14, 14);
    }
}

/// The same for their powers.
proof fn lemma_twos(k: nat)
    ensures
        0 < pow2(93 * k) <= pow10(28 * k),
    decreases k,
{
    if k > 0 {
        let j = (k - 1) as nat;
        lemma_twos(j);
        lemma_twenty_eight();
        lemma_pow2_add(93, 93 * j);
        lemma_pow10_sum(28, 28 * j);
        let (a, b, x, y) = (pow2(93), pow10(28), pow2(93 * j), pow10(28 * j));
        assert(0 < a * x <= b * y) by (nonlinear_arith)
            requires
                0 < a <= b,
                0 < x <= y,
        ;
        assert(93 * k == 93 + 93 * j && 28 * k == 28 + 28 * j);
    } else {
        assert(pow10(0) == 1 && pow2(0) == 1);
    }
}

/// The limit of finite numbers lies between two powers of ten.
proof fn lemma_limit()
    ensures
        pow10(306) < float_limit(),
        float_limit() <= pow10(309),
{
    lemma_tens(102);
    lemma_pow2_add(50, 970);
    lemma_pow2_add(54, 970);
    assert(pow2(50) == 0x4_0000_0000_0000 && pow2(54) == 0x40_0000_0000_0000) by {
        reveal_with_fuel(pow2, 55);
    }
    let u = pow2(970);
    crate::number::lemma_pow2_positive(970);
    let (a, b) = (pow2(50), pow2(54));
    assert(a * u < 0x3f_ffff_ffff_ffff * u) by (nonlinear_arith)
        requires
            a < 0x3f_ffff_ffff_ffff,
            u > 0,
    ;
    assert(0x3f_ffff_ffff_ffff * u <= b * u) by (nonlinear_arith)
        requires
            0x3f_ffff_ffff_ffff <= b,
            u > 0,
    ;
    lemma_twos(11);
    assert(pow2(1024) == 2 * pow2(1023));
    assert(pow10(309) == 10 * pow10(308));
}

/// Law: a number below ten to the power 306 is finite.
pub proof fn law_finite(d: Seq<char>, scale: int, negative: bool)
    requires
        all_digits(d),
        d.len() + scale <= 306,
    ensures
        finite(Real::Finite { negative, digits: d, scale }),
{
    lemma_limit();
    lemma_digits_bound(d);
    let v = digits_value(d);
    let limit = float_limit();
    let n = d.len();
    if scale >= 0 {
        let s = scale as nat;
        lemma_pow10_sum(n, s);
        lemma_pow10_grows(n + s, 306);
        lemma_pow10_positive(s);
        assert(v * pow10(s) < pow10(n) * pow10(s)) by (nonlinear_arith)
            requires
                v < pow10(n),
                pow10(s) > 0,
        ;
    } else {
        let s = (-scale) as nat;
        lemma_pow10_positive(s);
        if n >= s {
            let r = (n - s) as nat;
            lemma_pow10_sum(r, s);
            lemma_pow10_grows(r, 306);
            let (x, y) = (pow10(r), pow10(s));
            assert(x * y <= limit * y) by (nonlinear_arith)
                requires
                    x <= limit,
                    y > 0,
            ;
        } else {
            lemma_pow10_grows(n, s);
            let y = pow10(s);
            assert(y <= limit * y) by (nonlinear_arith)
                requires
                    limit >= 1,
                    y > 0,
            ;
        }
    }
}

/// Law: a number of ten to the power 309 or more is not, and neither are the infinities.
pub proof fn law_not_finite(d: Seq<char>, scale: int, negative: bool)
    requires
        all_digits(d),
        d.len() > 0,
        d[0] != '0',
        d.len() - 1 + scale >= 309,
        scale >= 0,
    ensures
        !finite(Real::Finite { negative, digits: d, scale }),
        !finite(Real::Infinite { negative }),
        !finite(Real::NotANumber),
{
    lemma_limit();
    lemma_first_digit(d);
    assert(is_digit(d[0]));
    let v = digits_value(d);
    let n = (d.len() - 1) as nat;
    let s = scale as nat;
    let (x, y) = (pow10(n), pow10(s));
    lemma_pow10_positive(n);
    lemma_pow10_positive(s);
    lemma_pow10_sum(n, s);
    lemma_pow10_grows(309, n + s);
    let first = crate::number::digit_value(d[0]);
    assert(v >= x) by (nonlinear_arith)
        requires
            v >= first * x,
            first >= 1,
            x > 0,
    ;
    assert(v * y >= x * y) by (nonlinear_arith)
        requires
            v >= x,
            y > 0,
    ;
}

} // verus!
