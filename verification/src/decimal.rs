//! Decimal text of whole numbers and of fractions held in a fixed unit.

use crate::text::{all_digits, digit_value, digits_value, is_digit, parse_unsigned};
use vstd::prelude::*;

verus! {

/// The character that writes the digit `d`.
pub open spec fn digit_char(d: nat) -> char
    recommends
        d < 10,
{
    ((d + 48) as u8) as char
}

/// The decimal digits of `n`, most significant first, with no zero in front.
pub open spec fn digits(n: nat) -> Seq<char>
    decreases n,
{
    if n < 10 {
        seq![digit_char(n)]
    } else {
        digits(n / 10).push(digit_char(n % 10))
    }
}

/// The last `w` decimal digits of `n`, with zeros in front where `n` is short.
pub open spec fn fixed_width(n: nat, w: nat) -> Seq<char>
    decreases w,
{
    if w == 0 {
        Seq::empty()
    } else {
        fixed_width(n / 10, (w - 1) as nat).push(digit_char(n % 10))
    }
}

/// Ten to the power `e`.
pub open spec fn pow10(e: nat) -> nat
    decreases e,
{
    if e == 0 {
        1
    } else {
        10 * pow10((e - 1) as nat)
    }
}

/// The decimal digits of `n`, with zeros in front up to a width of `w`.
pub open spec fn padded(n: nat, w: nat) -> Seq<char> {
    if w > 0 && n < pow10(w) {
        fixed_width(n, w)
    } else {
        digits(n)
    }
}

/// `m / unit` rounded to the nearest whole number, a half going up.
pub open spec fn round_div(m: nat, unit: nat) -> nat
    recommends
        unit > 0,
{
    if m % unit >= unit - unit / 2 {
        m / unit + 1
    } else {
        m / unit
    }
}

/// The text of the number `q / 10^d` with exactly `d` digits after the point
/// (and no point when `d` is 0), with a minus sign in front when `negative`.
pub open spec fn decimal_text(negative: bool, q: nat, d: nat) -> Seq<char> {
    let sign = if negative {
        seq!['-']
    } else {
        Seq::<char>::empty()
    };
    let whole = digits(q / pow10(d));
    if d == 0 {
        sign + whole
    } else {
        sign + whole + seq!['.'] + fixed_width(q % pow10(d), d)
    }
}

/// The text of `m / 10^(drop + keep)` rounded to `keep` digits after the
/// point, a half going away from zero.
pub open spec fn rounded_text(negative: bool, m: nat, drop: nat, keep: nat) -> Seq<char> {
    decimal_text(negative, round_div(m, pow10(drop)), keep)
}

/// The character of a digit is a digit and has the digit as its value.
pub proof fn lemma_digit_round_trip(d: nat)
    requires
        d < 10,
    ensures
        is_digit(digit_char(d)),
        digit_value(digit_char(d)) == d,
{
}

/// What is written is read back: the decimal digits of a number are digits
/// only, at least one, and write that number.
pub proof fn lemma_digits_round_trip(n: nat)
    ensures
        digits(n).len() > 0,
        all_digits(digits(n)),
        digits_value(digits(n)) == n,
        forall|max: nat| n <= max ==> #[trigger] parse_unsigned(digits(n), max) == Some(n),
    decreases n,
{
    lemma_digit_round_trip(n % 10);
    assert(digits(n).last() == digit_char(n % 10));
    if n < 10 {
        assert(digits(n).drop_last() =~= Seq::<char>::empty());
        assert(digits_value(digits(n).drop_last()) == 0);
    } else {
        lemma_digits_round_trip(n / 10);
        assert(digits(n).drop_last() =~= digits(n / 10));
        assert(digits(n)[0] == digits(n / 10)[0]);
    }
    assert(digits_value(digits(n)) == digits_value(digits(n).drop_last()) * 10 + digit_value(
        digits(n).last(),
    ));
    assert(is_digit(digits(n)[0]));
    assert(digits(n)[0] != '+');
}

/// A number written with a fixed width has that many digits, and they write
/// what of the number fits in that width.
pub proof fn lemma_fixed_width_value(n: nat, w: nat)
    ensures
        fixed_width(n, w).len() == w,
        all_digits(fixed_width(n, w)),
        digits_value(fixed_width(n, w)) == n % pow10(w),
    decreases w,
{
    if w > 0 {
        lemma_digit_round_trip(n % 10);
        lemma_fixed_width_value(n / 10, (w - 1) as nat);
        lemma_pow10_grows(0, (w - 1) as nat);
        assert(fixed_width(n, w).drop_last() =~= fixed_width(n / 10, (w - 1) as nat));
        let p = pow10((w - 1) as nat);
        vstd::arithmetic::div_mod::lemma_mod_breakdown(n as int, 10, p as int);
        assert(10 * (n / 10 % p) == (n / 10 % p) * 10) by (nonlinear_arith);
    }
}

/// Zeros in front do not change what is written: a padded number is digits
/// only and writes the number.
pub proof fn lemma_padded_value(n: nat, w: nat)
    ensures
        all_digits(padded(n, w)),
        digits_value(padded(n, w)) == n,
{
    lemma_digits_round_trip(n);
    lemma_fixed_width_value(n, w);
    if w > 0 && n < pow10(w) {
        assert(n % pow10(w) == n) by (nonlinear_arith)
            requires
                n < pow10(w),
        ;
    }
}

/// Whether `c` can stand in the text of a number: a digit, the point or the
/// minus sign.
pub open spec fn is_numeric(c: char) -> bool {
    is_digit(c) || c == '.' || c == '-'
}

/// Whether `t` is made of digits, points and minus signs only.
pub open spec fn all_numeric(t: Seq<char>) -> bool {
    forall|x: int| 0 <= x < t.len() ==> is_numeric(#[trigger] t[x])
}

/// The text of a number is not empty and is made of digits, points and minus
/// signs only.
pub proof fn lemma_decimal_text_numeric(negative: bool, q: nat, d: nat)
    ensures
        decimal_text(negative, q, d).len() > 0,
        all_numeric(decimal_text(negative, q, d)),
{
    let whole = digits(q / pow10(d));
    let frac = fixed_width(q % pow10(d), d);
    lemma_digits_round_trip(q / pow10(d));
    lemma_fixed_width_value(q % pow10(d), d);
    let sign = if negative {
        seq!['-']
    } else {
        Seq::<char>::empty()
    };
    let t = decimal_text(negative, q, d);
    assert forall|x: int| 0 <= x < t.len() implies is_numeric(#[trigger] t[x]) by {
        if x < sign.len() {
            assert(t[x] == '-');
        } else if x < sign.len() + whole.len() {
            assert(t[x] == whole[x - sign.len()]);
        } else if d > 0 {
            if x == sign.len() + whole.len() {
                assert(t[x] == '.');
            } else {
                assert(t[x] == frac[x - sign.len() - whole.len() - 1]);
            }
        }
    }
}

/// The powers of ten are positive and grow with the exponent.
pub proof fn lemma_pow10_grows(a: nat, b: nat)
    requires
        a <= b,
    ensures
        1 <= pow10(a) <= pow10(b),
    decreases b,
{
    if b > 0 {
        if a < b {
            lemma_pow10_grows(a, (b - 1) as nat);
        } else {
            lemma_pow10_grows((a - 1) as nat, (b - 1) as nat);
        }
    }
}

/// A power of ten with a sum as exponent is the product of the two powers.
pub proof fn lemma_pow10_sum(a: nat, b: nat)
    ensures
        pow10(a + b) == pow10(a) * pow10(b),
    decreases b,
{
    if b > 0 {
        lemma_pow10_sum(a, (b - 1) as nat);
        assert(10 * (pow10(a) * pow10((b - 1) as nat)) == pow10(a) * (10 * pow10((b - 1) as nat)))
            by (nonlinear_arith);
    } else {
        assert(pow10(a) * 1 == pow10(a)) by (nonlinear_arith);
    }
}

/// The powers of ten up to the 38th fit in 128 bits.
pub proof fn lemma_pow10_bounds(e: nat)
    ensures
        pow10(e) >= 1,
        e <= 38 ==> pow10(e) <= 100_000_000_000_000_000_000_000_000_000_000_000_000,
{
    lemma_pow10_grows(e, e);
    if e <= 38 {
        lemma_pow10_grows(e, 38);
        assert(pow10(10) == 10_000_000_000) by {
            reveal_with_fuel(pow10, 11);
        }
        assert(pow10(9) == 1_000_000_000) by {
            reveal_with_fuel(pow10, 10);
        }
        lemma_pow10_sum(10, 9);
        lemma_pow10_sum(19, 19);
        assert(pow10(38) == 100_000_000_000_000_000_000_000_000_000_000_000_000) by (nonlinear_arith)
            requires
                pow10(38) == pow10(19) * pow10(19),
                pow10(19) == pow10(10) * pow10(9),
                pow10(10) == 10_000_000_000,
                pow10(9) == 1_000_000_000,
        ;
    }
}

/// Ten to the power `e`.
pub fn pow10_of(e: u32) -> (r: u128)
    requires
        e <= 38,
    ensures
        r == pow10(e as nat),
        r >= 1,
{
    let mut r: u128 = 1;
    let mut i: u32 = 0;
    while i < e
        invariant
            i <= e <= 38,
            r == pow10(i as nat),
        decreases e - i,
    {
        proof {
            lemma_pow10_bounds((i + 1) as nat);
        }
        r = r * 10;
        i += 1;
    }
    proof {
        lemma_pow10_bounds(e as nat);
    }
    r
}

/// The character that writes the digit `d`.
pub fn digit_of(d: u8) -> (c: char)
    requires
        d < 10,
    ensures
        c == digit_char(d as nat),
{
    (d + 48) as char
}

/// Appends the decimal digits of `n` to `out`.
pub fn push_digits(out: &mut String, n: u128)
    ensures
        final(out)@ == old(out)@ + digits(n as nat),
    decreases n,
{
    if n >= 10 {
        push_digits(out, n / 10);
    }
    out.push(digit_of((n % 10) as u8));
    proof {
        if n >= 10 {
            assert(out@ =~= old(out)@ + digits(n as nat));
        } else {
            assert(out@ =~= old(out)@ + digits(n as nat));
        }
    }
}

/// Appends the last `w` decimal digits of `n` to `out`, with zeros in front
/// where `n` is short.
pub fn push_fixed_width(out: &mut String, n: u128, w: u32)
    ensures
        final(out)@ == old(out)@ + fixed_width(n as nat, w as nat),
    decreases w,
{
    if w > 0 {
        push_fixed_width(out, n / 10, w - 1);
        out.push(digit_of((n % 10) as u8));
    }
    assert(out@ =~= old(out)@ + fixed_width(n as nat, w as nat));
}

/// Appends the decimal digits of `n` to `out`, with zeros in front up to a
/// width of `w`.
pub fn push_padded(out: &mut String, n: u128, w: u32)
    requires
        w <= 38,
    ensures
        final(out)@ == old(out)@ + padded(n as nat, w as nat),
{
    if w > 0 && n < pow10_of(w) {
        push_fixed_width(out, n, w);
    } else {
        push_digits(out, n);
    }
}

/// Appends to `out` the text of `m / 10^(drop + keep)` rounded to `keep`
/// digits after the point.
pub fn push_rounded(out: &mut String, negative: bool, m: u128, drop: u32, keep: u32)
    requires
        drop <= 38,
        keep <= 38,
    ensures
        final(out)@ == old(out)@ + rounded_text(negative, m as nat, drop as nat, keep as nat),
{
    let unit = pow10_of(drop);
    let scale = pow10_of(keep);
    let q: u128 = if m % unit >= unit - unit / 2 {
        assert(m / unit + 1 <= u128::MAX) by (nonlinear_arith)
            requires
                unit >= 1,
                m <= u128::MAX,
                m % unit >= unit - unit / 2,
        ;
        m / unit + 1
    } else {
        m / unit
    };
    if negative {
        out.push('-');
    }
    push_digits(out, q / scale);
    if keep > 0 {
        out.push('.');
        push_fixed_width(out, q % scale, keep);
    }
    assert(out@ =~= old(out)@ + rounded_text(negative, m as nat, drop as nat, keep as nat));
}

} // verus!
