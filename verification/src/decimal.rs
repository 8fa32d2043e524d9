//! Fixed-point decimal text: a count of some small unit written out
//! in a larger one with a set number of places, and the rounding half
//! to even that brings an amount to such a count.

use vstd::prelude::*;
use vstd::string::*;

verus! {

/// Ten to the `n`.
pub open spec fn pow10(n: nat) -> nat
    decreases n,
{
    if n == 0 {
        1
    } else {
        10 * pow10((n - 1) as nat)
    }
}

/// The character for a decimal digit.
pub open spec fn digit_char(d: nat) -> char {
    if d == 0 {
        '0'
    } else if d == 1 {
        '1'
    } else if d == 2 {
        '2'
    } else if d == 3 {
        '3'
    } else if d == 4 {
        '4'
    } else if d == 5 {
        '5'
    } else if d == 6 {
        '6'
    } else if d == 7 {
        '7'
    } else if d == 8 {
        '8'
    } else {
        '9'
    }
}

/// `n` in decimal, with no leading zeros (`0` is one digit).
pub open spec fn digits(n: nat) -> Seq<char>
    decreases n,
{
    if n < 10 {
        seq![digit_char(n)]
    } else {
        digits(n / 10).push(digit_char(n % 10))
    }
}

/// The lowest `width` decimal digits of `n`, zero-padded.
pub open spec fn padded(n: nat, width: nat) -> Seq<char>
    decreases width,
{
    if width == 0 {
        Seq::empty()
    } else {
        padded(n / 10, (width - 1) as nat).push(digit_char(n % 10))
    }
}

/// `m / unit` rounded to the nearest whole number, a tie going to the
/// even one.
pub open spec fn round_half_even(m: nat, unit: nat) -> nat {
    let q = m / unit;
    let r = m % unit;
    if 2 * r > unit {
        q + 1
    } else if 2 * r < unit {
        q
    } else if q % 2 == 0 {
        q
    } else {
        q + 1
    }
}

/// `q` hundredths, thousandths, ... (`places` of them) written as a
/// decimal number: its whole part, then a point and `places` digits
/// when there are any.
pub open spec fn fixed(q: nat, places: nat) -> Seq<char> {
    if places == 0 {
        digits(q)
    } else {
        digits(q / pow10(places)) + seq!['.'] + padded(q, places)
    }
}

/// Ten to the `n`, for the small powers the text is made with.
pub fn pow10_of(n: u32) -> (r: u128)
    requires
        n <= 9,
    ensures
        r == pow10(n as nat),
        1 <= r <= 1_000_000_000,
{
    proof {
        reveal_with_fuel(pow10, 10);
    }
    match n {
        0 => 1,
        1 => 10,
        2 => 100,
        3 => 1_000,
        4 => 10_000,
        5 => 100_000,
        6 => 1_000_000,
        7 => 10_000_000,
        8 => 100_000_000,
        _ => 1_000_000_000,
    }
}

/// The text of one decimal digit.
fn digit_text(d: u128) -> (r: &'static str)
    requires
        d < 10,
    ensures
        r@ == seq![digit_char(d as nat)],
{
    if d == 0 {
        proof { reveal_strlit("0"); }
        "0"
    } else if d == 1 {
        proof { reveal_strlit("1"); }
        "1"
    } else if d == 2 {
        proof { reveal_strlit("2"); }
        "2"
    } else if d == 3 {
        proof { reveal_strlit("3"); }
        "3"
    } else if d == 4 {
        proof { reveal_strlit("4"); }
        "4"
    } else if d == 5 {
        proof { reveal_strlit("5"); }
        "5"
    } else if d == 6 {
        proof { reveal_strlit("6"); }
        "6"
    } else if d == 7 {
        proof { reveal_strlit("7"); }
        "7"
    } else if d == 8 {
        proof { reveal_strlit("8"); }
        "8"
    } else {
        proof { reveal_strlit("9"); }
        "9"
    }
}

/// Appends `n` in decimal.
pub fn push_digits(s: &mut String, n: u128)
    ensures
        final(s)@ == old(s)@ + digits(n as nat),
    decreases n,
{
    if n >= 10 {
        push_digits(s, n / 10);
    }
    s.append(digit_text(n % 10));
}

/// Appends the lowest `width` digits of `n`, zero-padded.
pub fn push_padded(s: &mut String, n: u128, width: u32)
    ensures
        final(s)@ == old(s)@ + padded(n as nat, width as nat),
    decreases width,
{
    if width > 0 {
        push_padded(s, n / 10, width - 1);
        s.append(digit_text(n % 10));
    }
}

/// `m / unit`, rounded half to even.
pub fn rounded(m: u128, unit: u128) -> (r: u128)
    requires
        1 <= unit,
    ensures
        r == round_half_even(m as nat, unit as nat),
{
    let q = m / unit;
    let r = m % unit;
    if unit == 1 {
        assert(r == 0);
        return q;
    }
    assert(q <= m / 2) by (nonlinear_arith)
        requires
            q == m / unit,
            unit >= 2,
    {
        vstd::arithmetic::div_mod::lemma_div_is_ordered_by_denominator(m as int, 2, unit as int);
    }
    if r > unit - r {
        q + 1
    } else if r < unit - r {
        q
    } else if q % 2 == 0 {
        q
    } else {
        q + 1
    }
}

/// Appends `q` units of `10^-places` written as a decimal number.
pub fn push_fixed(s: &mut String, q: u128, places: u32)
    requires
        places <= 9,
    ensures
        final(s)@ == old(s)@ + fixed(q as nat, places as nat),
{
    let ghost start = s@;
    if places == 0 {
        push_digits(s, q);
    } else {
        push_digits(s, q / pow10_of(places));
        proof { reveal_strlit("."); }
        s.append(".");
        push_padded(s, q, places);
    }
    assert(s@ =~= start + fixed(q as nat, places as nat));
}

/// Ten to any power is positive.
pub proof fn lemma_pow10_positive(n: nat)
    ensures
        pow10(n) >= 1,
    decreases n,
{
    if n > 0 {
        lemma_pow10_positive((n - 1) as nat);
    }
}

/// Rounding to the nearest lands within half a unit: `q` units of
/// `unit` are within `unit / 2` of `m`.
pub proof fn lemma_rounded_near(m: nat, unit: nat)
    requires
        unit >= 1,
    ensures
        2 * unit * round_half_even(m, unit) + unit >= 2 * m,
        2 * unit * round_half_even(m, unit) <= 2 * m + unit,
{
    let q = m / unit;
    let r = m % unit;
    vstd::arithmetic::div_mod::lemma_fundamental_div_mod(m as int, unit as int);
    assert(m == unit * q + r);
    assert(0 <= r < unit);
    let h = round_half_even(m, unit);
    assert(h == q || h == q + 1);
    if h == q {
        assert(2 * r <= unit);
        assert(2 * unit * h + unit >= 2 * m) by (nonlinear_arith)
            requires
                h == q,
                m == unit * q + r,
                2 * r <= unit,
                r >= 0,
        ;
        assert(2 * unit * h <= 2 * m + unit) by (nonlinear_arith)
            requires
                h == q,
                m == unit * q + r,
                r >= 0,
                unit >= 1,
        ;
    } else {
        assert(2 * r >= unit);
        assert(2 * unit * h + unit >= 2 * m) by (nonlinear_arith)
            requires
                h == q + 1,
                m == unit * q + r,
                r < unit,
        ;
        assert(2 * unit * h <= 2 * m + unit) by (nonlinear_arith)
            requires
                h == q + 1,
                m == unit * q + r,
                2 * r >= unit,
        ;
    }
}

/// A digit's character names the digit.
proof fn lemma_digit_char_injective(a: nat, b: nat)
    requires
        a < 10,
        b < 10,
        digit_char(a) == digit_char(b),
    ensures
        a == b,
{
}

/// A number's decimal digits are at least one, and at least two from
/// ten on.
proof fn lemma_digits_len(n: nat)
    ensures
        digits(n).len() >= 1,
        n >= 10 ==> digits(n).len() >= 2,
    decreases n,
{
    if n >= 10 {
        lemma_digits_len(n / 10);
    }
}

/// Two numbers written alike are the same number.
pub proof fn lemma_digits_injective(a: nat, b: nat)
    requires
        digits(a) == digits(b),
    ensures
        a == b,
    decreases a,
{
    lemma_digits_len(a);
    lemma_digits_len(b);
    if a < 10 && b < 10 {
        assert(digits(a) == seq![digit_char(a)]);
        assert(digits(b) == seq![digit_char(b)]);
        assert(digits(a)[0] == digit_char(a));
        assert(digits(b)[0] == digit_char(b));
        assert(digit_char(a) == digit_char(b));
        lemma_digit_char_injective(a, b);
    } else if a >= 10 && b >= 10 {
        assert(digits(a) == digits(a / 10).push(digit_char(a % 10)));
        assert(digits(b) == digits(b / 10).push(digit_char(b % 10)));
        assert(digits(a).last() == digit_char(a % 10));
        assert(digits(b).last() == digit_char(b % 10));
        assert(digit_char(a % 10) == digit_char(b % 10));
        lemma_digit_char_injective(a % 10, b % 10);
        assert(digits(a).drop_last() =~= digits(a / 10));
        assert(digits(b).drop_last() =~= digits(b / 10));
        lemma_digits_injective(a / 10, b / 10);
    }
}

/// Zero-padding to `width` digits gives exactly `width` characters.
proof fn lemma_padded_len(n: nat, width: nat)
    ensures
        padded(n, width).len() == width,
    decreases width,
{
    if width > 0 {
        lemma_padded_len(n / 10, (width - 1) as nat);
    }
}

/// Two numbers whose lowest `width` digits read alike agree below
/// `10^width`.
proof fn lemma_padded_injective(a: nat, b: nat, width: nat)
    requires
        padded(a, width) == padded(b, width),
    ensures
        a % pow10(width) == b % pow10(width),
    decreases width,
{
    if width > 0 {
        let w1 = (width - 1) as nat;
        assert(padded(a, width) == padded(a / 10, w1).push(digit_char(a % 10)));
        assert(padded(b, width) == padded(b / 10, w1).push(digit_char(b % 10)));
        assert(padded(a, width).last() == digit_char(a % 10));
        assert(padded(b, width).last() == digit_char(b % 10));
        assert(digit_char(a % 10) == digit_char(b % 10));
        lemma_digit_char_injective(a % 10, b % 10);
        assert(padded(a, width).drop_last() =~= padded(a / 10, w1));
        assert(padded(b, width).drop_last() =~= padded(b / 10, w1));
        lemma_padded_injective(a / 10, b / 10, w1);
        lemma_pow10_positive(w1);
        vstd::arithmetic::div_mod::lemma_mod_breakdown(a as int, 10, pow10(w1) as int);
        vstd::arithmetic::div_mod::lemma_mod_breakdown(b as int, 10, pow10(w1) as int);
    }
}

/// Two amounts written alike with the same places are the same amount.
pub proof fn lemma_fixed_injective(a: nat, b: nat, places: nat)
    requires
        fixed(a, places) == fixed(b, places),
    ensures
        a == b,
{
    if places == 0 {
        lemma_digits_injective(a, b);
    } else {
        let u = pow10(places);
        lemma_pow10_positive(places);
        let da = digits(a / u);
        let db = digits(b / u);
        lemma_padded_len(a, places);
        lemma_padded_len(b, places);
        let fa = fixed(a, places);
        assert(fa.len() == da.len() + 1 + places);
        assert(fixed(b, places).len() == db.len() + 1 + places);
        assert(da.len() == db.len());
        assert(fa.subrange(0, da.len() as int) =~= da);
        assert(fixed(b, places).subrange(0, db.len() as int) =~= db);
        lemma_digits_injective(a / u, b / u);
        assert(fa.subrange(da.len() + 1int, fa.len() as int) =~= padded(a, places));
        assert(fixed(b, places).subrange(db.len() + 1int, fa.len() as int) =~= padded(b, places));
        lemma_padded_injective(a, b, places);
        vstd::arithmetic::div_mod::lemma_fundamental_div_mod(a as int, u as int);
        vstd::arithmetic::div_mod::lemma_fundamental_div_mod(b as int, u as int);
    }
}

} // verus!
