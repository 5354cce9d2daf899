//! Money as exact integer paise (hundredths of a rupee), the two-decimal
//! text form every amount is stored and shown in, and the parser for amounts
//! a user types in (which goes through `rust_decimal`).

use crate::text::{digit_char, digit_of, nat_text, push_char, push_nat, string_of, trim, trim_seq};
use std::str::FromStr;
use vstd::prelude::*;

verus! {

/// Largest magnitude (in paise) any sum of amounts may reach: the 96-bit
/// mantissa of a two-decimal `rust_decimal::Decimal`.
pub const MONEY_LIMIT: u128 = 79228162514264337593543950335;

pub open spec fn abs(v: int) -> nat {
    if v < 0 {
        (-v) as nat
    } else {
        v as nat
    }
}

// ---------------------------------------------------------------------------
// Rendering: `format!("{:.2}", decimal)` truncates to two places and keeps
// the sign of the (untruncated) value.
// ---------------------------------------------------------------------------

/// Text of a value whose magnitude truncated to paise is `mag` and whose sign
/// is negative when `neg`.
pub open spec fn amount_text(neg: bool, mag: nat) -> Seq<char> {
    (if neg {
        seq!['-']
    } else {
        Seq::<char>::empty()
    }) + nat_text(mag / 100) + seq!['.', digit_char((mag % 100) / 10), digit_char(mag % 10)]
}

/// Two-decimal text of an exact amount in paise.
pub open spec fn cents_text(c: int) -> Seq<char> {
    amount_text(c < 0, abs(c))
}

pub fn push_amount(out: &mut String, neg: bool, mag: u128)
    ensures
        final(out)@ == old(out)@ + amount_text(neg, mag as nat),
{
    if neg {
        push_char(out, '-');
    }
    push_nat(out, mag / 100);
    push_char(out, '.');
    push_char(out, digit_of((mag % 100) / 10));
    push_char(out, digit_of(mag % 10));
    assert(final(out)@ =~= old(out)@ + amount_text(neg, mag as nat));
}

pub fn amount_string(neg: bool, mag: u128) -> (r: String)
    ensures
        r@ == amount_text(neg, mag as nat),
{
    let mut s = String::new();
    push_amount(&mut s, neg, mag);
    assert(s@ =~= amount_text(neg, mag as nat));
    s
}

pub fn magnitude(c: i128) -> (r: u128)
    requires
        c > i128::MIN,
    ensures
        r == abs(c as int),
{
    if c < 0 {
        (-c) as u128
    } else {
        c as u128
    }
}

/// `format!("{:.2}", amount)` for an amount in paise.
pub fn format_cents(c: i128) -> (r: String)
    requires
        c > i128::MIN,
    ensures
        r@ == cents_text(c as int),
{
    amount_string(c < 0, magnitude(c))
}

// ---------------------------------------------------------------------------
// Reading the stored two-decimal form back
// ---------------------------------------------------------------------------

pub open spec fn is_digit(c: char) -> bool {
    '0' <= c && c <= '9'
}

pub open spec fn all_digits(s: Seq<char>) -> bool {
    forall|i: int| 0 <= i < s.len() ==> is_digit(#[trigger] s[i])
}

pub open spec fn digit_value(c: char) -> nat {
    ((c as u32) - ('0' as u32)) as nat
}

/// Value of a run of decimal digits.
pub open spec fn digits_value(s: Seq<char>) -> nat
    decreases s.len(),
{
    if s.len() == 0 {
        0
    } else {
        digits_value(s.drop_last()) * 10 + digit_value(s.last())
    }
}

/// Paise value of a stored amount written as `-?D+.DD`, within the money
/// limit; `None` for anything else.
pub open spec fn stored_cents(s: Seq<char>) -> Option<int> {
    let neg = s.len() > 0 && s[0] == '-';
    let body = if neg {
        s.drop_first()
    } else {
        s
    };
    let n = body.len() as int;
    if n >= 4 && body[n - 3] == '.' && all_digits(body.subrange(0, n - 3)) && all_digits(
        body.subrange(n - 2, n),
    ) {
        let v = digits_value(body.subrange(0, n - 3)) * 100 + digits_value(body.subrange(n - 2, n));
        if v <= MONEY_LIMIT {
            Some(
                if neg {
                    -v
                } else {
                    v as int
                },
            )
        } else {
            None
        }
    } else {
        None
    }
}

proof fn lemma_digits_value_grows(s: Seq<char>, k: int)
    requires
        0 <= k <= s.len(),
    ensures
        digits_value(s.subrange(0, k)) <= digits_value(s),
    decreases s.len() - k,
{
    if k < s.len() {
        lemma_digits_value_grows(s.drop_last(), k);
        assert(s.drop_last().subrange(0, k) =~= s.subrange(0, k));
    } else {
        assert(s.subrange(0, k) =~= s);
    }
}

proof fn lemma_digit_bound(c: char)
    requires
        is_digit(c),
    ensures
        digit_value(c) < 10,
{
    assert('0' as u32 == 48);
    assert('9' as u32 == 57);
    assert(48 <= c as u32 <= 57);
}

proof fn lemma_two_digits(t: Seq<char>)
    requires
        t.len() == 2,
        all_digits(t),
    ensures
        digits_value(t) == digit_value(t[0]) * 10 + digit_value(t[1]),
        digits_value(t) < 100,
{
    let a = t.drop_last();
    assert(a.drop_last() =~= Seq::<char>::empty());
    assert(a.last() == t[0]);
    assert(digits_value(a.drop_last()) == 0);
    assert(digits_value(a) == digits_value(a.drop_last()) * 10 + digit_value(a.last()));
    assert(digits_value(t) == digits_value(a) * 10 + digit_value(t.last()));
    lemma_digit_bound(t[0]);
    lemma_digit_bound(t[1]);
}

fn char_digit(c: char) -> (r: u128)
    requires
        is_digit(c),
    ensures
        r == digit_value(c),
        r < 10,
{
    ((c as u32) - ('0' as u32)) as u128
}

fn is_digit_char(c: char) -> (r: bool)
    ensures
        r == is_digit(c),
{
    '0' <= c && c <= '9'
}

/// Value of the digits `s[from..to]`, if they are all digits and the value
/// stays within the money limit.
fn digits_in(s: &str, from: usize, to: usize) -> (r: Option<u128>)
    requires
        from <= to <= s@.len(),
    ensures
        match r {
            Some(v) => all_digits(s@.subrange(from as int, to as int)) && v == digits_value(
                s@.subrange(from as int, to as int),
            ) && v <= MONEY_LIMIT,
            None => !all_digits(s@.subrange(from as int, to as int)) || digits_value(
                s@.subrange(from as int, to as int),
            ) > MONEY_LIMIT,
        },
{
    let mut acc: u128 = 0;
    let mut i: usize = from;
    while i < to
        invariant
            from <= i <= to <= s@.len(),
            all_digits(s@.subrange(from as int, i as int)),
            acc == digits_value(s@.subrange(from as int, i as int)),
            acc <= MONEY_LIMIT,
        decreases to - i,
    {
        let c = s.get_char(i);
        proof {
            assert(s@.subrange(from as int, i as int + 1).drop_last() =~= s@.subrange(
                from as int,
                i as int,
            ));
        }
        if !is_digit_char(c) {
            assert(s@.subrange(from as int, to as int)[i - from] == c);
            return None;
        }
        let d = char_digit(c);
        let next = acc * 10 + d;
        if next > MONEY_LIMIT {
            proof {
                let whole = s@.subrange(from as int, to as int);
                assert(whole.subrange(0, i - from + 1) =~= s@.subrange(from as int, i as int + 1));
                if all_digits(whole) {
                    lemma_digits_value_grows(whole, i - from + 1);
                }
            }
            return None;
        }
        acc = next;
        i = i + 1;
    }
    Some(acc)
}

/// Reads an amount stored in the two-decimal form (see [`stored_cents`]).
pub fn parse_stored_cents(s: &str) -> (r: Option<i128>)
    ensures
        match r {
            Some(c) => stored_cents(s@) == Some(c as int),
            None => stored_cents(s@).is_none(),
        },
{
    let len = s.unicode_len();
    let neg = len > 0 && s.get_char(0) == '-';
    let start: usize = if neg {
        1
    } else {
        0
    };
    let ghost body = if neg {
        s@.drop_first()
    } else {
        s@
    };
    assert(body =~= s@.subrange(start as int, len as int));
    let n = len - start;
    if n < 4 || s.get_char(len - 3) != '.' {
        return None;
    }
    assert(body.subrange(0, n - 3) =~= s@.subrange(start as int, len - 3));
    assert(body.subrange(n - 2, n as int) =~= s@.subrange(len - 2, len as int));
    let whole = digits_in(s, start, len - 3);
    let frac = digits_in(s, len - 2, len);
    match (whole, frac) {
        (Some(w), Some(f)) => {
            assert(f < 100) by {
                lemma_two_digits(s@.subrange(len - 2, len as int));
            }
            if w > (MONEY_LIMIT - f) / 100 {
                return None;
            }
            let v = w * 100 + f;
            if neg {
                Some(-(v as i128))
            } else {
                Some(v as i128)
            }
        },
        _ => {
            proof {
                if all_digits(body.subrange(0, n - 3)) && all_digits(body.subrange(n - 2, n as int)) {
                    lemma_two_digits(s@.subrange(len - 2, len as int));
                }
            }
            None
        },
    }
}

proof fn lemma_nat_text_digits(n: nat)
    ensures
        all_digits(nat_text(n)),
        digits_value(nat_text(n)) == n,
        nat_text(n).len() >= 1,
    decreases n,
{
    lemma_digit_char(n % 10);
    let t = nat_text(n);
    if n >= 10 {
        lemma_nat_text_digits(n / 10);
        assert(t.drop_last() =~= nat_text(n / 10));
        assert(t.last() == digit_char(n % 10));
        assert(digits_value(t) == digits_value(t.drop_last()) * 10 + digit_value(t.last()));
        assert((n / 10) * 10 + n % 10 == n);
        assert forall|i: int| 0 <= i < t.len() implies is_digit(#[trigger] t[i]) by {
            if i < t.len() - 1 {
                assert(t[i] == nat_text(n / 10)[i]);
            }
        }
    } else {
        assert(t.drop_last() =~= Seq::<char>::empty());
        assert(digits_value(t.drop_last()) == 0);
        assert(digits_value(t) == digits_value(t.drop_last()) * 10 + digit_value(t.last()));
    }
}

proof fn lemma_digit_char(d: nat)
    requires
        d < 10,
    ensures
        is_digit(digit_char(d)),
        digit_value(digit_char(d)) == d,
{
    assert('0' as u32 == 48);
    assert('1' as u32 == 49);
    assert('2' as u32 == 50);
    assert('3' as u32 == 51);
    assert('4' as u32 == 52);
    assert('5' as u32 == 53);
    assert('6' as u32 == 54);
    assert('7' as u32 == 55);
    assert('8' as u32 == 56);
    assert('9' as u32 == 57);
}

proof fn lemma_body_digits(mag: nat)
    ensures
        ({
            let body = nat_text(mag / 100) + seq!['.', digit_char((mag % 100) / 10), digit_char(mag % 10)];
            let n = body.len() as int;
            &&& n >= 4
            &&& body[n - 3] == '.'
            &&& all_digits(body.subrange(0, n - 3))
            &&& all_digits(body.subrange(n - 2, n))
            &&& digits_value(body.subrange(0, n - 3)) * 100 + digits_value(body.subrange(n - 2, n)) == mag
            &&& is_digit(body[0])
        }),
{
    let w = nat_text(mag / 100);
    let d1 = digit_char((mag % 100) / 10);
    let d2 = digit_char(mag % 10);
    lemma_nat_text_digits(mag / 100);
    lemma_digit_char((mag % 100) / 10);
    lemma_digit_char(mag % 10);
    let body = w + seq!['.', d1, d2];
    let n = body.len() as int;
    assert(body.subrange(0, n - 3) =~= w);
    let f = body.subrange(n - 2, n);
    assert(f =~= seq![d1, d2]);
    lemma_two_digits(f);
    assert(body[0] == w[0]);
}

/// Law: an amount written by [`format_cents`] is in the stored two-decimal
/// form with the same value, so [`read_stored_amount`] reads it back as
/// written (what is stored "normalized on write" is readable on load).
pub proof fn law_stored_amount_roundtrip(c: int)
    requires
        abs(c) <= MONEY_LIMIT,
    ensures
        stored_cents(cents_text(c)) == Some(c),
{
    let mag = abs(c);
    let s = cents_text(c);
    let body = nat_text(mag / 100) + seq!['.', digit_char((mag % 100) / 10), digit_char(mag % 10)];
    lemma_body_digits(mag);
    if c < 0 {
        assert(s =~= seq!['-'] + body);
        assert(s.drop_first() =~= body);
    } else {
        assert(s =~= body);
        assert(is_digit(s[0]));
    }
}

// ---------------------------------------------------------------------------
// Parsing user input with rust_decimal
// ---------------------------------------------------------------------------

/// A decimal number as `rust_decimal` holds it: sign flag, 96-bit mantissa,
/// scale (number of decimal places).
pub struct DecimalValue {
    pub negative: bool,
    pub mantissa: u128,
    pub scale: u32,
}

/// Name for what `rust_decimal::Decimal::from_str` gives for a text: the
/// parts of the decimal, or the text of its error.
pub uninterp spec fn decimal_parse_result(s: Seq<char>) -> Result<(bool, u128, u32), Seq<char>>;

/// `rust_decimal::Decimal::from_str`, read back as (sign flag, mantissa
/// magnitude, scale); on failure the error's display text. Claims that a
/// decimal's scale is at most 28 and its mantissa fits 96 bits, as the crate
/// documents for every `Decimal`; and that text in the plain two-decimal
/// form `-?D+.DD` whose digits fit 96 bits is read digit for digit, at scale
/// two, with no sign flag on zero (the crate's `parse_str_radix_10` and
/// `Decimal::from_parts`). What it does with other text is left unsaid.
#[verifier::external_body]
fn decimal_from_str(s: &str) -> (r: Result<(bool, u128, u32), String>)
    ensures
        match r {
            Ok(t) => decimal_parse_result(s@) == Ok::<(bool, u128, u32), Seq<char>>(t) && t.2
                <= 28 && t.1 <= MONEY_LIMIT,
            Err(e) => decimal_parse_result(s@) == Err::<(bool, u128, u32), Seq<char>>(e@),
        },
        match stored_cents(s@) {
            Some(c) => r == Ok::<(bool, u128, u32), String>((c < 0, abs(c) as u128, 2u32)),
            None => true,
        },
{
    match rust_decimal::Decimal::from_str(s) {
        Ok(d) => Ok((d.is_sign_negative(), d.mantissa().unsigned_abs(), d.scale())),
        Err(e) => Err(e.to_string()),
    }
}

pub open spec fn pow10(n: nat) -> nat
    decreases n,
{
    if n == 0 {
        1
    } else {
        10 * pow10((n - 1) as nat)
    }
}

pub fn pow10_exec(n: u32) -> (r: u128)
    requires
        n <= 30,
    ensures
        r == pow10(n as nat),
{
    let mut r: u128 = 1;
    let mut i: u32 = 0;
    assert(pow10(30) == 1000000000000000000000000000000nat) by {
        reveal_with_fuel(pow10, 32);
    }
    proof {
        lemma_pow10_mono(0, 30);
    }
    while i < n
        invariant
            0 <= i <= n <= 30,
            r == pow10(i as nat),
            r <= pow10(30),
            pow10(30) == 1000000000000000000000000000000nat,
        decreases n - i,
    {
        proof {
            lemma_pow10_mono((i + 1) as nat, 30);
        }
        r = r * 10;
        i = i + 1;
    }
    r
}

pub proof fn lemma_pow10_mono(a: nat, b: nat)
    requires
        a <= b,
    ensures
        pow10(a) <= pow10(b),
        pow10(a) >= 1,
    decreases b,
{
    if a < b {
        lemma_pow10_mono(a, (b - 1) as nat);
    } else if b > 0 {
        lemma_pow10_mono((a - 1) as nat, (b - 1) as nat);
    }
}

/// The mantissa/scale pair truncated to whole paise (toward zero).
pub open spec fn parts_cents(mantissa: nat, scale: nat) -> nat {
    if scale >= 2 {
        mantissa / pow10((scale - 2) as nat)
    } else {
        mantissa * pow10((2 - scale) as nat)
    }
}

impl DecimalValue {
    /// The exact value of the decimal is negative (a zero with a sign flag is
    /// not).
    pub open spec fn is_negative(&self) -> bool {
        self.negative && self.mantissa > 0
    }

    /// The exact value is greater than the whole number `k`.
    pub open spec fn exceeds(&self, k: nat) -> bool {
        !self.negative && self.mantissa > k * pow10(self.scale as nat)
    }

    /// Paise, truncated toward zero, with the sign.
    pub open spec fn cents(&self) -> int {
        if self.negative {
            -parts_cents(self.mantissa as nat, self.scale as nat)
        } else {
            parts_cents(self.mantissa as nat, self.scale as nat) as int
        }
    }

    /// `format!("{:.2}", d)`: truncated to two places; the sign flag is kept
    /// even when what remains is zero.
    pub open spec fn text2(&self) -> Seq<char> {
        amount_text(self.negative, parts_cents(self.mantissa as nat, self.scale as nat))
    }

    pub open spec fn well_formed(&self) -> bool {
        self.scale <= 28 && self.mantissa <= MONEY_LIMIT
    }

    pub fn is_negative_exec(&self) -> (r: bool)
        ensures
            r == self.is_negative(),
    {
        self.negative && self.mantissa > 0
    }

    pub fn exceeds_exec(&self, k: u32) -> (r: bool)
        requires
            self.well_formed(),
            k <= 1000,
        ensures
            r == self.exceeds(k as nat),
    {
        let p = pow10_exec(self.scale);
        proof {
            lemma_pow10_mono(self.scale as nat, 28);
            assert(pow10(28) == 10000000000000000000000000000nat) by {
                reveal_with_fuel(pow10, 30);
            }
            assert(k as nat * pow10(self.scale as nat) <= 1000 * pow10(28)) by (nonlinear_arith)
                requires
                    k <= 1000,
                    pow10(self.scale as nat) <= pow10(28),
            ;
        }
        !self.negative && self.mantissa > (k as u128) * p
    }

    pub fn cents_magnitude(&self) -> (r: u128)
        requires
            self.well_formed(),
        ensures
            r == parts_cents(self.mantissa as nat, self.scale as nat),
            r <= MONEY_LIMIT * 100,
    {
        if self.scale >= 2 {
            let p = pow10_exec(self.scale - 2);
            proof {
                lemma_pow10_mono((self.scale - 2) as nat, 30);
            }
            assert(self.mantissa / p <= self.mantissa) by (nonlinear_arith)
                requires
                    p >= 1,
            ;
            self.mantissa / p
        } else {
            let p = pow10_exec(2 - self.scale);
            assert(p <= 100) by {
                reveal_with_fuel(pow10, 3);
            }
            assert(self.mantissa * p <= MONEY_LIMIT * 100) by (nonlinear_arith)
                requires
                    self.mantissa <= MONEY_LIMIT,
                    p <= 100,
            ;
            self.mantissa * p
        }
    }

    /// The value in paise, truncated toward zero.
    pub fn signed_cents(&self) -> (r: i128)
        requires
            self.well_formed(),
        ensures
            r == self.cents(),
    {
        let m = self.cents_magnitude();
        if self.negative {
            -(m as i128)
        } else {
            m as i128
        }
    }

    /// `format!("{:.2}", d)`.
    pub fn to_text2(&self) -> (r: String)
        requires
            self.well_formed(),
        ensures
            r@ == self.text2(),
    {
        amount_string(self.negative, self.cents_magnitude())
    }
}

/// A parsed decimal is a whole number of paise: nothing beyond the second
/// decimal place.
pub open spec fn whole_paise(t: (bool, u128, u32)) -> bool {
    t.2 <= 2 || (t.1 as nat) % pow10((t.2 - 2) as nat) == 0
}

/// The decimal's value in paise (exact when [`whole_paise`] holds).
pub open spec fn decimal_cents(t: (bool, u128, u32)) -> int {
    if t.0 {
        -parts_cents(t.1 as nat, t.2 as nat)
    } else {
        parts_cents(t.1 as nat, t.2 as nat) as int
    }
}

/// A stored amount as `Decimal::from_str` reads it, in paise; `None` when it
/// is not a decimal, or has digits beyond the paisa.
pub open spec fn stored_amount(s: Seq<char>) -> Option<int> {
    match decimal_parse_result(s) {
        Ok(t) => if whole_paise(t) {
            Some(decimal_cents(t))
        } else {
            None
        },
        Err(_) => None,
    }
}

/// Reads a stored amount with `Decimal::from_str`; an amount in the
/// two-decimal form it is written in reads back as what was written.
pub fn read_stored_amount(s: &str) -> (r: Option<i128>)
    ensures
        match r {
            Some(c) => stored_amount(s@) == Some(c as int) && abs(c as int) <= MONEY_LIMIT * 100,
            None => stored_amount(s@).is_none(),
        },
        match stored_cents(s@) {
            Some(c) => r == Some(c as i128),
            None => true,
        },
{
    match decimal_from_str(s) {
        Ok(t) => {
            let d = DecimalValue { negative: t.0, mantissa: t.1, scale: t.2 };
            if t.2 > 2 {
                let p = pow10_exec(t.2 - 2);
                proof {
                    lemma_pow10_mono((t.2 - 2) as nat, 30);
                }
                if t.1 % p != 0 {
                    return None;
                }
            }
            let m = d.cents_magnitude();
            proof {
                if stored_cents(s@) is Some {
                    assert(pow10(0) == 1);
                    let x: nat = t.1 as nat;
                    assert(x / 1 == x) by (nonlinear_arith);
                }
            }
            if t.0 {
                Some(-(m as i128))
            } else {
                Some(m as i128)
            }
        },
        Err(_) => None,
    }
}

impl View for DecimalValue {
    type V = (bool, u128, u32);

    /// Sign flag, mantissa magnitude, scale.
    open spec fn view(&self) -> (bool, u128, u32) {
        (self.negative, self.mantissa, self.scale)
    }
}

/// An amount in paise as a decimal at two places.
pub open spec fn cents_parts(c: int) -> (bool, u128, u32) {
    (c < 0, abs(c) as u128, 2u32)
}

/// `format!("{:.2}", d)` of a decimal given by its parts.
pub open spec fn parts_text2(t: (bool, u128, u32)) -> Seq<char> {
    amount_text(t.0, parts_cents(t.1 as nat, t.2 as nat))
}

/// Name for the parts of the `rust_decimal` quotient `a / b`.
pub uninterp spec fn decimal_quotient(a: (bool, u128, u32), b: (bool, u128, u32)) -> (bool, u128, u32);

/// Name for the parts of the `rust_decimal` product `a * b`.
pub uninterp spec fn decimal_product(a: (bool, u128, u32), b: (bool, u128, u32)) -> (bool, u128, u32);

/// `Decimal / Decimal` (`ops::div_impl`), the operands built from their
/// parts. The result is named, not described: the crate keeps as many
/// digits as 96 bits and 28 places allow and rounds the rest. `requires`
/// keeps the divisor non-zero and the exact quotient below the largest
/// `Decimal`, where the division would panic. Claims only that the result
/// is a `Decimal`: scale at most 28, mantissa within 96 bits.
#[verifier::external_body]
pub(crate) fn decimal_div(a: &DecimalValue, b: &DecimalValue) -> (r: DecimalValue)
    requires
        a.well_formed(),
        b.well_formed(),
        b.mantissa > 0,
        a.mantissa * pow10(b.scale as nat) <= (MONEY_LIMIT - 1) * b.mantissa * pow10(a.scale as nat),
    ensures
        r@ == decimal_quotient(a@, b@),
        r.well_formed(),
{
    let mut x = rust_decimal::Decimal::from_i128_with_scale(a.mantissa as i128, a.scale);
    x.set_sign_negative(a.negative);
    let mut y = rust_decimal::Decimal::from_i128_with_scale(b.mantissa as i128, b.scale);
    y.set_sign_negative(b.negative);
    let q = x / y;
    DecimalValue { negative: q.is_sign_negative(), mantissa: q.mantissa().unsigned_abs(), scale: q.scale() }
}

/// `Decimal * Decimal` (`ops::mul_impl`), the operands built from their
/// parts. The result is named, not described: past 28 places the crate
/// rounds. `requires` keeps the exact product within the largest `Decimal`,
/// beyond which it panics. Claims only that the result is a `Decimal`.
#[verifier::external_body]
pub(crate) fn decimal_mul(a: &DecimalValue, b: &DecimalValue) -> (r: DecimalValue)
    requires
        a.well_formed(),
        b.well_formed(),
        a.mantissa * b.mantissa <= MONEY_LIMIT * pow10((a.scale + b.scale) as nat),
    ensures
        r@ == decimal_product(a@, b@),
        r.well_formed(),
{
    let mut x = rust_decimal::Decimal::from_i128_with_scale(a.mantissa as i128, a.scale);
    x.set_sign_negative(a.negative);
    let mut y = rust_decimal::Decimal::from_i128_with_scale(b.mantissa as i128, b.scale);
    y.set_sign_negative(b.negative);
    let p = x * y;
    DecimalValue { negative: p.is_sign_negative(), mantissa: p.mantissa().unsigned_abs(), scale: p.scale() }
}

/// `format!("{:.2}", (num / 10^ns) / (den / 10^ds))` with the division done
/// by `rust_decimal`, for a numerator and a positive denominator given by
/// mantissa and scale.
pub open spec fn quotient_text(num: int, ns: u32, den: int, ds: u32) -> Seq<char> {
    parts_text2(decimal_quotient((num < 0, abs(num) as u128, ns), (false, den as u128, ds)))
}

/// The exact quotient `(num / 10^ns) / (den / 10^ds)` stays below the largest
/// `Decimal`.
pub open spec fn quotient_fits(num: int, ns: u32, den: int, ds: u32) -> bool {
    abs(num) * pow10(ds as nat) <= (MONEY_LIMIT - 1) * den * pow10(ns as nat)
}

/// The quotient of two decimals, divided by `rust_decimal` and written with
/// two places.
pub fn format_quotient(num: i128, ns: u32, den: i128, ds: u32) -> (r: String)
    requires
        abs(num as int) <= MONEY_LIMIT,
        0 < den <= MONEY_LIMIT,
        ns <= 28,
        ds <= 28,
        quotient_fits(num as int, ns, den as int, ds),
    ensures
        r@ == quotient_text(num as int, ns, den as int, ds),
{
    let a = DecimalValue { negative: num < 0, mantissa: magnitude(num), scale: ns };
    let b = DecimalValue { negative: false, mantissa: den as u128, scale: ds };
    let q = decimal_div(&a, &b);
    q.to_text2()
}

/// `raw` with every `,` removed (`str::replace(',', "")`).
pub open spec fn without_commas(s: Seq<char>) -> Seq<char>
    decreases s.len(),
{
    if s.len() == 0 {
        s
    } else if s.last() == ',' {
        without_commas(s.drop_last())
    } else {
        without_commas(s.drop_last()).push(s.last())
    }
}

pub fn remove_commas(s: &str) -> (r: String)
    ensures
        r@ == without_commas(s@),
{
    let n = s.unicode_len();
    let mut out = String::new();
    let mut i: usize = 0;
    assert(s@.subrange(0, 0) =~= Seq::<char>::empty());
    while i < n
        invariant
            0 <= i <= n,
            n == s@.len(),
            out@ == without_commas(s@.subrange(0, i as int)),
        decreases n - i,
    {
        let c = s.get_char(i);
        assert(s@.subrange(0, i as int + 1).drop_last() =~= s@.subrange(0, i as int));
        if c != ',' {
            push_char(&mut out, c);
        }
        i = i + 1;
    }
    assert(s@.subrange(0, n as int) =~= s@);
    out
}

/// The text `parse_amount` hands to `Decimal::from_str`.
pub open spec fn amount_input(raw: Seq<char>) -> Seq<char> {
    without_commas(trim_seq(raw))
}

/// What `parse_amount(raw, label)` returns.
pub open spec fn parse_amount_result(raw: Seq<char>, label: Seq<char>) -> Result<
    (bool, u128, u32),
    Seq<char>,
> {
    match decimal_parse_result(amount_input(raw)) {
        Ok(t) => Ok(t),
        Err(e) => Err(label + " '"@ + raw + "' is not a decimal: "@ + e),
    }
}

/// Parses an amount the user typed: surrounding whitespace and Indian-style
/// thousands separators are ignored.
pub fn parse_amount(raw: &str, label: &str) -> (r: Result<DecimalValue, String>)
    ensures
        match r {
            Ok(d) => parse_amount_result(raw@, label@) == Ok::<(bool, u128, u32), Seq<char>>(
                (d.negative, d.mantissa, d.scale),
            ) && d.well_formed(),
            Err(e) => parse_amount_result(raw@, label@) == Err::<(bool, u128, u32), Seq<char>>(
                e@,
            ),
        },
{
    let cleaned = remove_commas(trim(raw));
    match decimal_from_str(cleaned.as_str()) {
        Ok(t) => Ok(DecimalValue { negative: t.0, mantissa: t.1, scale: t.2 }),
        Err(e) => {
            let mut msg = string_of(label);
            msg.append(" '");
            msg.append(raw);
            msg.append("' is not a decimal: ");
            msg.append(e.as_str());
            Err(msg)
        },
    }
}

} // verus!
