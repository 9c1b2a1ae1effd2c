//! Exact decimal numbers.
//!
//! A JSON number is a decimal literal, so it is kept here as its digits, a
//! sign and a power of ten, with as many digits as the literal has. Two
//! numbers are compared by bringing both to the smaller of the two
//! exponents, where they are integers; nothing is ever rounded.

use vstd::prelude::*;
use vstd::arithmetic::div_mod::lemma_fundamental_div_mod_converse;
use vstd::arithmetic::div_mod::lemma_mod_mod;
use vstd::arithmetic::div_mod::lemma_small_mod;
use vstd::arithmetic::div_mod::lemma_truncate_middle;
use crate::digits::divides;
use crate::digits::ends_in_zeros;
use crate::digits::is_decimal;
use crate::digits::is_zero;
use crate::digits::lemma_natural_below;
use crate::digits::lemma_natural_concat;
use crate::digits::lemma_pow10_monotonic;
use crate::digits::lemma_pow10_positive;
use crate::digits::natural;
use crate::digits::order_shifted;
use crate::digits::pow10;

verus! {

/// The absolute value of an integer.
pub open spec fn magnitude(x: int) -> nat {
    if x < 0 {
        (-x) as nat
    } else {
        x as nat
    }
}

/// The mathematical value `coefficient × 10^exponent`.
pub struct Decimal {
    pub coefficient: int,
    pub exponent: int,
}

impl Decimal {
    /// The smaller of the two exponents: the finest unit in which both
    /// numbers are integers.
    pub open spec fn unit(self, other: Decimal) -> int {
        if self.exponent <= other.exponent {
            self.exponent
        } else {
            other.exponent
        }
    }

    /// The number counted in units of `10^e`, for an `e` that is at most the
    /// exponent.
    pub open spec fn scaled(self, e: int) -> int {
        self.coefficient * pow10((self.exponent - e) as nat)
    }

    /// `self < other`.
    pub open spec fn lt(self, other: Decimal) -> bool {
        self.scaled(self.unit(other)) < other.scaled(self.unit(other))
    }

    /// `self <= other`.
    pub open spec fn le(self, other: Decimal) -> bool {
        self.scaled(self.unit(other)) <= other.scaled(self.unit(other))
    }

    /// `self` and `other` are the same number, whatever their exponents.
    pub open spec fn same(self, other: Decimal) -> bool {
        self.scaled(self.unit(other)) == other.scaled(self.unit(other))
    }

    /// The number has no fractional part.
    pub open spec fn is_integer(self) -> bool {
        self.exponent >= 0 || magnitude(self.coefficient) % pow10((-self.exponent) as nat) == 0
    }

    /// `self` is an integer multiple of `divisor`, and `divisor` is not zero.
    pub open spec fn is_multiple_of(self, divisor: Decimal) -> bool {
        let e = self.unit(divisor);
        magnitude(divisor.scaled(e)) != 0 && magnitude(self.scaled(e)) % magnitude(
            divisor.scaled(e),
        ) == 0
    }
}

/// The number that the decimal digits `digits` write.
pub open spec fn decimal(digits: Seq<char>) -> nat
    decreases digits.len(),
{
    if digits.len() == 0 {
        0
    } else {
        (decimal(digits.drop_last()) * 10 + (digits.last() as nat - '0' as nat)) as nat
    }
}

/// Whether `c` is a decimal digit.
pub open spec fn is_digit(c: char) -> bool {
    '0' <= c <= '9'
}

/// Where the run of decimal digits that begins at `from` ends.
pub open spec fn digits_end(text: Seq<char>, from: int) -> int
    decreases text.len() - from,
{
    if 0 <= from < text.len() && is_digit(text[from]) {
        digits_end(text, from + 1)
    } else {
        from
    }
}

/// The number that a JSON number literal writes: an optional `-`; the whole
/// part, `0` or digits that do not begin with `0`; optionally `.` and at
/// least one digit; optionally `e` or `E`, an optional sign and at least one
/// digit. `None` for any other text.
pub open spec fn literal(text: Seq<char>) -> Option<Decimal> {
    let negative = text.len() > 0 && text[0] == '-';
    let start: int = if negative {
        1
    } else {
        0
    };
    let whole_end = digits_end(text, start);
    let fraction = whole_end < text.len() && text[whole_end] == '.';
    let fraction_end = if fraction {
        digits_end(text, whole_end + 1)
    } else {
        whole_end
    };
    let fraction_digits = if fraction {
        text.subrange(whole_end + 1, fraction_end)
    } else {
        Seq::empty()
    };
    let scaled = fraction_end < text.len() && (text[fraction_end] == 'e' || text[fraction_end]
        == 'E');
    let sign_at = fraction_end + 1;
    let signed = scaled && sign_at < text.len() && (text[sign_at] == '-' || text[sign_at] == '+');
    let exponent_start = if signed {
        sign_at + 1
    } else {
        sign_at
    };
    let exponent_end = if scaled {
        digits_end(text, exponent_start)
    } else {
        fraction_end
    };
    let written: int = if scaled {
        decimal(text.subrange(exponent_start, exponent_end)) as int
    } else {
        0
    };
    let power = if signed && text[sign_at] == '-' {
        -written
    } else {
        written
    };
    let digits = text.subrange(start, whole_end) + fraction_digits;
    if whole_end > start && (whole_end == start + 1 || text[start] != '0') && (fraction
        ==> fraction_end > whole_end + 1) && (scaled ==> exponent_end > exponent_start)
        && exponent_end == text.len() {
        Some(
            Decimal {
                coefficient: if negative {
                    -(decimal(digits) as int)
                } else {
                    decimal(digits) as int
                },
                exponent: power - fraction_digits.len(),
            },
        )
    } else {
        None
    }
}

/// Whether the number can be kept in a `Number`: its exponent is within 32
/// bits.
pub open spec fn fits(d: Decimal) -> bool {
    i32::MIN <= d.exponent <= i32::MAX
}

/// The values of the decimal digits `chars`.
pub open spec fn digit_values(chars: Seq<char>) -> Seq<u8> {
    Seq::new(chars.len(), |i: int| (chars[i] as int - '0' as int) as u8)
}

/// The values of digits write the number that the digits write.
pub proof fn lemma_digit_values(chars: Seq<char>)
    requires
        forall|i: int| 0 <= i < chars.len() ==> is_digit(#[trigger] chars[i]),
    ensures
        is_decimal(digit_values(chars)),
        natural(digit_values(chars)) == decimal(chars),
    decreases chars.len(),
{
    let values = digit_values(chars);
    assert forall|i: int| 0 <= i < values.len() implies #[trigger] values[i] <= 9 by {
        assert(is_digit(chars[i]));
    }
    if chars.len() > 0 {
        assert(digit_values(chars.drop_last()) =~= values.drop_last());
        assert forall|i: int| 0 <= i < chars.drop_last().len() implies is_digit(
            #[trigger] chars.drop_last()[i],
        ) by {
            assert(chars.drop_last()[i] == chars[i]);
        }
        lemma_digit_values(chars.drop_last());
        assert(is_digit(chars[chars.len() - 1]));
    }
}

/// A run of digits ends where the run that begins later in it ends.
pub proof fn lemma_digits_run(text: Seq<char>, from: int, to: int)
    requires
        0 <= from <= to <= text.len(),
        forall|j: int| from <= j < to ==> is_digit(#[trigger] text[j]),
    ensures
        digits_end(text, from) == digits_end(text, to),
    decreases to - from,
{
    if from < to {
        lemma_digits_run(text, from + 1, to);
    }
}

/// More digits write a number that is no smaller.
pub proof fn lemma_decimal_grows(digits: Seq<char>)
    requires
        digits.len() > 0,
        is_digit(digits.last()),
    ensures
        decimal(digits) >= decimal(digits.drop_last()),
        decimal(digits) == decimal(digits.drop_last()) * 10 + (digits.last() as nat - '0' as nat),
{
}

/// A decimal number: a sign, digits and a power of ten.
///
/// `-0` and `0` are the same number, and so are `1`, `1.0` and `10e-1`.
#[derive(Debug)]
pub struct Number {
    pub(crate) negative: bool,
    pub(crate) digits: Vec<u8>,
    pub(crate) exponent: i32,
}

impl View for Number {
    type V = Decimal;

    closed spec fn view(&self) -> Decimal {
        Decimal {
            coefficient: if self.negative {
                -(natural(self.digits@) as int)
            } else {
                natural(self.digits@) as int
            },
            exponent: self.exponent as int,
        }
    }
}

proof fn lemma_unscaled(x: int, n: nat)
    requires
        n == 0,
    ensures
        x * pow10(n) == x,
{
    assert(pow10(n) == 1);
    assert(x * pow10(n) == x) by (nonlinear_arith)
        requires
            pow10(n) == 1,
    ;
}

proof fn lemma_scale_sign(c: int, p: nat)
    requires
        p >= 1,
    ensures
        c > 0 ==> c * p > 0,
        c == 0 ==> c * p == 0,
        c < 0 ==> c * p < 0,
        magnitude(c * p) == magnitude(c) * p,
{
    assert(c > 0 ==> c * p > 0) by (nonlinear_arith)
        requires
            p >= 1,
    ;
    assert(c < 0 ==> c * p < 0) by (nonlinear_arith)
        requires
            p >= 1,
    ;
    assert((-c) * p == -(c * p)) by (nonlinear_arith);
}

/// The sign of `a × 10^ae - b × 10^be`.
fn magnitude_order(a: &Vec<u8>, ae: i32, b: &Vec<u8>, be: i32) -> (r: i8)
    requires
        is_decimal(a@),
        is_decimal(b@),
    ensures
        -1 <= r <= 1,
        ({
            let e = if ae <= be {
                ae as int
            } else {
                be as int
            };
            let x = natural(a@) * pow10((ae - e) as nat);
            let y = natural(b@) * pow10((be - e) as nat);
            &&& (r == -1 <==> x < y)
            &&& (r == 0 <==> x == y)
            &&& (r == 1 <==> x > y)
        }),
{
    if ae >= be {
        let shift: u64 = ((ae as i64) - (be as i64)) as u64;
        proof {
            lemma_unscaled(natural(b@) as int, (be - be) as nat);
            assert(pow10((ae - be) as nat) == pow10(shift as nat));
        }
        order_shifted(a, shift, b)
    } else {
        let shift: u64 = ((be as i64) - (ae as i64)) as u64;
        proof {
            lemma_unscaled(natural(a@) as int, (ae - ae) as nat);
            assert(pow10((be - ae) as nat) == pow10(shift as nat));
        }
        let s: i8 = order_shifted(b, shift, a);
        if s == -1 {
            1
        } else if s == 1 {
            -1
        } else {
            0
        }
    }
}

/// The digits of `text` from `from` on, taken in behind a number already
/// read: where the run ends, the number read, and whether it still fits.
struct Run {
    end: usize,
    value: u128,
    fits: bool,
}

/// Reads the run of digits of `text` that begins at `from`, behind the
/// digits `before` that wrote `start`. The number read is kept as long as it
/// stays within `cap`.
fn read_digits(text: &str, from: usize, start: u128, fits: bool, cap: u128, Ghost(before): Ghost<
    Seq<char>,
>) -> (r: Run)
    requires
        from <= text@.len(),
        cap <= 0xffff_ffff_ffff_ffff_ffff_ffff_ffff,
        fits ==> start == decimal(before) && start <= cap,
        !fits ==> decimal(before) > cap,
    ensures
        r.end == digits_end(text@, from as int),
        from <= r.end <= text@.len(),
        forall|j: int| from <= j < r.end ==> is_digit(#[trigger] text@[j]),
        r.fits ==> r.value == decimal(before + text@.subrange(from as int, r.end as int))
            && r.value <= cap,
        !r.fits ==> decimal(before + text@.subrange(from as int, r.end as int)) > cap,
{
    let n: usize = text.unicode_len();
    let mut i: usize = from;
    let mut value: u128 = start;
    let mut ok: bool = fits;
    assert(before + text@.subrange(from as int, from as int) =~= before);
    while i < n && text.get_char(i) >= '0' && text.get_char(i) <= '9'
        invariant
            from <= i <= n == text@.len(),
            cap <= 0xffff_ffff_ffff_ffff_ffff_ffff_ffff,
            forall|j: int| from <= j < i ==> is_digit(#[trigger] text@[j]),
            ok ==> value == decimal(before + text@.subrange(from as int, i as int)) && value
                <= cap,
            !ok ==> decimal(before + text@.subrange(from as int, i as int)) > cap,
        decreases n - i,
    {
        let c: char = text.get_char(i);
        let digit: u128 = (c as u32 - '0' as u32) as u128;
        proof {
            let next = before + text@.subrange(from as int, i + 1);
            assert(next.drop_last() =~= before + text@.subrange(from as int, i as int));
            assert(next.last() == c);
            lemma_decimal_grows(next);
        }
        if ok && value * 10 + digit <= cap {
            value = value * 10 + digit;
        } else {
            ok = false;
        }
        i = i + 1;
    }
    proof {
        lemma_digits_run(text@, from as int, i as int);
    }
    Run { end: i, value, fits: ok }
}

/// Takes the values of the run of digits of `text` that begins at `from`
/// into `out`, and says where the run ends.
fn collect_digits(text: &str, from: usize, out: &mut Vec<u8>) -> (end: usize)
    requires
        from <= text@.len(),
        is_decimal(old(out)@),
    ensures
        end == digits_end(text@, from as int),
        from <= end <= text@.len(),
        forall|j: int| from <= j < end ==> is_digit(#[trigger] text@[j]),
        final(out)@ == old(out)@ + digit_values(text@.subrange(from as int, end as int)),
        is_decimal(final(out)@),
{
    let n: usize = text.unicode_len();
    let mut i: usize = from;
    let ghost before = out@;
    assert(before + digit_values(text@.subrange(from as int, from as int)) =~= before);
    while i < n && text.get_char(i) >= '0' && text.get_char(i) <= '9'
        invariant
            from <= i <= n == text@.len(),
            forall|j: int| from <= j < i ==> is_digit(#[trigger] text@[j]),
            out@ == before + digit_values(text@.subrange(from as int, i as int)),
            is_decimal(out@),
        decreases n - i,
    {
        let c: char = text.get_char(i);
        let value: u8 = (c as u32 - '0' as u32) as u8;
        let ghost so_far = out@;
        out.push(value);
        proof {
            assert(out@ =~= before + digit_values(text@.subrange(from as int, i + 1)));
            assert forall|j: int| 0 <= j < out@.len() implies #[trigger] out@[j] <= 9 by {
                if j < so_far.len() {
                    assert(out@[j] == so_far[j]);
                }
            }
        }
        i = i + 1;
    }
    proof {
        lemma_digits_run(text@, from as int, i as int);
    }
    i
}

impl Clone for Number {
    /// A copy that is the same number.
    fn clone(&self) -> (r: Number)
        ensures
            r@ == self@,
    {
        proof {
            use_type_invariant(self);
        }
        let digits = self.digits.clone();
        assert(digits@ =~= self.digits@);
        Number { negative: self.negative, digits, exponent: self.exponent }
    }
}

impl Number {
    #[verifier::type_invariant]
    closed spec fn digits_are_decimal(self) -> bool {
        is_decimal(self.digits@)
    }

    /// The number `n`.
    pub fn from_u64(n: u64) -> (r: Number)
        ensures
            r@ == (Decimal { coefficient: n as int, exponent: 0 }),
    {
        let mut digits: Vec<u8> = Vec::new();
        let mut rest: u64 = n;
        proof {
            assert(pow10(0) == 1);
            assert(rest * pow10(0) == rest) by (nonlinear_arith)
                requires
                    pow10(0) == 1,
            ;
        }
        while rest > 0
            invariant
                is_decimal(digits@),
                n == rest * pow10(digits@.len()) + natural(digits@),
            decreases rest,
        {
            let d: u8 = (rest % 10) as u8;
            let ghost old_digits = digits@;
            let ghost old_rest = rest;
            digits.insert(0, d);
            rest = rest / 10;
            proof {
                assert(digits@ =~= seq![d] + old_digits);
                lemma_natural_concat(seq![d], old_digits);
                assert(seq![d].drop_last() =~= Seq::<u8>::empty());
                assert(natural(seq![d].drop_last()) == 0);
                assert(natural(seq![d]) == d);
                let p = pow10(old_digits.len());
                assert(pow10(digits@.len()) == 10 * p);
                assert(old_rest == rest * 10 + d);
                assert(rest * (10 * p) + (d * p + natural(old_digits)) == (rest * 10 + d) * p
                    + natural(old_digits)) by (nonlinear_arith);
                assert forall|j: int| 0 <= j < digits@.len() implies #[trigger] digits@[j] <= 9 by {
                    if j > 0 {
                        assert(digits@[j] == old_digits[j - 1]);
                    }
                }
            }
        }
        assert(0 * pow10(digits@.len()) == 0);
        Number { negative: false, digits, exponent: 0 }
    }

    /// The number `n`.
    pub fn from_i64(n: i64) -> (r: Number)
        ensures
            r@ == (Decimal { coefficient: n as int, exponent: 0 }),
    {
        if n < 0 {
            let below: u64 = (-(n + 1)) as u64;
            let positive = Number::from_u64(below + 1);
            proof {
                use_type_invariant(&positive);
            }
            Number { negative: true, digits: positive.digits, exponent: 0 }
        } else {
            Number::from_u64(n as u64)
        }
    }

    /// Whether the number is below zero.
    pub fn is_negative(&self) -> (r: bool)
        ensures
            r == (self@.coefficient < 0),
    {
        self.negative && !is_zero(&self.digits)
    }

    /// Whether the number is above zero.
    pub fn is_positive(&self) -> (r: bool)
        ensures
            r == (self@.coefficient > 0),
    {
        !self.negative && !is_zero(&self.digits)
    }

    /// The sign of `self - other`: `-1`, `0` or `1`.
    pub fn order(&self, other: &Number) -> (r: i8)
        ensures
            -1 <= r <= 1,
            r == -1 <==> self@.lt(other@),
            r == 0 <==> self@.same(other@),
            r <= 0 <==> self@.le(other@),
    {
        let ghost e = self@.unit(other@);
        proof {
            use_type_invariant(self);
            use_type_invariant(other);
            lemma_pow10_positive((self@.exponent - e) as nat);
            lemma_pow10_positive((other@.exponent - e) as nat);
            lemma_scale_sign(self@.coefficient, pow10((self@.exponent - e) as nat));
            lemma_scale_sign(other@.coefficient, pow10((other@.exponent - e) as nat));
        }
        let below_self: bool = self.is_negative();
        let below_other: bool = other.is_negative();
        if below_self {
            if below_other {
                magnitude_order(&other.digits, other.exponent, &self.digits, self.exponent)
            } else {
                -1
            }
        } else if below_other {
            1
        } else {
            magnitude_order(&self.digits, self.exponent, &other.digits, other.exponent)
        }
    }

    /// Whether `self < other`.
    pub fn lt(&self, other: &Number) -> (r: bool)
        ensures
            r == self@.lt(other@),
    {
        self.order(other) == -1
    }

    /// Whether `self <= other`.
    pub fn le(&self, other: &Number) -> (r: bool)
        ensures
            r == self@.le(other@),
    {
        self.order(other) <= 0
    }

    /// Whether the two are the same number.
    pub fn same(&self, other: &Number) -> (r: bool)
        ensures
            r == self@.same(other@),
    {
        self.order(other) == 0
    }

    /// Whether the number has no fractional part.
    pub fn is_integer(&self) -> (r: bool)
        ensures
            r == self@.is_integer(),
    {
        proof {
            use_type_invariant(self);
        }
        if self.exponent >= 0 {
            true
        } else {
            let places: u64 = (-(self.exponent as i64)) as u64;
            ends_in_zeros(&self.digits, places)
        }
    }

    /// Whether `self` is an integer multiple of `divisor`; never so for a
    /// divisor that is zero.
    pub fn is_multiple_of(&self, divisor: &Number) -> (r: bool)
        ensures
            r == self@.is_multiple_of(divisor@),
    {
        let ghost e = self@.unit(divisor@);
        let ghost a = natural(self.digits@);
        let ghost d = natural(divisor.digits@);
        proof {
            use_type_invariant(self);
            use_type_invariant(divisor);
            lemma_pow10_positive((self@.exponent - e) as nat);
            lemma_pow10_positive((divisor@.exponent - e) as nat);
            lemma_scale_sign(self@.coefficient, pow10((self@.exponent - e) as nat));
            lemma_scale_sign(divisor@.coefficient, pow10((divisor@.exponent - e) as nat));
            assert(magnitude(self@.coefficient) == a);
            assert(magnitude(divisor@.coefficient) == d);
        }
        let n: usize = self.digits.len();
        if is_zero(&divisor.digits) {
            assert(magnitude(divisor@.scaled(e)) == 0);
            return false;
        }
        assert(self.digits@.subrange(0, n as int) =~= self.digits@);
        if self.exponent >= divisor.exponent {
            let shift: u64 = ((self.exponent as i64) - (divisor.exponent as i64)) as u64;
            proof {
                lemma_unscaled(d as int, (divisor@.exponent - e) as nat);
                assert(pow10((self@.exponent - e) as nat) == pow10(shift as nat));
            }
            divides(&self.digits, n, shift, &divisor.digits)
        } else {
            let shift: u64 = ((divisor.exponent as i64) - (self.exponent as i64)) as u64;
            let ghost p = pow10(shift as nat);
            proof {
                lemma_unscaled(a as int, (self@.exponent - e) as nat);
                assert(pow10((divisor@.exponent - e) as nat) == p);
                lemma_pow10_positive(shift as nat);
                assert(magnitude(divisor@.scaled(e)) == d * p);
                assert(magnitude(self@.scaled(e)) == a);
                assert(p * d == d * p) by (nonlinear_arith);
            }
            if !ends_in_zeros(&self.digits, shift) {
                proof {
                    lemma_mod_mod(a as int, p as int, d as int);
                    if (a as int) % ((p * d) as int) == 0 {
                        lemma_small_mod(0, p);
                    }
                }
                return false;
            }
            if shift >= n as u64 {
                proof {
                    lemma_natural_below(self.digits@);
                    lemma_pow10_monotonic(n as nat, shift as nat);
                    lemma_small_mod(a, p);
                    assert(d * p >= 1) by (nonlinear_arith)
                        requires
                            d >= 1,
                            p >= 1,
                    ;
                    lemma_small_mod(0, (d * p) as nat);
                }
                return true;
            }
            let count: usize = n - shift as usize;
            let ghost front = self.digits@.subrange(0, count as int);
            let ghost back = self.digits@.subrange(count as int, n as int);
            proof {
                assert(front + back =~= self.digits@);
                lemma_natural_concat(front, back);
                assert(is_decimal(back)) by {
                    assert forall|i: int| 0 <= i < back.len() implies #[trigger] back[i] <= 9 by {
                        assert(back[i] == self.digits@[count + i]);
                    }
                }
                lemma_natural_below(back);
                lemma_fundamental_div_mod_converse(
                    a as int,
                    p as int,
                    natural(front) as int,
                    natural(back) as int,
                );
                assert(natural(back) == 0);
                assert(a == natural(front) * p);
                lemma_truncate_middle(natural(front) as int, p as int, d as int);
                assert(natural(front) * p == p * natural(front)) by (nonlinear_arith);
                lemma_unscaled(natural(front) as int, 0);
                assert(p * ((natural(front) as int) % (d as int)) == 0 <==> (natural(front) as int)
                    % (d as int) == 0) by (nonlinear_arith)
                    requires
                        p >= 1,
                ;
            }
            divides(&self.digits, count, 0, &divisor.digits)
        }
    }

    /// The number that the JSON number literal `text` writes, where its
    /// exponent is within 32 bits.
    pub fn parse(text: &str) -> (r: Option<Number>)
        ensures
            match r {
                Some(n) => literal(text@) == Some(n@),
                None => literal(text@) is None || !fits(literal(text@)->0),
            },
    {
        let n: usize = text.unicode_len();
        let negative: bool = n > 0 && text.get_char(0) == '-';
        let start: usize = if negative {
            1
        } else {
            0
        };
        let mut digits: Vec<u8> = Vec::new();
        let whole_end: usize = collect_digits(text, start, &mut digits);
        let ghost whole_chars = text@.subrange(start as int, whole_end as int);
        proof {
            assert(digits@ =~= digit_values(whole_chars));
        }
        if whole_end == start || (whole_end > start + 1 && text.get_char(start) == '0') {
            return None;
        }
        let fraction: bool = whole_end < n && text.get_char(whole_end) == '.';
        let fraction_end: usize = if fraction {
            collect_digits(text, whole_end + 1, &mut digits)
        } else {
            whole_end
        };
        let ghost fraction_chars = if fraction {
            text@.subrange(whole_end + 1, fraction_end as int)
        } else {
            Seq::<char>::empty()
        };
        proof {
            assert(digits@ =~= digit_values(whole_chars + fraction_chars));
            assert forall|i: int| 0 <= i < (whole_chars + fraction_chars).len() implies is_digit(
                #[trigger] (whole_chars + fraction_chars)[i],
            ) by {
                if i < whole_chars.len() {
                    assert(is_digit(text@[start + i]));
                } else {
                    assert(is_digit(text@[whole_end + 1 + (i - whole_chars.len())]));
                }
            }
            lemma_digit_values(whole_chars + fraction_chars);
        }
        if fraction && fraction_end == whole_end + 1 {
            return None;
        }
        let places: usize = if fraction {
            fraction_end - (whole_end + 1)
        } else {
            0
        };
        let scaled: bool = fraction_end < n && (text.get_char(fraction_end) == 'e' || text.get_char(
            fraction_end,
        ) == 'E');
        let mut power_negative: bool = false;
        let mut written: u128 = 0;
        let mut written_fits: bool = true;
        let mut end: usize = fraction_end;
        if scaled {
            let sign_at: usize = fraction_end + 1;
            let signed: bool = sign_at < n && (text.get_char(sign_at) == '-' || text.get_char(
                sign_at,
            ) == '+');
            let from: usize = if signed {
                sign_at + 1
            } else {
                sign_at
            };
            power_negative = signed && text.get_char(sign_at) == '-';
            let power = read_digits(
                text,
                from,
                0,
                true,
                1_000_000_000_000_000_000_000_000_000_000,
                Ghost(Seq::empty()),
            );
            proof {
                assert(decimal(Seq::<char>::empty()) == 0);
                assert(Seq::<char>::empty() + text@.subrange(from as int, power.end as int)
                    =~= text@.subrange(from as int, power.end as int));
            }
            if power.end == from {
                return None;
            }
            written = power.value;
            written_fits = power.fits;
            end = power.end;
        }
        if end != n {
            return None;
        }
        if !written_fits {
            return None;
        }
        let signed_power: i128 = if power_negative {
            -(written as i128)
        } else {
            written as i128
        };
        let exponent: i128 = signed_power - (places as i128);
        if exponent < -2147483648 || exponent > 2147483647 {
            return None;
        }
        Some(Number { negative, digits, exponent: exponent as i32 })
    }
}

} // verus!
