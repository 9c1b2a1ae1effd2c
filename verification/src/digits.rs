//! Natural numbers written in decimal digits, the most significant digit
//! first, with as many digits as one likes.

use vstd::prelude::*;
use vstd::arithmetic::div_mod::lemma_add_mod_noop;
use vstd::arithmetic::div_mod::lemma_mod_multiples_vanish;
use vstd::arithmetic::div_mod::lemma_mod_sub_multiples_vanish;
use vstd::arithmetic::div_mod::lemma_mul_mod_noop_left;
use vstd::arithmetic::div_mod::lemma_small_mod;
use vstd::arithmetic::mul::lemma_mul_is_associative;

verus! {

/// Ten to the power `n`.
pub open spec fn pow10(n: nat) -> nat
    decreases n,
{
    if n == 0 {
        1
    } else {
        10 * pow10((n - 1) as nat)
    }
}

/// Every one of `digits` is a decimal digit, `0` to `9`.
pub open spec fn is_decimal(digits: Seq<u8>) -> bool {
    forall|i: int| 0 <= i < digits.len() ==> #[trigger] digits[i] <= 9
}

/// The number that `digits` write.
pub open spec fn natural(digits: Seq<u8>) -> nat
    decreases digits.len(),
{
    if digits.len() == 0 {
        0
    } else {
        natural(digits.drop_last()) * 10 + digits.last() as nat
    }
}

/// `n` zeros.
pub open spec fn zeros(n: nat) -> Seq<u8> {
    Seq::new(n, |i: int| 0u8)
}

pub proof fn lemma_pow10_positive(n: nat)
    ensures
        pow10(n) >= 1,
    decreases n,
{
    if n > 0 {
        lemma_pow10_positive((n - 1) as nat);
    }
}

pub proof fn lemma_pow10_monotonic(a: nat, b: nat)
    requires
        a <= b,
    ensures
        pow10(a) <= pow10(b),
    decreases b,
{
    if a < b {
        lemma_pow10_monotonic(a, (b - 1) as nat);
    }
}

pub proof fn lemma_pow10_sum(a: nat, b: nat)
    ensures
        pow10(a + b) == pow10(a) * pow10(b),
    decreases b,
{
    if b == 0 {
        assert(pow10(a) * 1 == pow10(a));
    } else {
        lemma_pow10_sum(a, (b - 1) as nat);
        let x = pow10(a);
        let y = pow10((b - 1) as nat);
        assert(pow10(a + b) == 10 * pow10((a + b - 1) as nat));
        assert(10 * (x * y) == x * (10 * y)) by (nonlinear_arith);
    }
}

/// The digits `a` followed by the digits `b` write the number of `a`, moved
/// up by as many places as `b` has, plus the number of `b`.
pub proof fn lemma_natural_concat(a: Seq<u8>, b: Seq<u8>)
    ensures
        natural(a + b) == natural(a) * pow10(b.len()) + natural(b),
    decreases b.len(),
{
    if b.len() == 0 {
        assert(a + b =~= a);
        assert(natural(a) * 1 == natural(a));
    } else {
        let shorter = b.drop_last();
        assert((a + b).drop_last() =~= a + shorter);
        assert((a + b).last() == b.last());
        lemma_natural_concat(a, shorter);
        let x = natural(a);
        let p = pow10(shorter.len());
        let y = natural(shorter);
        let d = b.last() as nat;
        assert(pow10(b.len()) == 10 * p);
        assert((x * p + y) * 10 + d == x * (10 * p) + (y * 10 + d)) by (nonlinear_arith);
    }
}

/// A number of `n` digits is below `10^n`.
pub proof fn lemma_natural_below(digits: Seq<u8>)
    requires
        is_decimal(digits),
    ensures
        natural(digits) < pow10(digits.len()),
    decreases digits.len(),
{
    if digits.len() > 0 {
        let shorter = digits.drop_last();
        assert(is_decimal(shorter)) by {
            assert forall|i: int| 0 <= i < shorter.len() implies #[trigger] shorter[i] <= 9 by {
                assert(shorter[i] == digits[i]);
            }
        }
        lemma_natural_below(shorter);
    }
}

/// A number of `n` digits that does not begin with `0` is at least
/// `10^(n - 1)`.
pub proof fn lemma_natural_least(digits: Seq<u8>)
    requires
        digits.len() > 0,
        digits[0] != 0,
    ensures
        natural(digits) >= pow10((digits.len() - 1) as nat),
{
    let first = digits.subrange(0, 1);
    let rest = digits.subrange(1, digits.len() as int);
    assert(first + rest =~= digits);
    lemma_natural_concat(first, rest);
    assert(first.drop_last() =~= Seq::<u8>::empty());
    assert(natural(first.drop_last()) == 0);
    assert(first.last() == digits[0]);
    assert(natural(first) == digits[0]);
    lemma_pow10_positive(rest.len());
    assert(natural(first) * pow10(rest.len()) >= pow10(rest.len())) by (nonlinear_arith)
        requires
            natural(first) >= 1,
    ;
}

/// Zeros write zero, and nothing else does.
pub proof fn lemma_natural_zero(digits: Seq<u8>)
    ensures
        natural(digits) == 0 <==> (forall|i: int| 0 <= i < digits.len() ==> digits[i] == 0),
    decreases digits.len(),
{
    if digits.len() > 0 {
        let shorter = digits.drop_last();
        lemma_natural_zero(shorter);
        if natural(digits) == 0 {
            assert forall|i: int| 0 <= i < digits.len() implies digits[i] == 0 by {
                if i < shorter.len() {
                    assert(shorter[i] == digits[i]);
                }
            }
        } else {
            if forall|i: int| 0 <= i < digits.len() ==> digits[i] == 0 {
                assert forall|i: int| 0 <= i < shorter.len() implies shorter[i] == 0 by {
                    assert(shorter[i] == digits[i]);
                }
            }
        }
    }
}

/// Zeros in front change nothing.
pub proof fn lemma_natural_leading(digits: Seq<u8>, k: int)
    requires
        0 <= k <= digits.len(),
        forall|i: int| 0 <= i < k ==> digits[i] == 0,
    ensures
        natural(digits) == natural(digits.subrange(k, digits.len() as int)),
{
    let front = digits.subrange(0, k);
    let back = digits.subrange(k, digits.len() as int);
    assert(front + back =~= digits);
    lemma_natural_concat(front, back);
    lemma_natural_zero(front);
    assert(natural(front) * pow10(back.len()) == 0) by (nonlinear_arith)
        requires
            natural(front) == 0,
    ;
}

/// Of two numbers with as many digits, the one with the smaller digit where
/// they first differ is the smaller.
pub proof fn lemma_first_difference(x: Seq<u8>, y: Seq<u8>, k: int)
    requires
        is_decimal(x),
        is_decimal(y),
        x.len() == y.len(),
        0 <= k < x.len(),
        forall|j: int| 0 <= j < k ==> x[j] == y[j],
        x[k] < y[k],
    ensures
        natural(x) < natural(y),
{
    let n = x.len() as int;
    let px = x.subrange(0, k + 1);
    let py = y.subrange(0, k + 1);
    let tx = x.subrange(k + 1, n);
    let ty = y.subrange(k + 1, n);
    assert(px + tx =~= x);
    assert(py + ty =~= y);
    lemma_natural_concat(px, tx);
    lemma_natural_concat(py, ty);
    assert(px.drop_last() =~= py.drop_last());
    assert(is_decimal(tx)) by {
        assert forall|i: int| 0 <= i < tx.len() implies #[trigger] tx[i] <= 9 by {
            assert(tx[i] == x[k + 1 + i]);
        }
    }
    lemma_natural_below(tx);
    let c = natural(px.drop_last());
    let p = pow10(tx.len());
    let a = x[k] as nat;
    let b = y[k] as nat;
    assert(natural(px) == c * 10 + a);
    assert(natural(py) == c * 10 + b);
    assert((c * 10 + a) * p + natural(tx) < (c * 10 + b) * p + natural(ty)) by (nonlinear_arith)
        requires
            a < b,
            natural(tx) < p,
            natural(ty) >= 0,
    ;
}

/// Where the digits that are not leading zeros begin.
pub(crate) fn leading_zeros(digits: &Vec<u8>) -> (r: usize)
    ensures
        r <= digits@.len(),
        forall|i: int| 0 <= i < r ==> digits@[i] == 0,
        r < digits@.len() ==> digits@[r as int] != 0,
{
    let mut i: usize = 0;
    while i < digits.len() && digits[i] == 0
        invariant
            i <= digits@.len(),
            forall|j: int| 0 <= j < i ==> digits@[j] == 0,
        decreases digits.len() - i,
    {
        i = i + 1;
    }
    i
}

/// Whether `digits` write zero.
pub(crate) fn is_zero(digits: &Vec<u8>) -> (r: bool)
    ensures
        r == (natural(digits@) == 0),
{
    proof {
        lemma_natural_zero(digits@);
    }
    leading_zeros(digits) == digits.len()
}

/// The sign of `a × 10^shift - b`: `-1`, `0` or `1`.
pub(crate) fn order_shifted(a: &Vec<u8>, shift: u64, b: &Vec<u8>) -> (r: i8)
    requires
        is_decimal(a@),
        is_decimal(b@),
    ensures
        -1 <= r <= 1,
        r == -1 <==> natural(a@) * pow10(shift as nat) < natural(b@),
        r == 0 <==> natural(a@) * pow10(shift as nat) == natural(b@),
{
    let za: usize = leading_zeros(a);
    let zb: usize = leading_zeros(b);
    let la: usize = a.len() - za;
    let lb: usize = b.len() - zb;
    let ghost sa = a@.subrange(za as int, a@.len() as int);
    let ghost sb = b@.subrange(zb as int, b@.len() as int);
    proof {
        lemma_natural_leading(a@, za as int);
        lemma_natural_leading(b@, zb as int);
        lemma_pow10_positive(shift as nat);
        assert(is_decimal(sa)) by {
            assert forall|i: int| 0 <= i < sa.len() implies #[trigger] sa[i] <= 9 by {
                assert(sa[i] == a@[za + i]);
            }
        }
        assert(is_decimal(sb)) by {
            assert forall|i: int| 0 <= i < sb.len() implies #[trigger] sb[i] <= 9 by {
                assert(sb[i] == b@[zb + i]);
            }
        }
        lemma_natural_below(sa);
        lemma_natural_below(sb);
        if la > 0 {
            lemma_natural_least(sa);
            lemma_pow10_positive((la - 1) as nat);
        }
        if lb > 0 {
            lemma_natural_least(sb);
            lemma_pow10_positive((lb - 1) as nat);
        }
    }
    if la == 0 {
        assert(natural(a@) * pow10(shift as nat) == 0) by (nonlinear_arith)
            requires
                natural(a@) == 0,
        ;
        return if lb == 0 {
            0
        } else {
            -1
        };
    }
    let ghost scaled = natural(a@) * pow10(shift as nat);
    if lb == 0 {
        assert(scaled >= 1) by (nonlinear_arith)
            requires
                scaled == natural(a@) * pow10(shift as nat),
                natural(a@) >= 1,
                pow10(shift as nat) >= 1,
        ;
        return 1;
    }
    let places: u128 = la as u128 + shift as u128;
    proof {
        lemma_pow10_sum((la - 1) as nat, shift as nat);
        lemma_pow10_sum(la as nat, shift as nat);
        assert(scaled >= pow10((la - 1) as nat) * pow10(shift as nat)) by (nonlinear_arith)
            requires
                scaled == natural(a@) * pow10(shift as nat),
                natural(a@) >= pow10((la - 1) as nat),
        ;
        assert(scaled < pow10(la as nat) * pow10(shift as nat)) by (nonlinear_arith)
            requires
                scaled == natural(a@) * pow10(shift as nat),
                natural(a@) < pow10(la as nat),
                pow10(shift as nat) >= 1,
        ;
    }
    if places > lb as u128 {
        proof {
            lemma_pow10_monotonic(lb as nat, (la - 1 + shift) as nat);
        }
        return 1;
    }
    if places < lb as u128 {
        proof {
            lemma_pow10_monotonic((la + shift) as nat, (lb - 1) as nat);
        }
        return -1;
    }
    let ghost x = sa + zeros(shift as nat);
    proof {
        lemma_natural_concat(sa, zeros(shift as nat));
        lemma_natural_zero(zeros(shift as nat));
        assert(natural(x) == scaled);
        assert(is_decimal(x));
    }
    let mut k: usize = 0;
    while k < lb
        invariant
            k <= lb,
            za <= a@.len() <= usize::MAX,
            zb <= b@.len() <= usize::MAX,
            x.len() == sb.len() == lb,
            la + shift == lb,
            la == a@.len() - za,
            lb == b@.len() - zb,
            x == sa + zeros(shift as nat),
            sa == a@.subrange(za as int, a@.len() as int),
            sb == b@.subrange(zb as int, b@.len() as int),
            is_decimal(x),
            is_decimal(sb),
            natural(x) == natural(a@) * pow10(shift as nat),
            natural(sb) == natural(b@),
            forall|j: int| 0 <= j < k ==> x[j] == sb[j],
        decreases lb - k,
    {
        let da: u8 = if k < la {
            a[za + k]
        } else {
            0
        };
        let db: u8 = b[zb + k];
        assert(da == x[k as int]);
        assert(db == sb[k as int]);
        if da < db {
            proof {
                lemma_first_difference(x, sb, k as int);
            }
            return -1;
        }
        if da > db {
            proof {
                lemma_first_difference(sb, x, k as int);
            }
            return 1;
        }
        k = k + 1;
    }
    assert(x =~= sb);
    0
}

/// Whether the number that `digits` write is a multiple of `10^places`.
#[verifier::loop_isolation(false)]
pub(crate) fn ends_in_zeros(digits: &Vec<u8>, places: u64) -> (r: bool)
    requires
        is_decimal(digits@),
    ensures
        r == (natural(digits@) % pow10(places as nat) == 0),
{
    let n: usize = digits.len();
    proof {
        lemma_pow10_positive(places as nat);
        lemma_natural_below(digits@);
    }
    if places >= n as u64 {
        proof {
            lemma_pow10_monotonic(n as nat, places as nat);
            lemma_small_mod(natural(digits@), pow10(places as nat));
        }
        return is_zero(digits);
    }
    let from: usize = n - places as usize;
    let ghost front = digits@.subrange(0, from as int);
    let ghost back = digits@.subrange(from as int, n as int);
    proof {
        assert(front + back =~= digits@);
        lemma_natural_concat(front, back);
        assert(is_decimal(back)) by {
            assert forall|i: int| 0 <= i < back.len() implies #[trigger] back[i] <= 9 by {
                assert(back[i] == digits@[from + i]);
            }
        }
        lemma_natural_below(back);
        lemma_natural_zero(back);
        lemma_mod_multiples_vanish(
            natural(front) as int,
            natural(back) as int,
            pow10(places as nat) as int,
        );
        lemma_small_mod(natural(back), pow10(places as nat));
        assert(natural(front) * pow10(places as nat) == pow10(places as nat) * natural(front))
            by (nonlinear_arith);
    }
    let mut i: usize = from;
    while i < n
        invariant
            from <= i <= n == digits@.len(),
            back == digits@.subrange(from as int, n as int),
            forall|j: int| 0 <= j < i - from ==> back[j] == 0,
        decreases n - i,
    {
        if digits[i] != 0 {
            assert(back[i - from] != 0);
            return false;
        }
        i = i + 1;
    }
    true
}

/// The last `i + 1` digits write the digit in front of the last `i`, moved
/// up by `i` places, plus what the last `i` write.
pub proof fn lemma_suffix_step(s: Seq<u8>, i: int)
    requires
        0 <= i < s.len(),
    ensures
        natural(s.subrange(s.len() - i - 1, s.len() as int)) == s[s.len() - 1 - i] * pow10(i as nat)
            + natural(s.subrange(s.len() - i, s.len() as int)),
{
    let n = s.len() as int;
    let first = s.subrange(n - i - 1, n - i);
    let rest = s.subrange(n - i, n);
    assert(first + rest =~= s.subrange(n - i - 1, n));
    lemma_natural_concat(first, rest);
    assert(first.drop_last() =~= Seq::<u8>::empty());
    assert(natural(first.drop_last()) == 0);
    assert(first.last() == s[n - 1 - i]);
    assert(natural(first) == s[n - 1 - i]);
}

/// The difference of two numbers, of which the second is no larger than the
/// first.
pub(crate) fn subtract(x: &Vec<u8>, y: &Vec<u8>) -> (r: Vec<u8>)
    requires
        is_decimal(x@),
        is_decimal(y@),
        natural(y@) <= natural(x@),
    ensures
        is_decimal(r@),
        r@.len() == x@.len(),
        natural(r@) == natural(x@) - natural(y@),
{
    let n: usize = x.len();
    let m: usize = y.len();
    let mut out: Vec<u8> = x.clone();
    assert(out@ =~= x@);
    let mut borrow: u8 = 0;
    let mut i: usize = 0;
    proof {
        assert(out@.subrange(n as int, n as int) =~= Seq::<u8>::empty());
        assert(x@.subrange(n as int, n as int) =~= Seq::<u8>::empty());
        assert(y@.subrange(m as int, m as int) =~= Seq::<u8>::empty());
        assert(pow10(0) == 1);
    }
    while i < n
        invariant
            i <= n == x@.len(),
            m == y@.len(),
            out@.len() == n,
            borrow <= 1,
            is_decimal(x@),
            is_decimal(y@),
            is_decimal(out@),
            natural(out@.subrange(n - i, n as int)) + natural(
                y@.subrange(
                    if i <= m {
                        m - i
                    } else {
                        0
                    },
                    m as int,
                ),
            ) == natural(x@.subrange(n - i, n as int)) + borrow * pow10(i as nat),
        decreases n - i,
    {
        let xi: u8 = x[n - 1 - i];
        let yi: u8 = if i < m {
            y[m - 1 - i]
        } else {
            0
        };
        let need: u8 = yi + borrow;
        let ghost before = out@;
        let ghost old_borrow = borrow;
        let digit: u8 = if xi >= need {
            borrow = 0;
            xi - need
        } else {
            borrow = 1;
            xi + 10 - need
        };
        out.set(n - 1 - i, digit);
        proof {
            let p = pow10(i as nat);
            assert(out@.subrange(n - i, n as int) =~= before.subrange(n - i, n as int));
            lemma_suffix_step(out@, i as int);
            lemma_suffix_step(x@, i as int);
            if i < m {
                lemma_suffix_step(y@, i as int);
            }
            assert(pow10((i + 1) as nat) == 10 * p);
            let o_low = natural(before.subrange(n - i, n as int));
            let x_low = natural(x@.subrange(n - i, n as int));
            let y_low = natural(y@.subrange(if i <= m { m - i } else { 0 }, m as int));
            assert(digit + yi + old_borrow == xi + 10 * borrow);
            assert(digit * p + o_low + (yi * p + y_low) == xi * p + x_low + borrow * (10 * p))
                by (nonlinear_arith)
                requires
                    o_low + y_low == x_low + old_borrow * p,
                    digit + yi + old_borrow == xi + 10 * borrow,
            ;
            assert forall|j: int| 0 <= j < out@.len() implies #[trigger] out@[j] <= 9 by {
                if j != n - 1 - i {
                    assert(out@[j] == before[j]);
                }
            }
        }
        i = i + 1;
    }
    proof {
        let k: int = if n <= m {
            m - n
        } else {
            0
        };
        let high = y@.subrange(0, k);
        let low = y@.subrange(k, m as int);
        assert(out@.subrange(0, n as int) =~= out@);
        assert(x@.subrange(0, n as int) =~= x@);
        assert(high + low =~= y@);
        lemma_natural_concat(high, low);
        lemma_natural_below(out@);
        lemma_natural_below(x@);
        lemma_pow10_positive(low.len());
        let p = pow10(n as nat);
        if n <= m {
            assert(low.len() == n);
            assert(natural(high) == 0) by (nonlinear_arith)
                requires
                    natural(high) * p + natural(low) < p,
                    p >= 1,
            ;
            assert(natural(high) * p == 0) by (nonlinear_arith)
                requires
                    natural(high) == 0,
            ;
        } else {
            assert(high =~= Seq::<u8>::empty());
            assert(natural(high) * pow10(low.len()) == 0) by (nonlinear_arith)
                requires
                    natural(high) == 0,
            ;
        }
        assert(borrow * p == if borrow == 1 { p } else { 0 }) by (nonlinear_arith)
            requires
                borrow <= 1,
        ;
    }
    out
}

/// The digits without their leading zeros.
pub(crate) fn trim(digits: &Vec<u8>) -> (r: Vec<u8>)
    requires
        is_decimal(digits@),
    ensures
        is_decimal(r@),
        natural(r@) == natural(digits@),
        r@.len() == 0 || r@[0] != 0,
{
    let from: usize = leading_zeros(digits);
    let mut out: Vec<u8> = Vec::new();
    let mut i: usize = from;
    assert(digits@.subrange(from as int, from as int) =~= Seq::<u8>::empty());
    while i < digits.len()
        invariant
            from <= i <= digits@.len(),
            out@ == digits@.subrange(from as int, i as int),
        decreases digits.len() - i,
    {
        out.push(digits[i]);
        assert(out@ =~= digits@.subrange(from as int, i + 1));
        i = i + 1;
    }
    proof {
        lemma_natural_leading(digits@, from as int);
        assert forall|j: int| 0 <= j < out@.len() implies #[trigger] out@[j] <= 9 by {
            assert(out@[j] == digits@[from + j]);
        }
    }
    out
}

/// What taking in one more digit does to what is left of a division: the
/// rest, moved up one place, plus the digit, less the divisor as often as it
/// can be taken away.
pub(crate) fn take_in(rest: Vec<u8>, digit: u8, divisor: &Vec<u8>) -> (r: Vec<u8>)
    requires
        is_decimal(rest@),
        is_decimal(divisor@),
        digit <= 9,
        natural(divisor@) > 0,
    ensures
        is_decimal(r@),
        natural(r@) == ((natural(rest@) * 10 + digit) as int) % (natural(divisor@) as int),
{
    let ghost d = natural(divisor@) as int;
    let ghost target = (natural(rest@) * 10 + digit) as int;
    let mut r = rest;
    r.push(digit);
    proof {
        assert(r@.drop_last() =~= rest@);
        assert(pow10(0) == 1);
        assert forall|j: int| 0 <= j < r@.len() implies #[trigger] r@[j] <= 9 by {
            if j < rest@.len() {
                assert(r@[j] == rest@[j]);
            }
        }
    }
    while order_shifted(&r, 0, divisor) != -1
        invariant
            is_decimal(r@),
            is_decimal(divisor@),
            d == natural(divisor@),
            d > 0,
            pow10(0) == 1,
            (natural(r@) as int) % d == target % d,
        decreases natural(r@),
    {
        proof {
            assert(natural(r@) * pow10(0) == natural(r@)) by (nonlinear_arith)
                requires
                    pow10(0) == 1,
            ;
            lemma_mod_sub_multiples_vanish(natural(r@) as int, d);
        }
        r = subtract(&r, divisor);
    }
    proof {
        assert(natural(r@) * pow10(0) == natural(r@)) by (nonlinear_arith)
            requires
                pow10(0) == 1,
        ;
        lemma_small_mod(natural(r@), d as nat);
    }
    trim(&r)
}

/// Whether the number that the first `count` of `digits` write, times
/// `10^places`, is a multiple of the number that `divisor` writes.
pub(crate) fn divides(digits: &Vec<u8>, count: usize, places: u64, divisor: &Vec<u8>) -> (r: bool)
    requires
        count <= digits@.len(),
        is_decimal(digits@),
        is_decimal(divisor@),
        natural(divisor@) > 0,
    ensures
        r == (((natural(digits@.subrange(0, count as int)) * pow10(places as nat)) as int) % (
        natural(divisor@) as int) == 0),
{
    let ghost d = natural(divisor@) as int;
    let mut rest: Vec<u8> = Vec::new();
    let mut i: usize = 0;
    assert(digits@.subrange(0, 0) =~= Seq::<u8>::empty());
    proof {
        lemma_small_mod(0, d as nat);
    }
    while i < count
        invariant
            i <= count <= digits@.len(),
            is_decimal(digits@),
            is_decimal(divisor@),
            is_decimal(rest@),
            d == natural(divisor@),
            d > 0,
            natural(rest@) == (natural(digits@.subrange(0, i as int)) as int) % d,
        decreases count - i,
    {
        let digit: u8 = digits[i];
        proof {
            let next = digits@.subrange(0, i + 1);
            assert(next.drop_last() =~= digits@.subrange(0, i as int));
            assert(next.last() == digits@[i as int]);
            let x = natural(digits@.subrange(0, i as int)) as int;
            lemma_mul_mod_noop_left(x, 10, d);
            lemma_add_mod_noop(x * 10, digit as int, d);
            lemma_add_mod_noop((x % d) * 10, digit as int, d);
        }
        rest = take_in(rest, digit, divisor);
        i = i + 1;
    }
    let ghost a = natural(digits@.subrange(0, count as int)) as int;
    let mut moved: u64 = 0;
    proof {
        assert(pow10(0) == 1);
        assert(a * pow10(0) == a) by (nonlinear_arith)
            requires
                pow10(0) == 1,
        ;
    }
    while moved < places && !is_zero(&rest)
        invariant
            moved <= places,
            is_decimal(divisor@),
            is_decimal(rest@),
            d == natural(divisor@),
            d > 0,
            natural(rest@) == (a * pow10(moved as nat)) % d,
        decreases places - moved,
    {
        proof {
            let x = a * pow10(moved as nat);
            lemma_mul_mod_noop_left(x, 10, d);
            lemma_mul_is_associative(a, pow10(moved as nat) as int, 10);
            assert(a * pow10((moved + 1) as nat) == x * 10);
        }
        rest = take_in(rest, 0, divisor);
        moved = moved + 1;
    }
    let done: bool = is_zero(&rest);
    proof {
        if done && moved < places {
            lemma_multiple_stays(a, moved as nat, places as nat, d);
        }
    }
    done
}

/// A multiple of `d` stays one when it is multiplied by a further power of
/// ten.
pub proof fn lemma_multiple_stays(a: int, i: nat, k: nat, d: int)
    requires
        d > 0,
        i <= k,
        (a * pow10(i)) % d == 0,
    ensures
        (a * pow10(k)) % d == 0,
    decreases k - i,
{
    if i < k {
        let x = a * pow10(i);
        lemma_mul_mod_noop_left(x, 10, d);
        lemma_mul_is_associative(a, pow10(i) as int, 10);
        assert(a * pow10(i + 1) == x * 10);
        assert((x * 10) % d == (0int * 10) % d);
        lemma_small_mod(0, d as nat);
        lemma_multiple_stays(a, i + 1, k, d);
    }
}

} // verus!
