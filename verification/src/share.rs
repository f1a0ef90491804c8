//! Shares of a quantity in binary floating point: numbers with a significand of 53 bits,
//! where every operation rounds to the nearest such number, ties to the even one.
use vstd::arithmetic::power2::{
    lemma2_to64, lemma2_to64_rest, lemma_pow2_adds, lemma_pow2_pos, lemma_pow2_strictly_increases,
    lemma_pow2_unfold, pow2,
};
use vstd::prelude::*;

verus! {

/// The least significand of a number that is not zero.
pub const LOW: u64 = 0x10_0000_0000_0000;

/// The least number that is too large for a significand.
pub const HIGH: u64 = 0x20_0000_0000_0000;

/// The number `mantissa * 2^exponent`.
pub struct Dyadic {
    pub mantissa: nat,
    pub exponent: int,
}

/// The integer nearest to `n / d`, the even one of two.
pub open spec fn nearest(n: nat, d: nat) -> nat {
    let q = n / d;
    let r = n % d;
    if 2 * r < d || (2 * r == d && q % 2 == 0) {
        q
    } else {
        q + 1
    }
}

/// The number nearest to `n / d * 2^e`, where the quotient has the length of a significand.
pub open spec fn settled(n: nat, d: nat, e: int) -> Dyadic {
    if nearest(n, d) == HIGH {
        Dyadic { mantissa: LOW as nat, exponent: e + 1 }
    } else {
        Dyadic { mantissa: nearest(n, d), exponent: e }
    }
}

/// The number nearest to `n / d * 2^e`, where the quotient is not too long.
pub open spec fn scaled_up(n: nat, d: nat, e: int) -> Dyadic
    decreases
            if n < d * LOW {
                d * LOW - n
            } else {
                0
            },
{
    if n == 0 || n >= d * LOW {
        settled(n, d, e)
    } else {
        scaled_up(2 * n, d, e - 1)
    }
}

/// The number nearest to `n / d * 2^e`, where that is not zero.
pub open spec fn scaled(n: nat, d: nat, e: int) -> Dyadic
    decreases
            if n > d {
                n - d
            } else {
                0
            },
{
    if d == 0 || n < d * HIGH {
        scaled_up(n, d, e)
    } else {
        scaled(n, 2 * d, e + 1)
    }
}

/// The number nearest to `n / d * 2^e`.
pub open spec fn rounded(n: nat, d: nat, e: int) -> Dyadic {
    if n == 0 {
        Dyadic { mantissa: 0, exponent: 0 }
    } else {
        scaled(n, d, e)
    }
}

/// The number nearest to an integer.
pub open spec fn binary(n: nat) -> Dyadic {
    rounded(n, 1, 0)
}

/// The number nearest to a product.
pub open spec fn product(a: Dyadic, b: Dyadic) -> Dyadic {
    rounded(a.mantissa * b.mantissa, 1, a.exponent + b.exponent)
}

/// The number nearest to a quotient.
pub open spec fn quotient(a: Dyadic, b: Dyadic) -> Dyadic {
    rounded(a.mantissa, b.mantissa, a.exponent - b.exponent)
}

/// What falls to a part of weight `weight` when `amount` is divided by weight: the product
/// of the two by the total weight, rounded at each step.
pub open spec fn share(amount: nat, weight: nat, total: nat) -> Dyadic {
    quotient(product(binary(amount), binary(weight)), binary(total))
}

/// The integer part.
pub open spec fn floor(x: Dyadic) -> nat {
    if x.exponent >= 0 {
        x.mantissa * pow2(x.exponent as nat)
    } else {
        x.mantissa / pow2((-x.exponent) as nat)
    }
}

/// The part after the point: a numerator, and the power of two that is the denominator.
pub open spec fn fraction(x: Dyadic) -> (nat, nat) {
    if x.exponent >= 0 {
        (0, 0)
    } else {
        (x.mantissa % pow2((-x.exponent) as nat), (-x.exponent) as nat)
    }
}

/// Whether one fraction is at most another.
pub open spec fn at_most(a: (nat, nat), b: (nat, nat)) -> bool {
    a.0 * pow2(b.1) <= b.0 * pow2(a.1)
}

/// A number with a significand of at most 53 bits.
#[derive(Debug, Clone, Copy)]
pub struct Binary {
    pub mantissa: u64,
    pub exponent: i128,
}

impl View for Binary {
    type V = Dyadic;

    open spec fn view(&self) -> Dyadic {
        Dyadic { mantissa: self.mantissa as nat, exponent: self.exponent as int }
    }
}

/// Zero has exponent zero, and any other number a full significand.
pub open spec fn normal(x: Dyadic) -> bool {
    if x.mantissa == 0 {
        x.exponent == 0
    } else {
        LOW <= x.mantissa < HIGH
    }
}

/// A quotient that is long enough for a significand, and not too long, gives one.
proof fn lemma_settled(n: nat, d: nat)
    requires
        0 < d,
        d * LOW <= n < d * HIGH,
    ensures
        LOW <= n / d < HIGH,
        LOW <= nearest(n, d) <= HIGH,
{
    assert(LOW <= n / d < HIGH) by (nonlinear_arith)
        requires
            0 < d,
            d * LOW <= n < d * HIGH,
    ;
}

/// More than rounding changes an exponent by.
pub const SPAN: i128 = 0x1_0000_0000_0000_0000_0000_0000_0000;

/// Rounds `n / d * 2^e`.
fn round(n: u128, d: u64, e: i128) -> (r: Binary)
    requires
        0 < d < HIGH,
        -4 * SPAN <= e <= 4 * SPAN,
    ensures
        r@ == rounded(n as nat, d as nat, e as int),
        normal(r@),
        r.exponent == 0 || e - SPAN <= r.exponent <= e + SPAN,
{
    if n == 0 {
        return Binary { mantissa: 0, exponent: 0 };
    }
    let mut den: u128 = d as u128;
    let mut exp: i128 = e;
    while n / (HIGH as u128) >= den
        invariant
            0 < d < HIGH,
            d <= den <= 0x1000_0000_0000_0000_0000,
            -4 * SPAN <= e <= exp <= e + den,
            e <= 4 * SPAN,
            den == d || n >= den * LOW,
            scaled(n as nat, d as nat, e as int) == scaled(n as nat, den as nat, exp as int),
        decreases n - den,
    {
        den = 2 * den;
        exp = exp + 1;
    }
    assert(n < den * HIGH) by (nonlinear_arith)
        requires
            n / (HIGH as u128) < den,
    ;
    let mut num: u128 = n;
    while num / (LOW as u128) < den
        invariant
            0 < d < HIGH,
            0 < num,
            d <= den <= 0x1000_0000_0000_0000_0000,
            -4 * SPAN <= e <= 4 * SPAN,
            exp <= e + den,
            exp >= e || (num < 0x800_0000_0000_0000_0000_0000_0000 && exp >= e - num),
            den == d || num >= den * LOW,
            num < den * HIGH,
            scaled(n as nat, d as nat, e as int) == scaled_up(num as nat, den as nat, exp as int),
        decreases den * HIGH - num,
    {
        num = 2 * num;
        exp = exp - 1;
    }
    proof {
        lemma_settled(num as nat, den as nat);
    }
    let q: u128 = num / den;
    let r: u128 = num % den;
    let m: u64 = if 2 * r < den || (2 * r == den && q % 2 == 0) {
        q as u64
    } else {
        (q + 1) as u64
    };
    assert(m == nearest(num as nat, den as nat));
    if m == HIGH {
        Binary { mantissa: LOW, exponent: exp + 1 }
    } else {
        Binary { mantissa: m, exponent: exp }
    }
}

/// What falls to a part of weight `weight` when `amount` is divided by weight.
pub fn share_of(amount: u64, weight: u64, total: u128) -> (r: Binary)
    requires
        0 < total,
    ensures
        r@ == share(amount as nat, weight as nat, total as nat),
        normal(r@),
        r.exponent > i128::MIN,
{
    let a = round(amount as u128, 1, 0);
    let w = round(weight as u128, 1, 0);
    let t = round(total, 1, 0);
    proof {
        lemma_not_zero(total as nat);
    }
    assert(a.mantissa * w.mantissa < HIGH * HIGH) by (nonlinear_arith)
        requires
            0 <= a.mantissa < HIGH,
            0 <= w.mantissa < HIGH,
    ;
    let p = round(a.mantissa as u128 * w.mantissa as u128, 1, a.exponent + w.exponent);
    round(p.mantissa as u128, t.mantissa, p.exponent - t.exponent)
}

/// A number other than zero is not rounded to zero.
proof fn lemma_not_zero(n: nat)
    requires
        n > 0,
    ensures
        binary(n).mantissa >= LOW,
{
    lemma_scaled_long(n, 1, 0);
}

proof fn lemma_scaled_long(n: nat, d: nat, e: int)
    requires
        0 < n,
        0 < d,
    ensures
        scaled(n, d, e).mantissa >= LOW,
    decreases
            if n > d {
                n - d
            } else {
                0
            },
{
    if n < d * HIGH {
        lemma_scaled_up_long(n, d, e);
    } else {
        lemma_scaled_long(n, 2 * d, e + 1);
    }
}

proof fn lemma_scaled_up_long(n: nat, d: nat, e: int)
    requires
        0 < d,
        0 < n < d * HIGH,
    ensures
        scaled_up(n, d, e).mantissa >= LOW,
    decreases
            if n < d * LOW {
                d * LOW - n
            } else {
                0
            },
{
    if n >= d * LOW {
        lemma_settled(n, d);
    } else {
        lemma_scaled_up_long(2 * n, d, e - 1);
    }
}

/// A power of two.
fn power(k: u32) -> (r: u128)
    requires
        k <= 64,
    ensures
        r == pow2(k as nat),
        0 < r <= 0x1_0000_0000_0000_0000,
{
    let mut r: u128 = 1;
    let mut i: u32 = 0;
    proof {
        lemma2_to64();
    }
    while i < k
        invariant
            i <= k <= 64,
            r == pow2(i as nat),
            pow2(64) == 0x1_0000_0000_0000_0000,
            0 < r <= 0x1_0000_0000_0000_0000,
        decreases k - i,
    {
        proof {
            lemma_pow2_unfold((i + 1) as nat);
            if i + 1 < 64 {
                lemma_pow2_strictly_increases((i + 1) as nat, 64);
            }
        }
        r = 2 * r;
        i = i + 1;
    }
    r
}

/// A significand is less than a large enough power of two.
proof fn lemma_high(k: nat)
    requires
        k >= 53,
    ensures
        pow2(k) >= HIGH,
{
    lemma2_to64_rest();
    if k > 53 {
        lemma_pow2_strictly_increases(53, k);
    }
}

/// The part after the point of a number: `numerator / 2^shift`.
#[derive(Debug, Clone, Copy)]
pub struct Part {
    pub numerator: u64,
    pub shift: u128,
}

impl View for Part {
    type V = (nat, nat);

    open spec fn view(&self) -> (nat, nat) {
        (self.numerator as nat, self.shift as nat)
    }
}

/// The lesser of two numbers.
pub open spec fn lesser(a: nat, b: nat) -> nat {
    if a <= b {
        a
    } else {
        b
    }
}

impl Binary {
    /// The integer part, or `cap` where that is less.
    pub fn floor_up_to(&self, cap: usize) -> (r: usize)
        requires
            normal(self@),
        ensures
            r == lesser(floor(self@), cap as nat),
    {
        let m: u64 = self.mantissa;
        if self.exponent >= 64 {
            proof {
                lemma2_to64();
                if self.exponent > 64 {
                    lemma_pow2_strictly_increases(64, self.exponent as nat);
                }
                assert(m * pow2(self.exponent as nat) >= pow2(self.exponent as nat))
                    by (nonlinear_arith)
                    requires
                        m >= 1,
                ;
            }
            return cap;
        }
        let whole: u128 = if self.exponent >= 0 {
            let p: u128 = power(self.exponent as u32);
            assert(m * p <= HIGH * 0x1_0000_0000_0000_0000) by (nonlinear_arith)
                requires
                    0 <= m <= HIGH,
                    0 <= p <= 0x1_0000_0000_0000_0000,
            ;
            m as u128 * p
        } else if self.exponent <= -53 {
            proof {
                lemma_high((-self.exponent) as nat);
                assert(m as nat / pow2((-self.exponent) as nat) == 0) by (nonlinear_arith)
                    requires
                        0 <= m < pow2((-self.exponent) as nat),
                ;
            }
            0
        } else {
            m as u128 / power((-self.exponent) as u32)
        };
        if whole <= cap as u128 {
            whole as usize
        } else {
            cap
        }
    }

    /// The part after the point.
    pub fn fraction(&self) -> (r: Part)
        requires
            normal(self@),
            self.exponent > i128::MIN,
        ensures
            r@ == fraction(self@),
            r.numerator < HIGH,
    {
        let m: u64 = self.mantissa;
        if self.exponent >= 0 {
            Part { numerator: 0, shift: 0 }
        } else if self.exponent <= -53 {
            proof {
                lemma_high((-self.exponent) as nat);
                assert(m as nat % pow2((-self.exponent) as nat) == m) by (nonlinear_arith)
                    requires
                        0 <= m < pow2((-self.exponent) as nat),
                ;
            }
            Part { numerator: m, shift: (-self.exponent) as u128 }
        } else {
            let p: u128 = power((-self.exponent) as u32);
            let n: u128 = m as u128 % p;
            assert(n <= m) by (nonlinear_arith)
                requires
                    n == m as u128 % p,
                    p > 0,
            ;
            Part { numerator: n as u64, shift: (-self.exponent) as u128 }
        }
    }
}

/// Shifting one numerator to the denominator of the other is enough to compare.
proof fn lemma_at_most(a: nat, s: nat, b: nat, d: nat)
    ensures
        at_most((a, s), (b, s + d)) <==> a * pow2(d) <= b,
        at_most((b, s + d), (a, s)) <==> b <= a * pow2(d),
{
    lemma_pow2_adds(s, d);
    lemma_pow2_pos(s);
    let p = pow2(s) as int;
    let q = pow2(d) as int;
    assert((a * (p * q) <= b * p) <==> (a * q <= b)) by (nonlinear_arith)
        requires
            p > 0,
    ;
    assert((b * p <= a * (p * q)) <==> (b <= a * q)) by (nonlinear_arith)
        requires
            p > 0,
    ;
}

/// Whether `a * 2^d` is at most `b`, and whether it is at least `b`.
fn shifted_against(a: u64, d: u128, b: u64) -> (r: (bool, bool))
    requires
        a < HIGH,
        b < HIGH,
    ensures
        r.0 == (a * pow2(d as nat) <= b),
        r.1 == (b <= a * pow2(d as nat)),
{
    if d >= 53 {
        proof {
            lemma_high(d as nat);
            assert(a >= 1 ==> a * pow2(d as nat) >= pow2(d as nat)) by (nonlinear_arith);
        }
        if a == 0 {
            (true, b == 0)
        } else {
            (false, true)
        }
    } else {
        let p: u128 = power(d as u32);
        assert(a * p <= HIGH * 0x1_0000_0000_0000_0000) by (nonlinear_arith)
            requires
                0 <= a <= HIGH,
                0 <= p <= 0x1_0000_0000_0000_0000,
        ;
        let v: u128 = a as u128 * p;
        (v <= b as u128, b as u128 <= v)
    }
}

impl Part {
    /// Whether this fraction is at most the other.
    pub fn at_most(&self, other: &Part) -> (r: bool)
        requires
            self.numerator < HIGH,
            other.numerator < HIGH,
        ensures
            r == at_most(self@, other@),
    {
        if self.shift <= other.shift {
            let d: u128 = other.shift - self.shift;
            proof {
                lemma_at_most(
                    self.numerator as nat,
                    self.shift as nat,
                    other.numerator as nat,
                    d as nat,
                );
            }
            shifted_against(self.numerator, d, other.numerator).0
        } else {
            let d: u128 = self.shift - other.shift;
            proof {
                lemma_at_most(
                    other.numerator as nat,
                    other.shift as nat,
                    self.numerator as nat,
                    d as nat,
                );
            }
            shifted_against(other.numerator, d, self.numerator).1
        }
    }
}

// ---------------------------------------------------------------------------------------
// Accuracy
// ---------------------------------------------------------------------------------------

proof fn lemma_nearest_halved(n: nat, d: nat)
    requires
        0 < d,
    ensures
        nearest(2 * n, 2 * d) == nearest(n, d),
{
    let q = n as int / d as int;
    let r = n as int % d as int;
    assert((2 * n) as int / (2 * d) as int == q && (2 * n) as int % (2 * d) as int == 2 * r)
        by (nonlinear_arith)
        requires
            0 < d,
            q == n as int / d as int,
            r == n as int % d as int,
    {
        assert(2 * n == q * (2 * d) + 2 * r);
        assert(0 <= 2 * r < 2 * d);
        vstd::arithmetic::div_mod::lemma_fundamental_div_mod_converse(
            (2 * n) as int,
            (2 * d) as int,
            q,
            2 * r,
        );
    }
}

proof fn lemma_up_halved(n: nat, d: nat, e: int)
    requires
        0 < d,
    ensures
        scaled_up(2 * n, 2 * d, e) == scaled_up(n, d, e),
    decreases
            if n < d * LOW {
                d * LOW - n
            } else {
                0
            },
{
    if n == 0 || n >= d * LOW {
        lemma_nearest_halved(n, d);
    } else {
        lemma_up_halved(2 * n, d, e - 1);
    }
}

proof fn lemma_halved(n: nat, d: nat, e: int)
    requires
        0 < d,
    ensures
        scaled(2 * n, 2 * d, e) == scaled(n, d, e),
    decreases
            if n > d {
                n - d
            } else {
                0
            },
{
    if n < d * HIGH {
        lemma_up_halved(n, d, e);
    } else {
        lemma_halved(n, 2 * d, e + 1);
    }
}

proof fn lemma_numerator_doubled(n: nat, d: nat, e: int)
    requires
        0 < n,
        0 < d,
    ensures
        scaled(2 * n, d, e - 1) == scaled(n, d, e),
{
    if n >= d * LOW {
        lemma_halved(n, d, e);
    }
}

/// Shifting the numerator and the exponent against each other changes nothing.
proof fn lemma_numerator_shifted(n: nat, d: nat, e: int, k: nat)
    requires
        0 < n,
        0 < d,
    ensures
        scaled(n * pow2(k), d, e - k) == scaled(n, d, e),
    decreases k,
{
    if k == 0 {
        lemma2_to64();
        assert(n * pow2(k) == n);
    } else {
        lemma_numerator_shifted(n, d, e, (k - 1) as nat);
        lemma_pow2_unfold(k);
        lemma_pow2_pos((k - 1) as nat);
        let p = pow2((k - 1) as nat);
        assert(n * (2 * p) == 2 * (n * p)) by (nonlinear_arith);
        assert(n * p > 0) by (nonlinear_arith)
            requires
                n > 0,
                p > 0,
        ;
        lemma_numerator_doubled(n * p, d, e - (k - 1));
    }
}

/// Shifting the denominator and the exponent together changes nothing.
proof fn lemma_denominator_shifted(n: nat, d: nat, e: int, k: nat)
    requires
        0 < n,
        0 < d,
    ensures
        scaled(n, d * pow2(k), e + k) == scaled(n, d, e),
    decreases k,
{
    if k == 0 {
        lemma2_to64();
        assert(d * pow2(k) == d);
    } else {
        lemma_denominator_shifted(n, d, e, (k - 1) as nat);
        lemma_pow2_unfold(k);
        lemma_pow2_pos((k - 1) as nat);
        let p = pow2((k - 1) as nat);
        assert(d * (2 * p) == 2 * (d * p)) by (nonlinear_arith);
        assert(d * p > 0) by (nonlinear_arith)
            requires
                d > 0,
                p > 0,
        ;
        lemma_halved(n, d * p, e + k - 1);
        lemma_numerator_doubled(n, 2 * (d * p), e + k);
    }
}

/// Scaling up doubles the numerator some number of times.
proof fn lemma_scaled_up_steps(n: nat, d: nat, e: int) -> (k: nat)
    requires
        0 < d,
        0 < n < d * HIGH,
    ensures
        d * LOW <= n * pow2(k) < d * HIGH,
        scaled_up(n, d, e) == settled(n * pow2(k), d, e - k),
    decreases
            if n < d * LOW {
                d * LOW - n
            } else {
                0
            },
{
    if n >= d * LOW {
        lemma2_to64();
        assert(n * pow2(0) == n);
        0
    } else {
        let k = lemma_scaled_up_steps(2 * n, d, e - 1);
        lemma_pow2_unfold(k + 1);
        assert(n * (2 * pow2(k)) == (2 * n) * pow2(k)) by (nonlinear_arith);
        k + 1
    }
}

/// A number that a significand can hold is held exactly.
proof fn lemma_binary_exact(n: nat) -> (k: nat)
    requires
        0 < n < HIGH,
    ensures
        binary(n).mantissa == n * pow2(k),
        binary(n).exponent == -k,
        n * pow2(k) > 0,
{
    let k = lemma_scaled_up_steps(n, 1, 0);
    assert(nearest(n * pow2(k), 1) == n * pow2(k));
    k
}

/// A quotient that is too long for a significand is scaled down.
proof fn lemma_scaled_down(n: nat, d: nat, e: int)
    requires
        0 < d,
        d * LOW <= n,
    ensures
        scaled(n, d, e).exponent >= e,
        n >= d * HIGH ==> scaled(n, d, e).exponent > e,
    decreases
            if n > d {
                n - d
            } else {
                0
            },
{
    if n >= d * HIGH {
        lemma_scaled_down(n, 2 * d, e + 1);
    }
}

/// The divisor of a share as it is rounded: a number that a significand can hold stays what it
/// is, and a greater one does not become less than the least of those.
proof fn lemma_divisor(total: nat) -> (divisor: nat)
    requires
        0 < total,
    ensures
        0 < divisor,
        total < HIGH ==> divisor == total,
        total >= HIGH ==> divisor >= HIGH,
        forall|n: nat, e: int|
            0 < n ==> #[trigger] scaled(n, binary(total).mantissa, e - binary(total).exponent)
                == scaled(n, divisor, e),
{
    let m = binary(total).mantissa;
    let x = binary(total).exponent;
    if total < HIGH {
        let k = lemma_binary_exact(total);
        assert forall|n: nat, e: int| 0 < n implies #[trigger] scaled(n, m, e - x) == scaled(
            n,
            total,
            e,
        ) by {
            lemma_denominator_shifted(n, total, e, k);
        }
        total
    } else {
        lemma_scaled_down(total, 1, 0);
        lemma_not_zero(total);
        let k = x as nat;
        let divisor = m * pow2(k);
        lemma_pow2_unfold(k);
        lemma_pow2_pos((k - 1) as nat);
        assert(divisor >= HIGH) by (nonlinear_arith)
            requires
                divisor == m * (2 * pow2((k - 1) as nat)),
                m >= LOW,
                pow2((k - 1) as nat) >= 1,
                HIGH == 2 * LOW,
        ;
        assert forall|n: nat, e: int| 0 < n implies #[trigger] scaled(n, m, e - x) == scaled(
            n,
            divisor,
            e,
        ) by {
            lemma_denominator_shifted(n, m, e - x, k);
        }
        divisor
    }
}

/// A share whose factors are exact is rounded once after its divisor is.
proof fn lemma_share_rounds_once(amount: nat, weight: nat, total: nat) -> (divisor: nat)
    requires
        0 < amount,
        0 < weight,
        0 < total,
        amount * weight < HIGH,
    ensures
        0 < divisor,
        total < HIGH ==> divisor == total,
        total >= HIGH ==> divisor >= HIGH,
        share(amount, weight, total) == scaled(amount * weight, divisor, 0),
{
    let n = amount * weight;
    assert(amount <= n && weight <= n && 0 < n) by (nonlinear_arith)
        requires
            0 < amount,
            0 < weight,
            n == amount * weight,
    ;
    let i = lemma_binary_exact(amount);
    let j = lemma_binary_exact(weight);
    let x = lemma_binary_exact(n);
    assert((amount * pow2(i)) * (weight * pow2(j)) == n * (pow2(i) * pow2(j)))
        by (nonlinear_arith)
        requires
            n == amount * weight,
    ;
    lemma_pow2_adds(i, j);
    lemma_numerator_shifted(n, 1, 0, i + j);
    assert((amount * pow2(i)) * (weight * pow2(j)) > 0) by (nonlinear_arith)
        requires
            amount * pow2(i) > 0,
            weight * pow2(j) > 0,
    ;
    assert(product(binary(amount), binary(weight)) == binary(n));
    let divisor = lemma_divisor(total);
    lemma_not_zero(total);
    let y = binary(total);
    lemma_numerator_shifted(n, y.mantissa, -y.exponent, x);
    assert(scaled(n, y.mantissa, 0 - y.exponent) == scaled(n, divisor, 0));
    divisor
}

/// Rounding a quotient of small numbers does not reach the next integer.
proof fn lemma_floor_of_rounded(n: nat, t: nat)
    requires
        0 < n < HIGH,
        0 < t,
    ensures
        floor(scaled(n, t, 0)) == n / t,
{
    assert(n < t * HIGH) by (nonlinear_arith)
        requires
            n < HIGH,
            t >= 1,
    ;
    let k = lemma_scaled_up_steps(n, t, 0);
    let p = pow2(k) as int;
    lemma_pow2_pos(k);
    let big = n * pow2(k);
    let q = big as int / t as int;
    let r = big as int % t as int;
    let m = nearest(big, t) as int;
    let c = n as int / t as int;
    let s = n as int % t as int;
    vstd::arithmetic::div_mod::lemma_fundamental_div_mod(big as int, t as int);
    vstd::arithmetic::div_mod::lemma_fundamental_div_mod(n as int, t as int);
    // The integer part of the quotient, before and after rounding, is c.
    assert(c * p <= q) by (nonlinear_arith)
        requires
            big == n * p,
            n == t * c + s,
            0 <= s,
            big == t * q + r,
            0 <= r < t,
            p > 0,
    {
        assert(t * (c * p) <= big);
        assert(t * (c * p) < t * (q + 1));
    }
    assert(m < (c + 1) * p) by {
        assert(q < (c + 1) * p) by (nonlinear_arith)
            requires
                big == n * p,
                n == t * c + s,
                s < t,
                big == t * q + r,
                0 <= r,
                0 < t,
                p > 0,
        {
            assert(big < t * ((c + 1) * p));
            assert(t * q < t * ((c + 1) * p));
        }
        if m == q + 1 && q + 1 == (c + 1) * p {
            let gap = t * (c + 1) - n;
            assert(gap >= 1) by (nonlinear_arith)
                requires
                    gap == t * (c + 1) - n,
                    n == t * c + s,
                    s < t,
            ;
            assert(gap * p == t - r) by (nonlinear_arith)
                requires
                    gap == t * (c + 1) - n,
                    q + 1 == (c + 1) * p,
                    big == n * p,
                    big == t * q + r,
            {
                assert(t * (q + 1) == t * ((c + 1) * p));
                assert(t * ((c + 1) * p) == (t * (c + 1)) * p);
            }
            assert(p <= gap * p) by (nonlinear_arith)
                requires
                    gap >= 1,
                    p > 0,
            ;
            assert(2 * r >= t);
            assert(2 * p <= t);
            assert(t * LOW <= n * p);
            assert(false) by (nonlinear_arith)
                requires
                    2 * p <= t,
                    t * LOW <= n * p,
                    0 < n < HIGH,
                    HIGH == 2 * LOW,
                    p > 0,
                    LOW > 0,
            {
                assert(2 * p * LOW <= t * LOW);
                assert((2 * LOW) * p <= n * p);
            }
        }
    }
    assert(m / p == c) by (nonlinear_arith)
        requires
            c * p <= m < (c + 1) * p,
            p > 0,
    ;
    let x = settled(big, t, -(k as int));
    if m == HIGH {
        if k == 0 {
            lemma2_to64();
            assert(m == HIGH && c == HIGH);
            assert(c <= n) by (nonlinear_arith)
                requires
                    n == t * c + s,
                    0 <= s,
                    t >= 1,
                    c >= 0,
            ;
            assert(false);
        } else {
            lemma_pow2_unfold(k);
            let h = pow2((k - 1) as nat) as int;
            lemma_pow2_pos((k - 1) as nat);
            assert((2 * LOW) as int / (2 * h) == LOW as int / h) by (nonlinear_arith)
                requires
                    h > 0,
                    LOW >= 0,
            ;
            if k == 1 {
                lemma2_to64();
                assert(LOW as int / 1 == LOW);
            }
        }
    } else if k == 0 {
        lemma2_to64();
    }
}

/// A share of an amount, as long as the product of the amount and the weight fits into a
/// significand, has the integer part of the exact quotient.
pub proof fn shares_of_small_amounts_are_accurate(amount: nat, weight: nat, total: nat)
    requires
        0 < total,
        amount * weight < HIGH,
    ensures
        floor(share(amount, weight, total)) == amount * weight / total,
{
    if amount * weight == 0 {
        assert(amount == 0 || weight == 0) by (nonlinear_arith)
            requires
                amount * weight == 0,
        ;
        let a = binary(amount).mantissa;
        let w = binary(weight).mantissa;
        assert(a * w == 0) by (nonlinear_arith)
            requires
                a == 0 || w == 0,
        ;
        lemma2_to64();
        assert(0nat / total == 0) by (nonlinear_arith)
            requires
                total > 0,
        ;
    } else {
        assert(amount > 0 && weight > 0) by (nonlinear_arith)
            requires
                amount * weight > 0,
                amount >= 0,
                weight >= 0,
        ;
        let divisor = lemma_share_rounds_once(amount, weight, total);
        lemma_floor_of_rounded(amount * weight, divisor);
        if total >= HIGH {
            assert(amount * weight / total == 0) by (nonlinear_arith)
                requires
                    amount * weight < total,
            ;
            assert(amount * weight / divisor == 0) by (nonlinear_arith)
                requires
                    amount * weight < divisor,
            ;
        }
    }
}

/// A number is its whole part and the rest after the point, which is less than one.
pub proof fn numbers_are_a_whole_part_and_a_rest(x: Dyadic)
    ensures
        x.exponent < 0 ==> {
            let (rest, k) = fraction(x);
            &&& k == -x.exponent
            &&& rest < pow2(k)
            &&& floor(x) * pow2(k) + rest == x.mantissa
        },
        x.exponent >= 0 ==> floor(x) == x.mantissa * pow2(x.exponent as nat) && fraction(x).0 == 0,
{
    if x.exponent < 0 {
        let k = (-x.exponent) as nat;
        let m = x.mantissa;
        let d = pow2(k);
        lemma_pow2_pos(k);
        assert(m / d * d + m % d == m && m % d < d) by (nonlinear_arith)
            requires
                d > 0,
        ;
    }
}

/// Of two rests with the same denominator the one with the lesser numerator is the lesser, and a
/// rest written with a greater denominator is still the same.
pub proof fn rests_are_held_against_each_other(a: nat, b: nat, k: nat, more: nat)
    ensures
        at_most((a, k), (b, k)) <==> a <= b,
        at_most((a, k), (b * pow2(more), k + more)) <==> a <= b,
        at_most((a * pow2(more), k + more), (b, k)) <==> a <= b,
{
    let d = pow2(k);
    let e = pow2(more);
    lemma_pow2_pos(k);
    lemma_pow2_pos(more);
    lemma_pow2_adds(k, more);
    assert(a * d <= b * d <==> a <= b) by (nonlinear_arith)
        requires
            d > 0,
    ;
    assert(a * (d * e) <= (b * e) * d <==> a <= b) by (nonlinear_arith)
        requires
            d > 0,
            e > 0,
    ;
    assert((a * e) * d <= b * (d * e) <==> a <= b) by (nonlinear_arith)
        requires
            d > 0,
            e > 0,
    ;
}

/// Rounding a quotient gives an integer that no other is nearer to, and the even one of two that
/// are as near.
pub proof fn rounding_gives_the_nearest(n: nat, d: nat)
    requires
        d > 0,
    ensures
        ({
            let q = nearest(n, d) as int;
            &&& -(d as int) <= 2 * (n - q * d) <= d
            &&& 2 * (n - q * d) == d || 2 * (n - q * d) == -(d as int) ==> q % 2 == 0
        }),
{
    let q = (n / d) as int;
    let r = (n % d) as int;
    assert(q * d + r == n && 0 <= r < d) by (nonlinear_arith)
        requires
            q == n / d,
            r == n % d,
            d > 0,
    ;
    assert((q + 1) * d == q * d + d) by (nonlinear_arith);
}

} // verus!
