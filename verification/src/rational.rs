//! Exact rational arithmetic for monetary amounts.
//!
//! A `Rat` is a signed numerator over a positive denominator, both held
//! in `i128`. No rounding ever happens inside the arithmetic: each
//! operation either returns the mathematically exact result or reports
//! that it does not fit in an `i128`, so callers can surface an overflow
//! error instead of silently losing precision.

use vstd::prelude::*;

verus! {

/// An exact rational number: `num / den` with `den >= 1`.
#[derive(Clone, Copy, Debug, PartialEq, Eq, Structural)]
pub struct Rat {
    pub num: i128,
    pub den: i128,
}

/// `x` stays clear of both `i128` extremes, so it can also be negated.
pub open spec fn fits(x: int) -> bool {
    -(i128::MAX as int) <= x <= i128::MAX as int
}

/// `x` fits in an `i128`.
pub open spec fn in_i128(x: int) -> bool {
    i128::MIN as int <= x <= i128::MAX as int
}

impl Rat {
    /// Well-formed: positive denominator, numerator negatable.
    pub open spec fn wf(self) -> bool {
        self.den >= 1 && self.num > i128::MIN
    }

    /// The two rationals denote the same value.
    pub open spec fn same_value(self, other: Rat) -> bool {
        self.num * other.den == other.num * self.den
    }

    /// The value of `self` is at most the value of `other`
    /// (cross-multiplied; meaningful when both are well-formed).
    pub open spec fn le_value(self, other: Rat) -> bool {
        self.num * other.den <= other.num * self.den
    }

    /// The value of `self` is strictly below the value of `other`.
    pub open spec fn lt_value(self, other: Rat) -> bool {
        self.num * other.den < other.num * self.den
    }

    /// Every intermediate of `a + b` fits in an `i128`.
    pub open spec fn add_fits(a: Rat, b: Rat) -> bool {
        &&& fits(a.num * b.den)
        &&& fits(b.num * a.den)
        &&& fits(a.num * b.den + b.num * a.den)
        &&& fits(a.den * b.den)
    }

    /// Every intermediate of `a * b` fits in an `i128`.
    pub open spec fn mul_fits(a: Rat, b: Rat) -> bool {
        &&& fits(a.num * b.num)
        &&& fits(a.den * b.den)
    }

    /// Both cross-products of a comparison fit in an `i128`.
    pub open spec fn cmp_fits(a: Rat, b: Rat) -> bool {
        &&& in_i128(a.num * b.den)
        &&& in_i128(b.num * a.den)
    }

    /// The exact sum as a field-level construction (no reduction).
    pub open spec fn spec_add(a: Rat, b: Rat) -> Rat {
        Rat {
            num: (a.num * b.den + b.num * a.den) as i128,
            den: (a.den * b.den) as i128,
        }
    }

    /// The exact difference as a field-level construction.
    pub open spec fn spec_sub(a: Rat, b: Rat) -> Rat {
        Rat {
            num: (a.num * b.den - b.num * a.den) as i128,
            den: (a.den * b.den) as i128,
        }
    }

    /// The exact product as a field-level construction.
    pub open spec fn spec_mul(a: Rat, b: Rat) -> Rat {
        Rat {
            num: (a.num * b.num) as i128,
            den: (a.den * b.den) as i128,
        }
    }

    /// The exact quotient `a / b` (meaningful when `b.num != 0`): the
    /// reciprocal's sign is moved into the numerator so the denominator
    /// stays positive.
    pub open spec fn spec_div(a: Rat, b: Rat) -> Rat {
        if b.num >= 0 {
            Rat { num: (a.num * b.den) as i128, den: (a.den * b.num) as i128 }
        } else {
            Rat { num: (a.num * -b.den) as i128, den: (a.den * -b.num) as i128 }
        }
    }

    /// Every intermediate of `a / b` fits in an `i128`.
    pub open spec fn div_fits(a: Rat, b: Rat) -> bool {
        &&& fits(a.num * b.den)
        &&& fits(a.den * b.num)
    }

    /// The rational `n / 1`.
    pub fn from_integer(n: i64) -> (r: Rat)
        ensures
            r.wf(),
            r.num == n as int,
            r.den == 1,
    {
        Rat { num: n as i128, den: 1 }
    }

    /// The rational `mantissa / 10^scale`, as written in decimal
    /// notation; `None` when the scale is out of range.
    pub fn from_decimal(mantissa: i128, scale: u32) -> (r: Option<Rat>)
        ensures
            r matches Some(v) ==> v.wf() && v.num == mantissa && v.den == pow10(
                scale as nat,
            ),
            r is Some <==> scale <= 27 && mantissa > i128::MIN,
    {
        if scale <= 27 && mantissa > i128::MIN {
            let den = pow10_exec(scale);
            Some(Rat { num: mantissa, den })
        } else {
            None
        }
    }

    /// The rational zero.
    pub fn zero() -> (r: Rat)
        ensures
            r.wf(),
            r.num == 0,
            r.den == 1,
    {
        Rat { num: 0, den: 1 }
    }

    /// True exactly when the value is zero.
    pub fn is_zero(&self) -> (r: bool)
        ensures
            r <==> self.num == 0,
    {
        self.num == 0
    }

    /// True exactly when the value is strictly positive.
    pub fn is_positive(&self) -> (r: bool)
        ensures
            r <==> self.num > 0,
    {
        self.num > 0
    }

    /// Exact addition; `None` exactly when an intermediate overflows.
    pub fn checked_add(&self, other: &Rat) -> (r: Option<Rat>)
        requires
            self.wf(),
            other.wf(),
        ensures
            r matches Some(v) ==> v == Rat::spec_add(*self, *other) && v.wf(),
            r is Some <==> Rat::add_fits(*self, *other) && Rat::spec_add(*self, *other).num
                > i128::MIN,
    {
        let p1 = match self.num.checked_mul(other.den) {
            Some(x) => x,
            None => { return None; },
        };
        let p2 = match other.num.checked_mul(self.den) {
            Some(x) => x,
            None => { return None; },
        };
        let n = match p1.checked_add(p2) {
            Some(x) => x,
            None => { return None; },
        };
        let d = match self.den.checked_mul(other.den) {
            Some(x) => x,
            None => { return None; },
        };
        if n == i128::MIN || p1 == i128::MIN || p2 == i128::MIN {
            return None;
        }
        proof {
            assert(d >= 1) by (nonlinear_arith)
                requires
                    self.den >= 1,
                    other.den >= 1,
                    d == self.den * other.den,
            ;
        }
        Some(Rat { num: n, den: d })
    }

    /// Exact subtraction; `None` exactly when an intermediate overflows.
    pub fn checked_sub(&self, other: &Rat) -> (r: Option<Rat>)
        requires
            self.wf(),
            other.wf(),
        ensures
            r matches Some(v) ==> v == Rat::spec_sub(*self, *other) && v.wf(),
            r is Some <==> Rat::sub_fits(*self, *other) && Rat::spec_sub(*self, *other).num
                > i128::MIN,
    {
        let p1 = match self.num.checked_mul(other.den) {
            Some(x) => x,
            None => { return None; },
        };
        let p2 = match other.num.checked_mul(self.den) {
            Some(x) => x,
            None => { return None; },
        };
        let n = match p1.checked_sub(p2) {
            Some(x) => x,
            None => { return None; },
        };
        let d = match self.den.checked_mul(other.den) {
            Some(x) => x,
            None => { return None; },
        };
        if n == i128::MIN || p1 == i128::MIN || p2 == i128::MIN {
            return None;
        }
        proof {
            assert(d >= 1) by (nonlinear_arith)
                requires
                    self.den >= 1,
                    other.den >= 1,
                    d == self.den * other.den,
            ;
        }
        Some(Rat { num: n, den: d })
    }

    /// Every intermediate of `a - b` fits in an `i128`.
    pub open spec fn sub_fits(a: Rat, b: Rat) -> bool {
        &&& fits(a.num * b.den)
        &&& fits(b.num * a.den)
        &&& fits(a.num * b.den - b.num * a.den)
        &&& fits(a.den * b.den)
    }

    /// Exact multiplication; `None` exactly when a product overflows.
    pub fn checked_mul(&self, other: &Rat) -> (r: Option<Rat>)
        requires
            self.wf(),
            other.wf(),
        ensures
            r matches Some(v) ==> v == Rat::spec_mul(*self, *other) && v.wf(),
            r is Some <==> Rat::mul_fits(*self, *other) && Rat::spec_mul(*self, *other).num
                > i128::MIN,
    {
        let n = match self.num.checked_mul(other.num) {
            Some(x) => x,
            None => { return None; },
        };
        let d = match self.den.checked_mul(other.den) {
            Some(x) => x,
            None => { return None; },
        };
        if n == i128::MIN {
            return None;
        }
        proof {
            assert(d >= 1) by (nonlinear_arith)
                requires
                    self.den >= 1,
                    other.den >= 1,
                    d == self.den * other.den,
            ;
        }
        Some(Rat { num: n, den: d })
    }

    /// Exact division; `None` exactly when the divisor is zero or an
    /// intermediate overflows.
    pub fn checked_div(&self, other: &Rat) -> (r: Option<Rat>)
        requires
            self.wf(),
            other.wf(),
        ensures
            r matches Some(v) ==> v == Rat::spec_div(*self, *other) && v.wf(),
            r is Some <==> other.num != 0 && Rat::div_fits(*self, *other) && Rat::spec_div(
                *self,
                *other,
            ).num > i128::MIN,
    {
        if other.num == 0 {
            return None;
        }
        let p1 = match self.num.checked_mul(other.den) {
            Some(x) => x,
            None => { return None; },
        };
        let p2 = match self.den.checked_mul(other.num) {
            Some(x) => x,
            None => { return None; },
        };
        if p1 == i128::MIN || p2 == i128::MIN {
            return None;
        }
        if other.num >= 0 {
            proof {
                assert(p2 >= 1) by (nonlinear_arith)
                    requires
                        self.den >= 1,
                        other.num >= 1,
                        p2 == self.den * other.num,
                ;
            }
            Some(Rat { num: p1, den: p2 })
        } else {
            proof {
                assert(-p2 >= 1 && self.num * -other.den == -p1 && self.den * -other.num == -p2)
                    by (nonlinear_arith)
                    requires
                        self.den >= 1,
                        other.num <= -1,
                        p2 == self.den * other.num,
                        p1 == self.num * other.den,
                        p1 > i128::MIN,
                        p2 > i128::MIN,
                ;
            }
            Some(Rat { num: -p1, den: -p2 })
        }
    }

    /// Exact value comparison `self <= other`; `None` exactly when a
    /// cross-product overflows.
    pub fn checked_le(&self, other: &Rat) -> (r: Option<bool>)
        requires
            self.wf(),
            other.wf(),
        ensures
            r matches Some(b) ==> (b <==> self.le_value(*other)),
            r is Some <==> Rat::cmp_fits(*self, *other),
    {
        let p1 = match self.num.checked_mul(other.den) {
            Some(x) => x,
            None => { return None; },
        };
        let p2 = match other.num.checked_mul(self.den) {
            Some(x) => x,
            None => { return None; },
        };
        Some(p1 <= p2)
    }

    /// Exact value equality `self == other`; `None` exactly when a
    /// cross-product overflows.
    pub fn checked_eq(&self, other: &Rat) -> (r: Option<bool>)
        requires
            self.wf(),
            other.wf(),
        ensures
            r matches Some(b) ==> (b <==> self.same_value(*other)),
            r is Some <==> Rat::cmp_fits(*self, *other),
    {
        let p1 = match self.num.checked_mul(other.den) {
            Some(x) => x,
            None => { return None; },
        };
        let p2 = match other.num.checked_mul(self.den) {
            Some(x) => x,
            None => { return None; },
        };
        Some(p1 == p2)
    }
}

/// `x` fits in a `u128`.
pub open spec fn in_u128(x: int) -> bool {
    0 <= x <= u128::MAX as int
}

impl Rat {
    /// The value rounded half-away-from-zero to `dp` decimal places,
    /// as the exact rational `q / 10^dp`.
    pub open spec fn spec_round_dp(self, dp: nat) -> Rat {
        let p = pow10(dp);
        let a = if self.num >= 0 {
            self.num as int
        } else {
            -(self.num as int)
        };
        let q = (2 * a * p + self.den) / (2 * self.den);
        Rat {
            num: (if self.num >= 0 {
                q
            } else {
                -q
            }) as i128,
            den: p as i128,
        }
    }

    /// Whether rounding to `dp` places stays within the machine
    /// representation.
    pub open spec fn round_fits(self, dp: nat) -> bool {
        let p = pow10(dp);
        let a = if self.num >= 0 {
            self.num as int
        } else {
            -(self.num as int)
        };
        &&& dp <= 27
        &&& in_u128(a * p)
        &&& in_u128(2 * (a * p))
        &&& in_u128(2 * (a * p) + self.den)
        &&& (2 * a * p + self.den) / (2 * self.den) <= i128::MAX as int
    }

    /// Rounds half-away-from-zero to `dp` decimal places; `None`
    /// exactly when an intermediate does not fit.
    pub fn round_dp(&self, dp: u32) -> (r: Option<Rat>)
        requires
            self.wf(),
        ensures
            r matches Some(v) ==> v == self.spec_round_dp(dp as nat) && v.wf(),
            r is Some <==> self.round_fits(dp as nat),
    {
        if dp > 27 {
            return None;
        }
        let p = pow10_exec(dp);
        let a: u128 = if self.num >= 0 {
            self.num as u128
        } else {
            (-self.num) as u128
        };
        let t = match a.checked_mul(p as u128) {
            Some(t) => t,
            None => { return None; },
        };
        let t2 = match t.checked_mul(2) {
            Some(t2) => t2,
            None => { return None; },
        };
        let total = match t2.checked_add(self.den as u128) {
            Some(x) => x,
            None => { return None; },
        };
        proof {
            assert(a as int == if self.num >= 0 {
                self.num as int
            } else {
                -(self.num as int)
            });
            assert(t == a as int * pow10(dp as nat));
            assert(t2 == 2 * (a as int * pow10(dp as nat)));
            assert(total == 2 * (a as int * pow10(dp as nat)) + self.den);
            assert(2 * (a as int * pow10(dp as nat)) == 2 * (a as int) * pow10(dp as nat))
                by (nonlinear_arith);
        }
        let q = total / (2 * (self.den as u128));
        proof {
            assert(2 * (self.den as u128) == 2 * (self.den as int));
            assert(q == (2 * (a as int) * pow10(dp as nat) + self.den) / (2 * self.den));
        }
        if q > i128::MAX as u128 {
            return None;
        }
        let qi = q as i128;
        if self.num >= 0 {
            Some(Rat { num: qi, den: p })
        } else {
            Some(Rat { num: -qi, den: p })
        }
    }
}

/// `10^e` as a mathematical integer.
pub open spec fn pow10(e: nat) -> int
    decreases e,
{
    if e == 0 {
        1
    } else {
        10 * pow10((e - 1) as nat)
    }
}

/// `10^27` is the largest power of ten this module computes; it fits
/// comfortably in an `i128`.
proof fn lemma_pow10_bounds(e: nat)
    requires
        e <= 27,
    ensures
        1 <= pow10(e) < i128::MAX as int,
    decreases e,
{
    if e > 0 {
        lemma_pow10_bounds((e - 1) as nat);
        assert(pow10(e) == 10 * pow10((e - 1) as nat));
        assert(pow10(27) == 1000000000000000000000000000) by {
            reveal_with_fuel(pow10, 28);
        }
        lemma_pow10_mono(e, 27);
    }
}

/// `pow10` is monotone in its exponent.
proof fn lemma_pow10_mono(a: nat, b: nat)
    requires
        a <= b,
    ensures
        pow10(a) <= pow10(b),
        pow10(a) >= 1,
    decreases b,
{
    if a < b {
        lemma_pow10_mono(a, (b - 1) as nat);
        assert(pow10(b) == 10 * pow10((b - 1) as nat));
        assert(pow10((b - 1) as nat) >= 1);
    } else {
        if a > 0 {
            lemma_pow10_mono((a - 1) as nat, (a - 1) as nat);
        }
    }
}

/// `10^e` computed at run time.
fn pow10_exec(e: u32) -> (r: i128)
    requires
        e <= 27,
    ensures
        r == pow10(e as nat),
        1 <= r < i128::MAX,
{
    proof {
        lemma_pow10_bounds(e as nat);
    }
    let mut r: i128 = 1;
    let mut i: u32 = 0;
    while i < e
        invariant
            i <= e,
            e <= 27,
            r == pow10(i as nat),
            1 <= r < i128::MAX,
        decreases e - i,
    {
        proof {
            lemma_pow10_bounds((i + 1) as nat);
        }
        r = r * 10;
        i = i + 1;
    }
    r
}

} // verus!
