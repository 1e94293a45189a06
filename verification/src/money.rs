//! Currencies and exact monetary values.
//!
//! A currency is identified by a numeric asset id; id 0 is pound
//! sterling (GBP), the currency every tax figure is denominated in.
//! `Money` pairs an exact rational amount with a currency. Binary
//! arithmetic between two `Money` values demands identical currencies;
//! multiplication by a scalar rate is always legal.

use vstd::prelude::*;

use crate::rational::Rat;

verus! {

/// The asset id of pound sterling.
pub const GBP_ID: u32 = 0;

/// A currency, identified by its asset id. Two `Currency` values with
/// the same id are interchangeable.
#[derive(Clone, Copy, Debug, PartialEq, Eq, Structural)]
pub struct Currency {
    pub id: u32,
}

impl Currency {
    /// Pound sterling, the tax denomination.
    pub fn gbp() -> (r: Currency)
        ensures
            r.id == GBP_ID,
    {
        Currency { id: GBP_ID }
    }

    /// A currency from its asset id.
    pub fn from_id(id: u32) -> (r: Currency)
        ensures
            r.id == id,
    {
        Currency { id }
    }

    /// Whether this currency is pound sterling.
    pub open spec fn spec_is_gbp(self) -> bool {
        self.id == GBP_ID
    }

    /// Whether this currency is pound sterling, computed.
    pub fn is_gbp(&self) -> (r: bool)
        ensures
            r == self.spec_is_gbp(),
    {
        self.id == GBP_ID
    }
}

/// An exact monetary value in one currency.
#[derive(Clone, Copy, Debug, PartialEq, Eq, Structural)]
pub struct Money {
    pub amount: Rat,
    pub currency: Currency,
}

impl Money {
    /// Well-formed: the amount is a well-formed rational.
    pub open spec fn wf(self) -> bool {
        self.amount.wf()
    }

    /// Zero in the given currency.
    pub fn zero(currency: Currency) -> (r: Money)
        ensures
            r.wf(),
            r.currency == currency,
            r.amount.num == 0,
            r.amount.den == 1,
    {
        Money { amount: Rat::zero(), currency }
    }

    /// A value from an exact rational amount.
    pub fn new(amount: Rat, currency: Currency) -> (r: Money)
        ensures
            r == (Money { amount, currency }),
    {
        Money { amount, currency }
    }

    /// A value written in decimal notation: `mantissa / 10^scale`.
    pub fn from_decimal(mantissa: i128, scale: u32, currency: Currency) -> (r: Option<Money>)
        ensures
            r matches Some(v) ==> v.wf() && v.currency == currency && v.amount.num == mantissa
                && v.amount.den == crate::rational::pow10(scale as nat),
            r is Some <==> scale <= 27 && mantissa > i128::MIN,
    {
        match Rat::from_decimal(mantissa, scale) {
            Some(amount) => Some(Money { amount, currency }),
            None => None,
        }
    }

    /// Exact addition of two values in the same currency; `None` on
    /// arithmetic overflow.
    pub fn checked_add(&self, other: &Money) -> (r: Option<Money>)
        requires
            self.wf(),
            other.wf(),
            self.currency == other.currency,
        ensures
            r matches Some(v) ==> v.wf() && v.currency == self.currency && v.amount
                == Rat::spec_add(self.amount, other.amount),
            r is Some <==> Rat::add_fits(self.amount, other.amount) && Rat::spec_add(
                self.amount,
                other.amount,
            ).num > i128::MIN,
    {
        match self.amount.checked_add(&other.amount) {
            Some(amount) => Some(Money { amount, currency: self.currency }),
            None => None,
        }
    }

    /// Exact subtraction of two values in the same currency; `None` on
    /// arithmetic overflow.
    pub fn checked_sub(&self, other: &Money) -> (r: Option<Money>)
        requires
            self.wf(),
            other.wf(),
            self.currency == other.currency,
        ensures
            r matches Some(v) ==> v.wf() && v.currency == self.currency && v.amount
                == Rat::spec_sub(self.amount, other.amount),
            r is Some <==> Rat::sub_fits(self.amount, other.amount) && Rat::spec_sub(
                self.amount,
                other.amount,
            ).num > i128::MIN,
    {
        match self.amount.checked_sub(&other.amount) {
            Some(amount) => Some(Money { amount, currency: self.currency }),
            None => None,
        }
    }

    /// Exact multiplication by a scalar rate, keeping the currency;
    /// `None` on arithmetic overflow.
    pub fn checked_scale(&self, rate: &Rat) -> (r: Option<Money>)
        requires
            self.wf(),
            rate.wf(),
        ensures
            r matches Some(v) ==> v.wf() && v.currency == self.currency && v.amount
                == Rat::spec_mul(self.amount, *rate),
            r is Some <==> Rat::mul_fits(self.amount, *rate) && Rat::spec_mul(
                self.amount,
                *rate,
            ).num > i128::MIN,
    {
        match self.amount.checked_mul(rate) {
            Some(amount) => Some(Money { amount, currency: self.currency }),
            None => None,
        }
    }

    /// The value rounded half-away-from-zero to `dp` decimal places,
    /// keeping the currency; `None` exactly when an intermediate does
    /// not fit.
    pub fn round_dp(&self, dp: u32) -> (r: Option<Money>)
        requires
            self.wf(),
        ensures
            r matches Some(v) ==> v.wf() && v.currency == self.currency && v.amount
                == self.amount.spec_round_dp(dp as nat),
            r is Some <==> self.amount.round_fits(dp as nat),
    {
        match self.amount.round_dp(dp) {
            Some(amount) => Some(Money { amount, currency: self.currency }),
            None => None,
        }
    }

    /// Exact value equality of two amounts in the same currency; `None`
    /// when a cross-product overflows.
    pub fn checked_eq_value(&self, other: &Money) -> (r: Option<bool>)
        requires
            self.wf(),
            other.wf(),
            self.currency == other.currency,
        ensures
            r matches Some(b) ==> (b <==> self.amount.same_value(other.amount)),
            r is Some <==> Rat::cmp_fits(self.amount, other.amount),
    {
        self.amount.checked_eq(&other.amount)
    }
}

} // verus!
