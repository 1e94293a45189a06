//! The historical price index.
//!
//! A `Price` is one daily quote of a base currency in terms of a quote
//! currency. `Prices` holds the observations in insertion order and
//! answers exact calendar-date lookups: the first observation whose
//! pair and calendar date both match, or nothing.

use vstd::prelude::*;

use crate::date::Date;
use crate::date::DateTime;
use crate::money::Currency;
use crate::money::Money;
use crate::rational::Rat;

verus! {

/// An ordered currency pair: `base` priced in terms of `quote`.
#[derive(Clone, Copy, Debug, PartialEq, Eq, Structural)]
pub struct CurrencyPair {
    pub base: Currency,
    pub quote: Currency,
}

/// A single historical quote of `pair.base` in `pair.quote`, at a
/// specific day's resolution.
#[derive(Clone, Copy, Debug, PartialEq, Eq, Structural)]
pub struct Price {
    pub pair: CurrencyPair,
    pub date_time: DateTime,
    pub rate: Rat,
}

impl Price {
    /// Well-formed: valid timestamp and rate.
    pub open spec fn wf(self) -> bool {
        &&& self.date_time.wf()
        &&& self.rate.wf()
    }

    /// The rate used to convert `money` to GBP under this price: the
    /// price's own rate when the money is the priced base asset, else
    /// the trade's quoted rate.
    pub open spec fn spec_conversion_rate(self, money: Money, trade_rate: Rat) -> Rat {
        if money.currency == self.pair.base {
            self.rate
        } else {
            trade_rate
        }
    }

    /// The GBP value of `money` under this price: `money` unchanged if
    /// it already is GBP, else the amount scaled by the conversion rate
    /// into a GBP value; `None` exactly on arithmetic overflow.
    pub open spec fn spec_convert(self, money: Money, trade_rate: Rat) -> Option<Money> {
        if money.currency.spec_is_gbp() {
            Some(money)
        } else {
            let rate = self.spec_conversion_rate(money, trade_rate);
            let v = Rat::spec_mul(money.amount, rate);
            if Rat::mul_fits(money.amount, rate) && v.num > i128::MIN {
                Some(Money { amount: v, currency: Currency { id: crate::money::GBP_ID } })
            } else {
                None
            }
        }
    }

    /// Converts `money` to GBP under this price, exactly as
    /// `spec_convert` says; the result is well-formed and
    /// GBP-denominated.
    pub fn convert_to_gbp(&self, money: &Money, trade_rate: &Rat) -> (r: Option<Money>)
        requires
            self.wf(),
            money.wf(),
            trade_rate.wf(),
        ensures
            r == self.spec_convert(*money, *trade_rate),
            r matches Some(v) ==> v.wf() && (money.currency.spec_is_gbp() || (
            v.currency.spec_is_gbp() && money.wf())),
    {
        if money.currency.is_gbp() {
            Some(*money)
        } else {
            let rate = if money.currency.id == self.pair.base.id {
                self.rate
            } else {
                *trade_rate
            };
            match money.amount.checked_mul(&rate) {
                Some(amount) => Some(Money { amount, currency: Currency::gbp() }),
                None => None,
            }
        }
    }
}

/// The first price in `s` whose pair is `pair` and whose calendar date
/// is `at`, scanning from the front.
pub open spec fn spec_price_lookup(s: Seq<Price>, pair: CurrencyPair, at: Date) -> Option<Price>
    decreases s.len(),
{
    if s.len() == 0 {
        None
    } else if s[0].pair == pair && s[0].date_time.date == at {
        Some(s[0])
    } else {
        spec_price_lookup(s.skip(1), pair, at)
    }
}

/// The historical price index: daily quotes in insertion order.
#[derive(Clone, Debug)]
pub struct Prices {
    pub prices: Vec<Price>,
}

impl Prices {
    /// Well-formed: every observation is well-formed.
    pub open spec fn wf(self) -> bool {
        forall|i: int| 0 <= i < self.prices@.len() ==> #[trigger] self.prices@[i].wf()
    }

    /// An empty index.
    pub fn new() -> (r: Prices)
        ensures
            r.wf(),
            r.prices@ =~= Seq::<Price>::empty(),
    {
        Prices { prices: Vec::new() }
    }

    /// Records one observation at the end of the index.
    pub fn add(&mut self, price: Price)
        requires
            old(self).wf(),
            price.wf(),
        ensures
            final(self).wf(),
            final(self).prices@ == old(self).prices@.push(price),
    {
        self.prices.push(price);
    }

    /// Gets the daily price for `pair` at the calendar date `at`, if one
    /// exists: the first matching observation.
    pub fn get(&self, pair: CurrencyPair, at: Date) -> (r: Option<Price>)
        ensures
            r == spec_price_lookup(self.prices@, pair, at),
    {
        let n = self.prices.len();
        let mut i: usize = 0;
        proof {
            assert(self.prices@.skip(0) =~= self.prices@);
        }
        while i < n
            invariant
                n == self.prices@.len(),
                i <= n,
                spec_price_lookup(self.prices@, pair, at) == spec_price_lookup(
                    self.prices@.skip(i as int),
                    pair,
                    at,
                ),
            decreases n - i,
        {
            let p = self.prices[i];
            proof {
                assert(self.prices@.skip(i as int)[0] == self.prices@[i as int]);
                assert(self.prices@.skip(i as int).skip(1) =~= self.prices@.skip(i as int + 1));
            }
            if p.pair.base.id == pair.base.id && p.pair.quote.id == pair.quote.id
                && p.date_time.date.year == at.year && p.date_time.date.month == at.month
                && p.date_time.date.day == at.day {
                return Some(p);
            }
            i = i + 1;
        }
        proof {
            assert(self.prices@.skip(n as int) =~= Seq::<Price>::empty());
        }
        None
    }
}

} // verus!
