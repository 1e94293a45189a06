//! Exchange trades.
//!
//! A trade records one exchange event: a sold leg, an acquired leg, a
//! fee, and the exchange rate quoted at trade time. The `kind` says
//! which leg is the tracked asset. A `TradeKey` identifies an
//! acquisition event across the run: two trades with identical keys are
//! treated as the same acquisition when the bed-and-breakfast matcher
//! tracks partial consumption.

use vstd::prelude::*;

use crate::date::DateTime;
use crate::money::Money;
use crate::rational::Rat;

verus! {

/// Which leg of the trade is the tracked asset.
#[derive(Clone, Copy, Debug, PartialEq, Eq, Structural)]
pub enum TradeKind {
    Buy,
    Sell,
}

/// One exchange event: `sell` was given up to acquire `buy`, paying
/// `fee`, at the quoted `rate`.
#[derive(Clone, Copy, Debug, PartialEq, Eq, Structural)]
pub struct Trade {
    pub date_time: DateTime,
    pub kind: TradeKind,
    pub buy: Money,
    pub sell: Money,
    pub fee: Money,
    pub rate: Rat,
}

/// The identity of an acquisition event: timestamp and both legs.
#[derive(Clone, Copy, Debug, PartialEq, Eq, Structural)]
pub struct TradeKey {
    pub date_time: DateTime,
    pub buy: Money,
    pub sell: Money,
}

impl Trade {
    /// Well-formed: valid timestamp, well-formed amounts and rate, and
    /// non-negative traded quantities.
    pub open spec fn wf(self) -> bool {
        &&& self.date_time.wf()
        &&& self.buy.wf()
        &&& self.sell.wf()
        &&& self.fee.wf()
        &&& self.rate.wf()
        &&& self.buy.amount.num >= 0
        &&& self.sell.amount.num >= 0
    }

    /// The trade's identity as an acquisition event.
    pub open spec fn spec_key(self) -> TradeKey {
        TradeKey { date_time: self.date_time, buy: self.buy, sell: self.sell }
    }

    /// The trade's identity as an acquisition event, computed.
    pub fn key(&self) -> (r: TradeKey)
        ensures
            r == self.spec_key(),
    {
        TradeKey { date_time: self.date_time, buy: self.buy, sell: self.sell }
    }
}

} // verus!
