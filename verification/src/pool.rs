//! The Section 104 share pool.
//!
//! One pool per asset holds the running quantity and its cumulative GBP
//! cost basis. Acquisitions add to both; a disposal consumes cost in
//! exact proportion to the quantity sold. Selling at least the whole
//! holding consumes the entire remaining cost basis and resets the pool
//! to zero — the deliberate policy for upstream data inconsistencies.

use vstd::prelude::*;

use crate::money::Currency;
use crate::money::Money;
use crate::rational::Rat;

verus! {

/// The running Section 104 holding and cost basis for one asset.
#[derive(Clone, Copy, Debug, PartialEq, Eq, Structural)]
pub struct Pool {
    pub currency: Currency,
    pub total: Money,
    pub costs: Money,
}

impl Pool {
    /// Well-formed: a non-negative holding in the pool's own currency
    /// and a GBP cost basis.
    pub open spec fn wf(self) -> bool {
        &&& self.total.wf()
        &&& self.costs.wf()
        &&& self.total.currency == self.currency
        &&& self.costs.currency.spec_is_gbp()
        &&& self.total.amount.num >= 0
    }

    /// An empty pool for one asset.
    pub fn new(currency: Currency) -> (r: Pool)
        ensures
            r.wf(),
            r == (Pool {
                currency,
                total: Money { amount: Rat { num: 0, den: 1 }, currency },
                costs: Money {
                    amount: Rat { num: 0, den: 1 },
                    currency: Currency { id: crate::money::GBP_ID },
                },
            }),
    {
        Pool { currency, total: Money::zero(currency), costs: Money::zero(Currency::gbp()) }
    }

    /// The quantity currently held.
    pub fn total(&self) -> (r: Money)
        ensures
            r == self.total,
    {
        self.total
    }

    /// The pool after an acquisition of `buy` costing `costs`, or
    /// `None` on arithmetic overflow.
    pub open spec fn spec_buy(p: Pool, buy: Money, costs: Money) -> Option<Pool> {
        let t = Rat::spec_add(p.total.amount, buy.amount);
        let c = Rat::spec_add(p.costs.amount, costs.amount);
        if Rat::add_fits(p.total.amount, buy.amount) && t.num > i128::MIN && Rat::add_fits(
            p.costs.amount,
            costs.amount,
        ) && c.num > i128::MIN {
            Some(
                Pool {
                    currency: p.currency,
                    total: Money { amount: t, currency: p.total.currency },
                    costs: Money { amount: c, currency: p.costs.currency },
                },
            )
        } else {
            None
        }
    }

    /// Adds `buy` to the holding and `costs` to the cost basis. Returns
    /// false (leaving the pool unchanged) exactly on arithmetic
    /// overflow. Amounts may be zero.
    pub fn buy(&mut self, buy: &Money, costs: &Money) -> (r: bool)
        requires
            old(self).wf(),
            buy.wf(),
            costs.wf(),
            buy.currency == old(self).currency,
            costs.currency.spec_is_gbp(),
            buy.amount.num >= 0,
        ensures
            r <==> Pool::spec_buy(*old(self), *buy, *costs) is Some,
            r ==> Some(*final(self)) == Pool::spec_buy(*old(self), *buy, *costs)
                && final(self).wf(),
            !r ==> *final(self) == *old(self),
    {
        let new_total = match self.total.checked_add(buy) {
            Some(t) => t,
            None => { return false; },
        };
        let new_costs = match self.costs.checked_add(costs) {
            Some(c) => c,
            None => { return false; },
        };
        proof {
            let a = self.total.amount;
            let b = buy.amount;
            assert(a.num * b.den + b.num * a.den >= 0) by (nonlinear_arith)
                requires
                    a.num >= 0,
                    b.num >= 0,
                    a.den >= 1,
                    b.den >= 1,
            ;
        }
        self.total = new_total;
        self.costs = new_costs;
        true
    }

    /// The pool and the consumed cost after a disposal of `sell`, or
    /// `None` on arithmetic overflow.
    ///
    /// Selling the whole holding or more consumes the entire remaining
    /// cost basis and zeroes the pool; otherwise the consumed cost is
    /// the exact proportional share `costs * (sell / total)`.
    pub open spec fn spec_sell(p: Pool, sell: Money) -> Option<(Pool, Money)> {
        if !Rat::cmp_fits(p.total.amount, sell.amount) {
            None
        } else if p.total.amount.le_value(sell.amount) {
            Some(
                (
                    Pool {
                        currency: p.currency,
                        total: Money { amount: Rat { num: 0, den: 1 }, currency: p.total.currency },
                        costs: Money { amount: Rat { num: 0, den: 1 }, currency: p.costs.currency },
                    },
                    p.costs,
                ),
            )
        } else {
            let frac = Rat::spec_div(sell.amount, p.total.amount);
            if !(Rat::div_fits(sell.amount, p.total.amount) && frac.num > i128::MIN) {
                None
            } else {
                let consumed = Rat::spec_mul(p.costs.amount, frac);
                if !(Rat::mul_fits(p.costs.amount, frac) && consumed.num > i128::MIN) {
                    None
                } else {
                    let new_total = Rat::spec_sub(p.total.amount, sell.amount);
                    let new_costs = Rat::spec_sub(p.costs.amount, consumed);
                    if !(Rat::sub_fits(p.total.amount, sell.amount) && new_total.num > i128::MIN
                        && Rat::sub_fits(p.costs.amount, consumed) && new_costs.num > i128::MIN) {
                        None
                    } else {
                        Some(
                            (
                                Pool {
                                    currency: p.currency,
                                    total: Money {
                                        amount: new_total,
                                        currency: p.total.currency,
                                    },
                                    costs: Money {
                                        amount: new_costs,
                                        currency: p.costs.currency,
                                    },
                                },
                                Money { amount: consumed, currency: p.costs.currency },
                            ),
                        )
                    }
                }
            }
        }
    }

    /// Performs a disposal of `sell`, returning the consumed allowable
    /// cost, or `None` (leaving the pool unchanged) exactly on
    /// arithmetic overflow.
    pub fn sell(&mut self, sell: Money) -> (r: Option<Money>)
        requires
            old(self).wf(),
            sell.wf(),
            sell.currency == old(self).currency,
            sell.amount.num >= 0,
        ensures
            match Pool::spec_sell(*old(self), sell) {
                Some(v) => r == Some(v.1) && *final(self) == v.0 && final(self).wf() && v.1.wf()
                    && v.1.currency == old(self).costs.currency,
                None => r is None && *final(self) == *old(self),
            },
    {
        let within = match self.total.amount.checked_le(&sell.amount) {
            Some(b) => b,
            None => { return None; },
        };
        if within {
            let consumed = self.costs;
            self.total = Money::zero(self.currency);
            self.costs = Money::zero(Currency::gbp());
            Some(consumed)
        } else {
            proof {
                let t = self.total.amount;
                let s = sell.amount;
                assert(t.num > 0) by (nonlinear_arith)
                    requires
                        s.num * t.den < t.num * s.den,
                        s.num >= 0,
                        t.den >= 1,
                        s.den >= 1,
                ;
            }
            let frac = match sell.amount.checked_div(&self.total.amount) {
                Some(f) => f,
                None => { return None; },
            };
            let consumed = match self.costs.checked_scale(&frac) {
                Some(c) => c,
                None => { return None; },
            };
            let new_total = match self.total.checked_sub(&sell) {
                Some(t) => t,
                None => { return None; },
            };
            let new_costs = match self.costs.checked_sub(&consumed) {
                Some(c) => c,
                None => { return None; },
            };
            proof {
                let t = self.total.amount;
                let s = sell.amount;
                assert(t.num * s.den - s.num * t.den > 0);
            }
            self.total = new_total;
            self.costs = new_costs;
            Some(consumed)
        }
    }

    /// The average cost basis per unit held: `costs / total`, or zero
    /// when the pool is empty (never a division by zero) or on
    /// arithmetic overflow.
    pub open spec fn spec_cost_basis(p: Pool) -> Rat {
        let q = Rat::spec_div(p.costs.amount, p.total.amount);
        if p.total.amount.num != 0 && Rat::div_fits(p.costs.amount, p.total.amount) && q.num
            > i128::MIN {
            q
        } else {
            Rat { num: 0, den: 1 }
        }
    }

    /// Computes the average cost basis per unit held; an empty pool
    /// yields zero rather than a division by zero.
    pub fn cost_basis(&self) -> (r: Rat)
        requires
            self.wf(),
        ensures
            r == Pool::spec_cost_basis(*self),
            self.total.amount.num == 0 ==> r.num == 0 && r.den == 1,
    {
        match self.costs.amount.checked_div(&self.total.amount) {
            Some(q) => q,
            None => Rat::zero(),
        }
    }
}

/// Pool averaging law: when a disposal of `k` succeeds against a pool
/// holding `T` with cost basis `C`, then if `k < T` the consumed cost
/// equals `C * k / T` exactly, the holding drops to `T - k`, and the
/// cost basis drops by the consumed cost; if `k >= T` the entire cost
/// basis is consumed and the pool is zeroed.
pub proof fn lemma_pool_averaging(p: Pool, sell: Money)
    requires
        p.wf(),
        sell.wf(),
        sell.currency == p.currency,
        sell.amount.num >= 0,
        Pool::spec_sell(p, sell) is Some,
    ensures
        ({
            let v = Pool::spec_sell(p, sell).unwrap();
            let q = v.0;
            let c = v.1;
            let tn = p.total.amount.num;
            let td = p.total.amount.den;
            let cn = p.costs.amount.num;
            let cd = p.costs.amount.den;
            let kn = sell.amount.num;
            let kd = sell.amount.den;
            &&& sell.amount.lt_value(p.total.amount) ==> {
                // consumed == C * k / T, as exact rational values
                &&& c.amount.num * (cd * kd * tn) == (cn * kn * td) * c.amount.den
                // remaining holding == T - k
                &&& q.total.amount.num * (td * kd) == (tn * kd - kn * td) * q.total.amount.den
                // remaining costs == C - consumed
                &&& q.costs.amount.num * (cd * c.amount.den) == (cn * c.amount.den - c.amount.num
                    * cd) * q.costs.amount.den
            }
            &&& !sell.amount.lt_value(p.total.amount) ==> {
                &&& c == p.costs
                &&& q.total.amount.num == 0
                &&& q.costs.amount.num == 0
            }
        }),
{
    let v = Pool::spec_sell(p, sell).unwrap();
    if sell.amount.lt_value(p.total.amount) {
        let tn = p.total.amount.num;
        let td = p.total.amount.den;
        let cn = p.costs.amount.num;
        let cd = p.costs.amount.den;
        let kn = sell.amount.num;
        let kd = sell.amount.den;
        assert(tn > 0) by (nonlinear_arith)
            requires
                kn * td < tn * kd,
                kn >= 0,
                td >= 1,
                kd >= 1,
        ;
        let c = v.1;
        let q = v.0;
        assert(c.amount.num == cn * (kn * td) && c.amount.den == cd * (kd * tn));
        assert(cn * (kn * td) * (cd * kd * tn) == (cn * kn * td) * (cd * (kd * tn)))
            by (nonlinear_arith);
        assert(q.total.amount.num == tn * kd - kn * td && q.total.amount.den == td * kd);
        assert((tn * kd - kn * td) * (td * kd) == (tn * kd - kn * td) * (td * kd));
        assert(q.costs.amount.num == cn * c.amount.den - c.amount.num * cd && q.costs.amount.den
            == cd * c.amount.den);
        assert((cn * c.amount.den - c.amount.num * cd) * (cd * c.amount.den) == (cn * c.amount.den
            - c.amount.num * cd) * (cd * c.amount.den));
    }
}

} // verus!
