//! The capital-gains engine and its report.
//!
//! `calculate` streams time-sorted trades once through per-asset
//! Section 104 pools, matching each disposal against acquisitions of
//! the same asset within the following 30 days (the bed-and-breakfast
//! rule) before touching the pool. Every step of the engine is mirrored
//! by a spec-level function, so the whole report is pinned down as an
//! exact function of the input trades and prices.

use vstd::prelude::*;

use crate::date::Date;
use crate::date::DateTime;
use crate::date::spec_day_number;
use crate::money::Currency;
use crate::money::GBP_ID;
use crate::money::Money;
use crate::pool::Pool;
use crate::prices::CurrencyPair;
use crate::prices::Price;
use crate::prices::Prices;
use crate::prices::spec_price_lookup;
use crate::rational::Rat;
use crate::sort::distinct_times;
use crate::sort::lemma_distinct_times_permuted;
use crate::sort::lemma_sort_by_time;
use crate::sort::lemma_sorted_permutation_unique;
use crate::sort::sort_by_time;
use crate::sort::sort_trades;
use crate::sort::time_sorted;
use crate::trade::Trade;
use crate::trade::TradeKey;
use crate::trade::TradeKind;

verus! {

/// Why a calculation run failed. A missing historical price for a
/// required conversion aborts the whole run and reports the offending
/// trade's legs and timestamp; `Overflow` reports arithmetic whose
/// exact result does not fit the rational representation.
#[derive(Clone, Copy, Debug, PartialEq, Eq, Structural)]
pub enum CalcError {
    MissingPrice { date_time: DateTime, buy: Money, sell: Money },
    Overflow,
}

/// The UK fiscal year of a timestamp: a date after 5 April of calendar
/// year `Y` belongs to the tax year ending in `Y + 1`, any earlier date
/// to the one ending in `Y`.
pub open spec fn spec_uk_tax_year(dt: DateTime) -> u32 {
    if dt.date.month > 4 || (dt.date.month == 4 && dt.date.day > 5) {
        (dt.date.year + 1) as u32
    } else {
        dt.date.year
    }
}

/// Computes the UK fiscal year a disposal at `dt` falls in.
pub fn uk_tax_year(dt: DateTime) -> (r: u32)
    requires
        dt.wf(),
    ensures
        r == spec_uk_tax_year(dt),
{
    if dt.date.month > 4 || (dt.date.month == 4 && dt.date.day > 5) {
        dt.date.year + 1
    } else {
        dt.date.year
    }
}

/// Fiscal year boundary law: a disposal dated 5 April of year `y` is in
/// tax year `y`; one dated 6 April of year `y` is in tax year `y + 1`.
pub proof fn lemma_fiscal_year_boundary(y: u32, secs: u32)
    requires
        1900 <= y <= 9999,
        secs < 86400,
    ensures
        spec_uk_tax_year(DateTime { date: Date { year: y, month: 4, day: 5 }, secs }) == y,
        spec_uk_tax_year(DateTime { date: Date { year: y, month: 4, day: 6 }, secs }) == y + 1,
{
}

/// The price resolved for a trade: when the non-tracked leg is already
/// GBP the trade's own rate is authoritative; otherwise the index is
/// asked for the non-GBP quote currency against GBP at the trade's
/// calendar date.
pub open spec fn spec_get_price(trade: Trade, prices: Seq<Price>) -> Option<Price> {
    let quote = if trade.kind is Buy {
        trade.sell.currency
    } else {
        trade.buy.currency
    };
    let base = if trade.kind is Buy {
        trade.buy.currency
    } else {
        trade.sell.currency
    };
    if quote.spec_is_gbp() {
        Some(
            Price {
                pair: CurrencyPair { base, quote: Currency { id: GBP_ID } },
                date_time: trade.date_time,
                rate: trade.rate,
            },
        )
    } else {
        spec_price_lookup(
            prices,
            CurrencyPair { base: quote, quote: Currency { id: GBP_ID } },
            trade.date_time.date,
        )
    }
}

/// Resolves the price used to value a trade, exactly as
/// `spec_get_price` says.
pub fn get_price(trade: &Trade, prices: &Prices) -> (r: Option<Price>)
    requires
        trade.wf(),
        prices.wf(),
    ensures
        r == spec_get_price(*trade, prices.prices@),
        r matches Some(p) ==> p.wf(),
{
    let (quote, base) = match trade.kind {
        TradeKind::Buy => (trade.sell.currency, trade.buy.currency),
        TradeKind::Sell => (trade.buy.currency, trade.sell.currency),
    };
    if quote.is_gbp() {
        return Some(
            Price {
                pair: CurrencyPair { base, quote: Currency::gbp() },
                date_time: trade.date_time,
                rate: trade.rate,
            },
        );
    }
    let pair = CurrencyPair { base: quote, quote: Currency::gbp() };
    let r = prices.get(pair, trade.date_time.date);
    proof {
        lemma_price_lookup_wf(prices.prices@, pair, trade.date_time.date);
    }
    r
}

/// A successful lookup returns one of the index's observations, which
/// is well-formed when the index is.
proof fn lemma_price_lookup_wf(s: Seq<Price>, pair: CurrencyPair, at: Date)
    requires
        forall|i: int| 0 <= i < s.len() ==> (#[trigger] s[i]).wf(),
    ensures
        spec_price_lookup(s, pair, at) matches Some(p) ==> p.wf(),
    decreases s.len(),
{
    if s.len() > 0 {
        assert(s[0].wf());
        assert forall|i: int| 0 <= i < s.skip(1).len() implies (#[trigger] s.skip(1)[i]).wf() by {
            assert(s.skip(1)[i] == s[i + 1]);
        }
        lemma_price_lookup_wf(s.skip(1), pair, at);
    }
}

/// The computed tax record for one trade: the GBP valuations of its
/// legs, the allowable cost attributed to it, the fiscal year it falls
/// in, and snapshots of the pools immediately after it was applied.
#[derive(Clone, Copy, Debug, PartialEq, Eq, Structural)]
pub struct Disposal {
    pub trade: Trade,
    pub tax_year: u32,
    pub buy_value: Money,
    pub sell_value: Money,
    pub fee_value: Money,
    pub price: Price,
    pub allowable_costs: Money,
    pub buy_pool: Option<Pool>,
    pub sell_pool: Option<Pool>,
}

impl Disposal {
    /// Well-formed: the valuations and the allowable cost are
    /// well-formed GBP values.
    pub open spec fn wf(self) -> bool {
        &&& self.trade.wf()
        &&& self.buy_value.wf()
        &&& self.sell_value.wf()
        &&& self.fee_value.wf()
        &&& self.allowable_costs.wf()
        &&& self.sell_value.currency.spec_is_gbp()
        &&& self.fee_value.currency.spec_is_gbp()
        &&& self.allowable_costs.currency.spec_is_gbp()
        &&& self.price.wf()
    }

    /// The disposal's proceeds: the GBP value of the sold leg.
    pub fn proceeds(&self) -> (r: Money)
        ensures
            r == self.sell_value,
    {
        self.sell_value
    }

    /// The allowable cost attributed to this disposal.
    pub fn allowable_costs(&self) -> (r: Money)
        ensures
            r == self.allowable_costs,
    {
        self.allowable_costs
    }

    /// The GBP value of the fee paid.
    pub fn fee(&self) -> (r: Money)
        ensures
            r == self.fee_value,
    {
        self.fee_value
    }

    /// The gain: `proceeds - allowable costs - fee`, or `None` on
    /// arithmetic overflow.
    pub open spec fn spec_gain(self) -> Option<Money> {
        let p = Rat::spec_sub(self.sell_value.amount, self.allowable_costs.amount);
        if Rat::sub_fits(self.sell_value.amount, self.allowable_costs.amount) && p.num
            > i128::MIN {
            let g = Rat::spec_sub(p, self.fee_value.amount);
            if Rat::sub_fits(p, self.fee_value.amount) && g.num > i128::MIN {
                Some(Money { amount: g, currency: Currency { id: GBP_ID } })
            } else {
                None
            }
        } else {
            None
        }
    }

    /// Computes the gain, exactly as `spec_gain` says.
    pub fn gain(&self) -> (r: Option<Money>)
        requires
            self.wf(),
        ensures
            r == self.spec_gain(),
            r matches Some(v) ==> v.wf() && v.currency.spec_is_gbp(),
    {
        let p = match self.sell_value.checked_sub(&self.allowable_costs) {
            Some(p) => p,
            None => { return None; },
        };
        match p.checked_sub(&self.fee_value) {
            Some(g) => Some(Money { amount: g.amount, currency: Currency::gbp() }),
            None => None,
        }
    }
}

/// Every pool in the ledger is well-formed.
pub open spec fn pools_wf(pools: Seq<Pool>) -> bool {
    forall|i: int| 0 <= i < pools.len() ==> (#[trigger] pools[i]).wf()
}

/// The running ledger's entry for one asset: the first pool with that
/// currency, or a fresh empty pool if none exists yet.
pub open spec fn spec_get_pool(pools: Seq<Pool>, c: Currency) -> Pool
    decreases pools.len(),
{
    if pools.len() == 0 {
        Pool {
            currency: c,
            total: Money { amount: Rat { num: 0, den: 1 }, currency: c },
            costs: Money { amount: Rat { num: 0, den: 1 }, currency: Currency { id: GBP_ID } },
        }
    } else if pools[0].currency == c {
        pools[0]
    } else {
        spec_get_pool(pools.skip(1), c)
    }
}

/// The ledger with the entry for `c` replaced by `p` (appended when no
/// entry existed).
pub open spec fn spec_set_pool(pools: Seq<Pool>, c: Currency, p: Pool) -> Seq<Pool>
    decreases pools.len(),
{
    if pools.len() == 0 {
        seq![p]
    } else if pools[0].currency == c {
        seq![p] + pools.skip(1)
    } else {
        seq![pools[0]] + spec_set_pool(pools.skip(1), c, p)
    }
}

/// Reads the ledger's entry for `c`, exactly as `spec_get_pool` says;
/// helper recursion from position `i`.
fn get_pool_from(pools: &Vec<Pool>, i: usize, c: Currency) -> (r: Pool)
    requires
        i <= pools@.len(),
        pools_wf(pools@),
    ensures
        r == spec_get_pool(pools@.skip(i as int), c),
        r.wf(),
        r.currency == c,
    decreases pools@.len() - i,
{
    if i == pools.len() {
        proof {
            assert(pools@.skip(i as int) =~= Seq::<Pool>::empty());
        }
        Pool::new(c)
    } else {
        proof {
            assert(pools@.skip(i as int)[0] == pools@[i as int]);
            assert(pools@.skip(i as int).skip(1) =~= pools@.skip(i as int + 1));
        }
        let entry = pools[i];
        if entry.currency.id == c.id {
            proof {
                lemma_get_pool_wf(pools@, c);
            }
            entry
        } else {
            get_pool_from(pools, i + 1, c)
        }
    }
}

/// The entry read from a well-formed ledger is well-formed and carries
/// the requested currency.
proof fn lemma_get_pool_wf(pools: Seq<Pool>, c: Currency)
    requires
        pools_wf(pools),
    ensures
        spec_get_pool(pools, c).wf(),
        spec_get_pool(pools, c).currency == c,
    decreases pools.len(),
{
    if pools.len() > 0 && pools[0].currency != c {
        assert forall|i: int| 0 <= i < pools.skip(1).len() implies (#[trigger] pools.skip(
            1,
        )[i]).wf() by {
            assert(pools.skip(1)[i] == pools[i + 1]);
        }
        lemma_get_pool_wf(pools.skip(1), c);
    }
}

/// Reads the ledger's entry for `c`, creating a fresh pool if absent.
fn get_pool(pools: &Vec<Pool>, c: Currency) -> (r: Pool)
    requires
        pools_wf(pools@),
    ensures
        r == spec_get_pool(pools@, c),
        r.wf(),
        r.currency == c,
{
    proof {
        assert(pools@.skip(0) =~= pools@);
    }
    get_pool_from(pools, 0, c)
}

/// Writes `p` as the ledger's entry for `c`, exactly as `spec_set_pool`
/// says.
fn set_pool(pools: Vec<Pool>, c: Currency, p: Pool) -> (r: Vec<Pool>)
    ensures
        r@ == spec_set_pool(pools@, c, p),
    decreases pools@.len(),
{
    let mut pools = pools;
    let ghost orig = pools@;
    if pools.len() == 0 {
        pools.push(p);
        proof {
            assert(pools@ =~= seq![p]);
        }
        pools
    } else if pools[0].currency.id == c.id {
        pools.set(0, p);
        proof {
            assert(pools@ =~= seq![p] + orig.skip(1));
        }
        pools
    } else {
        let first = pools.remove(0);
        proof {
            assert(pools@ =~= orig.skip(1));
        }
        let mut r = set_pool(pools, c, p);
        r.insert(0, first);
        proof {
            assert(r@ =~= seq![first] + spec_set_pool(orig.skip(1), c, p));
        }
        r
    }
}

/// A well-formed write keeps the whole ledger well-formed.
proof fn lemma_set_pool_wf(pools: Seq<Pool>, c: Currency, p: Pool)
    requires
        pools_wf(pools),
        p.wf(),
    ensures
        pools_wf(spec_set_pool(pools, c, p)),
    decreases pools.len(),
{
    let r = spec_set_pool(pools, c, p);
    if pools.len() == 0 {
    } else if pools[0].currency == c {
        assert forall|i: int| 0 <= i < r.len() implies (#[trigger] r[i]).wf() by {
            if i > 0 {
                assert(r[i] == pools[i]);
            }
        }
    } else {
        assert forall|i: int| 0 <= i < pools.skip(1).len() implies (#[trigger] pools.skip(
            1,
        )[i]).wf() by {
            assert(pools.skip(1)[i] == pools[i + 1]);
        }
        lemma_set_pool_wf(pools.skip(1), c, p);
        assert forall|i: int| 0 <= i < r.len() implies (#[trigger] r[i]).wf() by {
            if i > 0 {
                assert(r[i] == spec_set_pool(pools.skip(1), c, p)[i - 1]);
            }
        }
    }
}

/// Reading back a just-written ledger entry yields the written pool.
proof fn lemma_get_set_pool(pools: Seq<Pool>, c: Currency, p: Pool)
    requires
        p.currency == c,
    ensures
        spec_get_pool(spec_set_pool(pools, c, p), c) == p,
    decreases pools.len(),
{
    let r = spec_set_pool(pools, c, p);
    if pools.len() == 0 {
        assert(r[0] == p);
    } else if pools[0].currency == c {
        assert(r[0] == p);
    } else {
        assert(r[0] == pools[0]);
        lemma_get_set_pool(pools.skip(1), c, p);
        assert(r.skip(1) =~= spec_set_pool(pools.skip(1), c, p));
    }
}

/// The side table tracking, per acquisition event, how much of its
/// bought quantity is still unmatched: each entry is well-formed,
/// non-negative, and denominated in the acquisition's bought asset.
pub open spec fn table_wf(table: Seq<(TradeKey, Money)>) -> bool {
    forall|i: int|
        0 <= i < table.len() ==> {
            &&& (#[trigger] table[i]).1.wf()
            &&& table[i].1.amount.num >= 0
            &&& table[i].1.currency == table[i].0.buy.currency
        }
}

/// The side table's entry for `k`: the first match, if any.
pub open spec fn spec_get_remaining(table: Seq<(TradeKey, Money)>, k: TradeKey) -> Option<Money>
    decreases table.len(),
{
    if table.len() == 0 {
        None
    } else if table[0].0 == k {
        Some(table[0].1)
    } else {
        spec_get_remaining(table.skip(1), k)
    }
}

/// The side table with the entry for `k` replaced by `m` (appended when
/// no entry existed).
pub open spec fn spec_set_remaining(table: Seq<(TradeKey, Money)>, k: TradeKey, m: Money) -> Seq<
    (TradeKey, Money),
>
    decreases table.len(),
{
    if table.len() == 0 {
        seq![(k, m)]
    } else if table[0].0 == k {
        seq![(k, m)] + table.skip(1)
    } else {
        seq![table[0]] + spec_set_remaining(table.skip(1), k, m)
    }
}

/// Reads the side table's entry for `k`, exactly as
/// `spec_get_remaining` says; helper recursion from position `i`.
fn get_remaining_from(table: &Vec<(TradeKey, Money)>, i: usize, k: TradeKey) -> (r: Option<Money>)
    requires
        i <= table@.len(),
    ensures
        r == spec_get_remaining(table@.skip(i as int), k),
    decreases table@.len() - i,
{
    if i == table.len() {
        proof {
            assert(table@.skip(i as int) =~= Seq::<(TradeKey, Money)>::empty());
        }
        None
    } else {
        proof {
            assert(table@.skip(i as int)[0] == table@[i as int]);
            assert(table@.skip(i as int).skip(1) =~= table@.skip(i as int + 1));
        }
        let entry = table[i];
        if entry.0 == k {
            Some(entry.1)
        } else {
            get_remaining_from(table, i + 1, k)
        }
    }
}

/// Reads the side table's entry for `k`, if any.
fn get_remaining(table: &Vec<(TradeKey, Money)>, k: TradeKey) -> (r: Option<Money>)
    ensures
        r == spec_get_remaining(table@, k),
{
    proof {
        assert(table@.skip(0) =~= table@);
    }
    get_remaining_from(table, 0, k)
}

/// Writes `m` as the side table's entry for `k`, exactly as
/// `spec_set_remaining` says.
fn set_remaining(table: Vec<(TradeKey, Money)>, k: TradeKey, m: Money) -> (r: Vec<
    (TradeKey, Money),
>)
    ensures
        r@ == spec_set_remaining(table@, k, m),
    decreases table@.len(),
{
    let mut table = table;
    let ghost orig = table@;
    if table.len() == 0 {
        table.push((k, m));
        proof {
            assert(table@ =~= seq![(k, m)]);
        }
        table
    } else if table[0].0 == k {
        table.set(0, (k, m));
        proof {
            assert(table@ =~= seq![(k, m)] + orig.skip(1));
        }
        table
    } else {
        let first = table.remove(0);
        proof {
            assert(table@ =~= orig.skip(1));
        }
        let mut r = set_remaining(table, k, m);
        r.insert(0, first);
        proof {
            assert(r@ =~= seq![first] + spec_set_remaining(orig.skip(1), k, m));
        }
        r
    }
}

/// A well-formed write keeps the side table well-formed.
proof fn lemma_set_remaining_wf(table: Seq<(TradeKey, Money)>, k: TradeKey, m: Money)
    requires
        table_wf(table),
        m.wf(),
        m.amount.num >= 0,
        m.currency == k.buy.currency,
    ensures
        table_wf(spec_set_remaining(table, k, m)),
    decreases table.len(),
{
    let r = spec_set_remaining(table, k, m);
    if table.len() == 0 {
    } else if table[0].0 == k {
        assert forall|i: int| 0 <= i < r.len() implies ((#[trigger] r[i]).1.wf()
            && r[i].1.amount.num >= 0 && r[i].1.currency == r[i].0.buy.currency) by {
            if i > 0 {
                assert(r[i] == table[i]);
            }
        }
    } else {
        assert forall|i: int| 0 <= i < table.skip(1).len() implies ((#[trigger] table.skip(
            1,
        )[i]).1.wf() && table.skip(1)[i].1.amount.num >= 0 && table.skip(1)[i].1.currency
            == table.skip(1)[i].0.buy.currency) by {
            assert(table.skip(1)[i] == table[i + 1]);
        }
        lemma_set_remaining_wf(table.skip(1), k, m);
        assert forall|i: int| 0 <= i < r.len() implies ((#[trigger] r[i]).1.wf()
            && r[i].1.amount.num >= 0 && r[i].1.currency == r[i].0.buy.currency) by {
            if i > 0 {
                assert(r[i] == spec_set_remaining(table.skip(1), k, m)[i - 1]);
            }
        }
    }
}

/// A well-formed read from a well-formed side table.
proof fn lemma_get_remaining_wf(table: Seq<(TradeKey, Money)>, k: TradeKey)
    requires
        table_wf(table),
    ensures
        spec_get_remaining(table, k) matches Some(m) ==> m.wf() && m.amount.num >= 0 && m.currency
            == k.buy.currency,
    decreases table.len(),
{
    if table.len() > 0 && table[0].0 != k {
        assert forall|i: int| 0 <= i < table.skip(1).len() implies ((#[trigger] table.skip(
            1,
        )[i]).1.wf() && table.skip(1)[i].1.amount.num >= 0 && table.skip(1)[i].1.currency
            == table.skip(1)[i].0.buy.currency) by {
            assert(table.skip(1)[i] == table[i + 1]);
        }
        lemma_get_remaining_wf(table.skip(1), k);
    }
}

/// Whether `t` is a bed-and-breakfast candidate for the disposal
/// `disp`: it acquires the disposed asset, on the disposal's calendar
/// date or later, and strictly before 30 days after the disposal's
/// timestamp.
pub open spec fn is_bnb_candidate(t: Trade, disp: Trade) -> bool {
    &&& t.buy.currency == disp.sell.currency
    &&& spec_day_number(t.date_time.date.year as int, t.date_time.date.month as int, t.date_time.date.day as int)
        >= spec_day_number(
        disp.date_time.date.year as int,
        disp.date_time.date.month as int,
        disp.date_time.date.day as int,
    )
    &&& t.date_time.spec_key() < disp.date_time.spec_key() + 30 * 86400
}

/// The sub-sequence of `trades` that are bed-and-breakfast candidates
/// for `disp`, in their original order.
pub open spec fn spec_candidates(trades: Seq<Trade>, disp: Trade) -> Seq<Trade>
    decreases trades.len(),
{
    if trades.len() == 0 {
        Seq::empty()
    } else {
        let prefix = spec_candidates(trades.drop_last(), disp);
        if is_bnb_candidate(trades.last(), disp) {
            prefix.push(trades.last())
        } else {
            prefix
        }
    }
}

/// Collects the bed-and-breakfast candidates for `disp`, exactly as
/// `spec_candidates` says.
fn collect_candidates(trades: &Vec<Trade>, disp: &Trade) -> (r: Vec<Trade>)
    requires
        forall|i: int| 0 <= i < trades@.len() ==> (#[trigger] trades@[i]).wf(),
        disp.wf(),
    ensures
        r@ == spec_candidates(trades@, *disp),
        forall|i: int| 0 <= i < r@.len() ==> (#[trigger] r@[i]).wf(),
        forall|i: int| 0 <= i < r@.len() ==> is_bnb_candidate(#[trigger] r@[i], *disp),
{
    let n = trades.len();
    let mut r: Vec<Trade> = Vec::new();
    let mut i: usize = 0;
    let disp_day = disp.date_time.date.day_number();
    let disp_key = disp.date_time.key();
    proof {
        assert(trades@.subrange(0, 0) =~= Seq::<Trade>::empty());
    }
    while i < n
        invariant
            n == trades@.len(),
            i <= n,
            disp.wf(),
            disp_day == spec_day_number(
                disp.date_time.date.year as int,
                disp.date_time.date.month as int,
                disp.date_time.date.day as int,
            ),
            disp_key == disp.date_time.spec_key(),
            disp_key < 0xf000_0000_0000,
            forall|j: int| 0 <= j < trades@.len() ==> (#[trigger] trades@[j]).wf(),
            r@ == spec_candidates(trades@.subrange(0, i as int), *disp),
            forall|j: int| 0 <= j < r@.len() ==> (#[trigger] r@[j]).wf(),
            forall|j: int| 0 <= j < r@.len() ==> is_bnb_candidate(#[trigger] r@[j], *disp),
        decreases n - i,
    {
        let t = trades[i];
        let t_day = t.date_time.date.day_number();
        let t_key = t.date_time.key();
        if t.buy.currency.id == disp.sell.currency.id && t_day >= disp_day && t_key < disp_key
            + 2592000 {
            r.push(t);
        }
        proof {
            assert(trades@.subrange(0, i as int + 1).drop_last() =~= trades@.subrange(
                0,
                i as int,
            ));
            assert(trades@.subrange(0, i as int + 1).last() == trades@[i as int]);
        }
        i = i + 1;
    }
    proof {
        assert(trades@.subrange(0, n as int) =~= trades@);
    }
    r
}

/// One bed-and-breakfast match attempt of the disposal against the
/// candidate acquisition `fb`.
///
/// The candidate's unmatched quantity is looked up (lazily initialised
/// to its full bought amount); if any remains, the matched quantity is
/// the smaller of that and the disposal's still-unmatched quantity, the
/// candidate's unmatched quantity and the disposal's are both reduced
/// by it, and its cost — valued at the candidate's own resolved price —
/// is added to the running special allowable costs.
pub open spec fn spec_bnb_step(
    table: Seq<(TradeKey, Money)>,
    sell_left: Money,
    costs: Money,
    fb: Trade,
    prices: Seq<Price>,
) -> Result<(Seq<(TradeKey, Money)>, Money, Money), CalcError> {
    let k = fb.spec_key();
    let rem = match spec_get_remaining(table, k) {
        Some(m) => m,
        None => fb.buy,
    };
    let table0 = if spec_get_remaining(table, k) is Some {
        table
    } else {
        spec_set_remaining(table, k, fb.buy)
    };
    if rem.amount.num > 0 {
        if !Rat::cmp_fits(rem.amount, sell_left.amount) {
            Err(CalcError::Overflow)
        } else {
            let within = rem.amount.le_value(sell_left.amount);
            let matched = if within {
                rem
            } else {
                sell_left
            };
            let new_sell_amt = if within {
                Rat::spec_sub(sell_left.amount, rem.amount)
            } else {
                Rat { num: 0, den: 1 }
            };
            if within && !(Rat::sub_fits(sell_left.amount, rem.amount) && new_sell_amt.num
                > i128::MIN) {
                Err(CalcError::Overflow)
            } else {
                let new_sell = Money { amount: new_sell_amt, currency: sell_left.currency };
                let new_rem_amt = Rat::spec_sub(rem.amount, matched.amount);
                if !(Rat::sub_fits(rem.amount, matched.amount) && new_rem_amt.num > i128::MIN) {
                    Err(CalcError::Overflow)
                } else {
                    let table1 = spec_set_remaining(
                        table0,
                        k,
                        Money { amount: new_rem_amt, currency: rem.currency },
                    );
                    match spec_get_price(fb, prices) {
                        None => Err(
                            CalcError::MissingPrice {
                                date_time: fb.date_time,
                                buy: fb.buy,
                                sell: fb.sell,
                            },
                        ),
                        Some(price) => match price.spec_convert(matched, fb.rate) {
                            None => Err(CalcError::Overflow),
                            Some(cost) => {
                                let nc = Rat::spec_add(costs.amount, cost.amount);
                                if Rat::add_fits(costs.amount, cost.amount) && nc.num
                                    > i128::MIN {
                                    Ok(
                                        (
                                            table1,
                                            new_sell,
                                            Money { amount: nc, currency: costs.currency },
                                        ),
                                    )
                                } else {
                                    Err(CalcError::Overflow)
                                }
                            },
                        },
                    }
                }
            }
        }
    } else {
        Ok((table0, sell_left, costs))
    }
}

/// The whole matching pass: the candidates visited in order, each
/// consuming part of the disposal's still-unmatched quantity.
pub open spec fn spec_bnb_pass(
    cands: Seq<Trade>,
    table: Seq<(TradeKey, Money)>,
    sell_left: Money,
    costs: Money,
    prices: Seq<Price>,
) -> Result<(Seq<(TradeKey, Money)>, Money, Money), CalcError>
    decreases cands.len(),
{
    if cands.len() == 0 {
        Ok((table, sell_left, costs))
    } else {
        match spec_bnb_step(table, sell_left, costs, cands[0], prices) {
            Err(e) => Err(e),
            Ok(v) => spec_bnb_pass(cands.skip(1), v.0, v.1, v.2, prices),
        }
    }
}

/// Copies the side table (its entries are plain values).
fn copy_table(t: &Vec<(TradeKey, Money)>) -> (r: Vec<(TradeKey, Money)>)
    ensures
        r@ == t@,
{
    let n = t.len();
    let mut r: Vec<(TradeKey, Money)> = Vec::new();
    let mut i: usize = 0;
    while i < n
        invariant
            n == t@.len(),
            i <= n,
            r@ == t@.subrange(0, i as int),
        decreases n - i,
    {
        r.push(t[i]);
        proof {
            assert(r@ =~= t@.subrange(0, i as int + 1));
        }
        i = i + 1;
    }
    proof {
        assert(t@.subrange(0, n as int) =~= t@);
    }
    r
}

/// Performs one match attempt, exactly as `spec_bnb_step` says, keeping
/// the side table and running amounts well-formed.
fn bnb_step(
    table: &Vec<(TradeKey, Money)>,
    sell_left: Money,
    costs: Money,
    fb: &Trade,
    prices: &Prices,
) -> (r: Result<(Vec<(TradeKey, Money)>, Money, Money), CalcError>)
    requires
        table_wf(table@),
        sell_left.wf(),
        sell_left.amount.num >= 0,
        costs.wf(),
        costs.currency.spec_is_gbp(),
        fb.wf(),
        fb.buy.currency == sell_left.currency,
        prices.wf(),
    ensures
        r matches Ok(v) ==> spec_bnb_step(table@, sell_left, costs, *fb, prices.prices@) == Ok::<
            (Seq<(TradeKey, Money)>, Money, Money),
            CalcError,
        >((v.0@, v.1, v.2)) && table_wf(v.0@) && v.1.wf() && v.1.amount.num >= 0 && v.1.currency
            == sell_left.currency && v.2.wf() && v.2.currency.spec_is_gbp(),
        r matches Err(e) ==> spec_bnb_step(table@, sell_left, costs, *fb, prices.prices@)
            == Err::<(Seq<(TradeKey, Money)>, Money, Money), CalcError>(e),
{
    let k = fb.key();
    proof {
        lemma_get_remaining_wf(table@, k);
        lemma_set_remaining_wf(table@, k, fb.buy);
    }
    let mut tbl = copy_table(table);
    let rem = match get_remaining(&tbl, k) {
        Some(m) => m,
        None => {
            tbl = set_remaining(tbl, k, fb.buy);
            fb.buy
        },
    };
    if rem.amount.is_positive() {
        let within = match rem.amount.checked_le(&sell_left.amount) {
            Some(b) => b,
            None => { return Err(CalcError::Overflow); },
        };
        let matched = if within {
            rem
        } else {
            sell_left
        };
        let new_sell = if within {
            match sell_left.checked_sub(&rem) {
                Some(m) => m,
                None => { return Err(CalcError::Overflow); },
            }
        } else {
            Money::zero(sell_left.currency)
        };
        let new_rem = match rem.checked_sub(&matched) {
            Some(m) => m,
            None => { return Err(CalcError::Overflow); },
        };
        proof {
            lemma_set_remaining_wf(tbl@, k, new_rem);
        }
        let table1 = set_remaining(tbl, k, new_rem);
        let price = match get_price(fb, prices) {
            Some(p) => p,
            None => {
                return Err(
                    CalcError::MissingPrice { date_time: fb.date_time, buy: fb.buy, sell: fb.sell },
                );
            },
        };
        let cost = match price.convert_to_gbp(&matched, &fb.rate) {
            Some(c) => c,
            None => { return Err(CalcError::Overflow); },
        };
        let new_costs = match costs.checked_add(&cost) {
            Some(c) => c,
            None => { return Err(CalcError::Overflow); },
        };
        Ok((table1, new_sell, new_costs))
    } else {
        Ok((tbl, sell_left, costs))
    }
}

/// Runs the whole matching pass, exactly as `spec_bnb_pass` says.
fn bnb_pass(
    cands: &Vec<Trade>,
    table: &Vec<(TradeKey, Money)>,
    sell_left: Money,
    costs: Money,
    prices: &Prices,
) -> (r: Result<(Vec<(TradeKey, Money)>, Money, Money), CalcError>)
    requires
        forall|i: int| 0 <= i < cands@.len() ==> (#[trigger] cands@[i]).wf(),
        forall|i: int|
            0 <= i < cands@.len() ==> (#[trigger] cands@[i]).buy.currency == sell_left.currency,
        table_wf(table@),
        sell_left.wf(),
        sell_left.amount.num >= 0,
        costs.wf(),
        costs.currency.spec_is_gbp(),
        prices.wf(),
    ensures
        r matches Ok(v) ==> spec_bnb_pass(cands@, table@, sell_left, costs, prices.prices@)
            == Ok::<(Seq<(TradeKey, Money)>, Money, Money), CalcError>((v.0@, v.1, v.2))
            && table_wf(v.0@) && v.1.wf() && v.1.amount.num >= 0 && v.1.currency
            == sell_left.currency && v.2.wf() && v.2.currency.spec_is_gbp(),
        r matches Err(e) ==> spec_bnb_pass(cands@, table@, sell_left, costs, prices.prices@)
            == Err::<(Seq<(TradeKey, Money)>, Money, Money), CalcError>(e),
{
    let n = cands.len();
    let mut i: usize = 0;
    let mut tbl = copy_table(table);
    let mut sell = sell_left;
    let mut running = costs;
    proof {
        assert(cands@.skip(0) =~= cands@);
    }
    while i < n
        invariant
            n == cands@.len(),
            i <= n,
            forall|j: int| 0 <= j < cands@.len() ==> (#[trigger] cands@[j]).wf(),
            forall|j: int|
                0 <= j < cands@.len() ==> (#[trigger] cands@[j]).buy.currency
                    == sell_left.currency,
            prices.wf(),
            table_wf(tbl@),
            sell.wf(),
            sell.amount.num >= 0,
            sell.currency == sell_left.currency,
            running.wf(),
            running.currency.spec_is_gbp(),
            spec_bnb_pass(cands@, table@, sell_left, costs, prices.prices@) == spec_bnb_pass(
                cands@.skip(i as int),
                tbl@,
                sell,
                running,
                prices.prices@,
            ),
        decreases n - i,
    {
        let fb = cands[i];
        proof {
            assert(cands@.skip(i as int)[0] == cands@[i as int]);
            assert(cands@.skip(i as int).skip(1) =~= cands@.skip(i as int + 1));
        }
        match bnb_step(&tbl, sell, running, &fb, prices) {
            Ok(v) => {
                tbl = v.0;
                sell = v.1;
                running = v.2;
            },
            Err(e) => { return Err(e); },
        }
        i = i + 1;
    }
    proof {
        assert(cands@.skip(n as int) =~= Seq::<Trade>::empty());
    }
    Ok((tbl, sell, running))
}

/// The zero GBP value.
pub open spec fn spec_zero_gbp() -> Money {
    Money { amount: Rat { num: 0, den: 1 }, currency: Currency { id: GBP_ID } }
}

/// Copies the pool ledger (its entries are plain values).
fn copy_pools(p: &Vec<Pool>) -> (r: Vec<Pool>)
    ensures
        r@ == p@,
{
    let n = p.len();
    let mut r: Vec<Pool> = Vec::new();
    let mut i: usize = 0;
    while i < n
        invariant
            n == p@.len(),
            i <= n,
            r@ == p@.subrange(0, i as int),
        decreases n - i,
    {
        r.push(p[i]);
        proof {
            assert(r@ =~= p@.subrange(0, i as int + 1));
        }
        i = i + 1;
    }
    proof {
        assert(p@.subrange(0, n as int) =~= p@);
    }
    r
}

/// The acquisition half of processing a trade: when the acquired leg is
/// not GBP, the quantity added to the asset's pool is the trade's
/// still-unmatched quantity from the side table (its full bought amount
/// if no disposal has matched against it), valued at the trade's
/// resolved price.
pub open spec fn spec_acquire(
    pools: Seq<Pool>,
    table: Seq<(TradeKey, Money)>,
    trade: Trade,
    price: Price,
) -> Result<(Seq<Pool>, Option<Pool>), CalcError> {
    if trade.buy.currency.spec_is_gbp() {
        Ok((pools, None))
    } else {
        let buy_amount = match spec_get_remaining(table, trade.spec_key()) {
            Some(m) => m,
            None => trade.buy,
        };
        match price.spec_convert(buy_amount, trade.rate) {
            None => Err(CalcError::Overflow),
            Some(costs) => {
                let pool = spec_get_pool(pools, trade.buy.currency);
                match Pool::spec_buy(pool, buy_amount, costs) {
                    None => Err(CalcError::Overflow),
                    Some(pool2) => Ok(
                        (spec_set_pool(pools, trade.buy.currency, pool2), Some(pool2)),
                    ),
                }
            },
        }
    }
}

/// The disposal half of processing a trade: when the sold leg is not
/// GBP, the bed-and-breakfast pass matches it against near-future
/// acquisitions first, and only what remains is sold against the
/// asset's Section 104 pool; the allowable cost is the pool's consumed
/// cost plus the specially matched costs.
pub open spec fn spec_dispose(
    pools: Seq<Pool>,
    table: Seq<(TradeKey, Money)>,
    trade: Trade,
    trades: Seq<Trade>,
    prices: Seq<Price>,
) -> Result<(Seq<Pool>, Seq<(TradeKey, Money)>, Money, Option<Pool>), CalcError> {
    if trade.sell.currency.spec_is_gbp() {
        Ok((pools, table, spec_zero_gbp(), None))
    } else {
        let cands = spec_candidates(trades, trade);
        match spec_bnb_pass(cands, table, trade.sell, spec_zero_gbp(), prices) {
            Err(e) => Err(e),
            Ok(v) => {
                let pool = spec_get_pool(pools, trade.sell.currency);
                match Pool::spec_sell(pool, v.1) {
                    None => Err(CalcError::Overflow),
                    Some(pv) => {
                        let allow = Rat::spec_add(pv.1.amount, v.2.amount);
                        if Rat::add_fits(pv.1.amount, v.2.amount) && allow.num > i128::MIN {
                            Ok(
                                (
                                    spec_set_pool(pools, trade.sell.currency, pv.0),
                                    v.0,
                                    Money { amount: allow, currency: pv.1.currency },
                                    Some(pv.0),
                                ),
                            )
                        } else {
                            Err(CalcError::Overflow)
                        }
                    },
                }
            },
        }
    }
}

/// Processing one trade: resolve its price, apply the acquisition to
/// the pools, apply the disposal (bed-and-breakfast pass, then pool
/// sale), value the three legs in GBP, and record the tax event.
pub open spec fn spec_process_trade(
    pools: Seq<Pool>,
    table: Seq<(TradeKey, Money)>,
    trade: Trade,
    trades: Seq<Trade>,
    prices: Seq<Price>,
) -> Result<(Seq<Pool>, Seq<(TradeKey, Money)>, Disposal), CalcError> {
    match spec_get_price(trade, prices) {
        None => Err(
            CalcError::MissingPrice {
                date_time: trade.date_time,
                buy: trade.buy,
                sell: trade.sell,
            },
        ),
        Some(price) => match spec_acquire(pools, table, trade, price) {
            Err(e) => Err(e),
            Ok(aq) => match spec_dispose(aq.0, table, trade, trades, prices) {
                Err(e) => Err(e),
                Ok(dp) => match price.spec_convert(trade.sell, trade.rate) {
                    None => Err(CalcError::Overflow),
                    Some(sell_value) => match price.spec_convert(trade.buy, trade.rate) {
                        None => Err(CalcError::Overflow),
                        Some(buy_value) => match price.spec_convert(trade.fee, trade.rate) {
                            None => Err(CalcError::Overflow),
                            Some(fee_value) => Ok(
                                (
                                    dp.0,
                                    dp.1,
                                    Disposal {
                                        trade,
                                        tax_year: spec_uk_tax_year(trade.date_time),
                                        buy_value,
                                        sell_value,
                                        fee_value,
                                        price,
                                        allowable_costs: dp.2,
                                        buy_pool: aq.1,
                                        sell_pool: dp.3,
                                    },
                                ),
                            ),
                        },
                    },
                },
            },
        },
    }
}

/// Processes one trade, exactly as `spec_process_trade` says, keeping
/// the ledger and the side table well-formed.
fn process_trade(
    pools: &Vec<Pool>,
    table: &Vec<(TradeKey, Money)>,
    trade: &Trade,
    trades: &Vec<Trade>,
    prices: &Prices,
) -> (r: Result<(Vec<Pool>, Vec<(TradeKey, Money)>, Disposal), CalcError>)
    requires
        pools_wf(pools@),
        table_wf(table@),
        trade.wf(),
        forall|i: int| 0 <= i < trades@.len() ==> (#[trigger] trades@[i]).wf(),
        prices.wf(),
    ensures
        r matches Ok(v) ==> spec_process_trade(pools@, table@, *trade, trades@, prices.prices@)
            == Ok::<(Seq<Pool>, Seq<(TradeKey, Money)>, Disposal), CalcError>((v.0@, v.1@, v.2))
            && pools_wf(v.0@) && table_wf(v.1@) && v.2.wf(),
        r matches Err(e) ==> spec_process_trade(pools@, table@, *trade, trades@, prices.prices@)
            == Err::<(Seq<Pool>, Seq<(TradeKey, Money)>, Disposal), CalcError>(e),
{
    let price = match get_price(trade, prices) {
        Some(p) => p,
        None => {
            return Err(
                CalcError::MissingPrice {
                    date_time: trade.date_time,
                    buy: trade.buy,
                    sell: trade.sell,
                },
            );
        },
    };

    // acquisition: add the still-unmatched quantity to the pool
    let mut new_pools = copy_pools(pools);
    let mut buy_pool_snap: Option<Pool> = None;
    if !trade.buy.currency.is_gbp() {
        proof {
            lemma_get_remaining_wf(table@, trade.spec_key());
        }
        let buy_amount = match get_remaining(table, trade.key()) {
            Some(m) => m,
            None => trade.buy,
        };
        let costs = match price.convert_to_gbp(&buy_amount, &trade.rate) {
            Some(c) => c,
            None => { return Err(CalcError::Overflow); },
        };
        let mut pool = get_pool(&new_pools, trade.buy.currency);
        if !pool.buy(&buy_amount, &costs) {
            return Err(CalcError::Overflow);
        }
        proof {
            lemma_set_pool_wf(pools@, trade.buy.currency, pool);
        }
        new_pools = set_pool(new_pools, trade.buy.currency, pool);
        buy_pool_snap = Some(pool);
    }

    // disposal: bed-and-breakfast pass, then the Section 104 pool
    let mut new_table = copy_table(table);
    let mut sell_pool_snap: Option<Pool> = None;
    let mut allowable = Money::zero(Currency::gbp());
    if !trade.sell.currency.is_gbp() {
        let cands = collect_candidates(trades, trade);
        let pass = match bnb_pass(&cands, table, trade.sell, allowable, prices) {
            Ok(v) => v,
            Err(e) => { return Err(e); },
        };
        let ghost pools_after_acq = new_pools@;
        let mut pool = get_pool(&new_pools, trade.sell.currency);
        let consumed = match pool.sell(pass.1) {
            Some(c) => c,
            None => { return Err(CalcError::Overflow); },
        };
        let allow = match consumed.checked_add(&pass.2) {
            Some(a) => a,
            None => { return Err(CalcError::Overflow); },
        };
        proof {
            lemma_set_pool_wf(pools_after_acq, trade.sell.currency, pool);
        }
        new_pools = set_pool(new_pools, trade.sell.currency, pool);
        sell_pool_snap = Some(pool);
        new_table = pass.0;
        allowable = allow;
    }

    let sell_value = match price.convert_to_gbp(&trade.sell, &trade.rate) {
        Some(v) => v,
        None => { return Err(CalcError::Overflow); },
    };
    let buy_value = match price.convert_to_gbp(&trade.buy, &trade.rate) {
        Some(v) => v,
        None => { return Err(CalcError::Overflow); },
    };
    let fee_value = match price.convert_to_gbp(&trade.fee, &trade.rate) {
        Some(v) => v,
        None => { return Err(CalcError::Overflow); },
    };
    let tax_year = uk_tax_year(trade.date_time);

    Ok(
        (
            new_pools,
            new_table,
            Disposal {
                trade: *trade,
                tax_year,
                buy_value,
                sell_value,
                fee_value,
                price,
                allowable_costs: allowable,
                buy_pool: buy_pool_snap,
                sell_pool: sell_pool_snap,
            },
        ),
    )
}

/// The engine state after the first `n` of the sorted trades: the pool
/// ledger, the unmatched-quantity side table, and the recorded tax
/// events, or the error that aborted the run.
pub open spec fn spec_run(trades: Seq<Trade>, prices: Seq<Price>, n: int) -> Result<
    (Seq<Pool>, Seq<(TradeKey, Money)>, Seq<Disposal>),
    CalcError,
>
    decreases n,
{
    if n <= 0 {
        Ok((Seq::empty(), Seq::empty(), Seq::empty()))
    } else {
        match spec_run(trades, prices, n - 1) {
            Err(e) => Err(e),
            Ok(st) => match spec_process_trade(st.0, st.1, trades[n - 1], trades, prices) {
                Err(e) => Err(e),
                Ok(v) => Ok((v.0, v.1, st.2.push(v.2))),
            },
        }
    }
}

/// Once a run has failed, processing further trades cannot recover it.
proof fn lemma_run_err_persists(trades: Seq<Trade>, prices: Seq<Price>, k: int, n: int)
    requires
        0 <= k <= n,
        spec_run(trades, prices, k) is Err,
    ensures
        spec_run(trades, prices, n) == spec_run(trades, prices, k),
    decreases n - k,
{
    if n > k {
        lemma_run_err_persists(trades, prices, k, n - 1);
    }
}

/// The ordered list of tax events realized in one UK fiscal year.
#[derive(Clone, Debug, PartialEq)]
pub struct TaxYear {
    pub year: u32,
    pub disposals: Vec<Disposal>,
}

/// Disposals grouped by fiscal year, as `(year, disposals)` pairs.
pub open spec fn years_model(v: Seq<TaxYear>) -> Seq<(u32, Seq<Disposal>)> {
    v.map_values(|y: TaxYear| (y.year, y.disposals@))
}

/// `d` appended to its fiscal year's entry (a new entry at the end when
/// the year has none yet).
pub open spec fn spec_push_year(years: Seq<(u32, Seq<Disposal>)>, d: Disposal) -> Seq<
    (u32, Seq<Disposal>),
>
    decreases years.len(),
{
    if years.len() == 0 {
        seq![(d.tax_year, seq![d])]
    } else if years[0].0 == d.tax_year {
        seq![(years[0].0, years[0].1.push(d))] + years.skip(1)
    } else {
        seq![years[0]] + spec_push_year(years.skip(1), d)
    }
}

/// The disposals grouped into fiscal years, in order of appearance.
pub open spec fn spec_group_years(ds: Seq<Disposal>) -> Seq<(u32, Seq<Disposal>)>
    decreases ds.len(),
{
    if ds.len() == 0 {
        Seq::empty()
    } else {
        spec_push_year(spec_group_years(ds.drop_last()), ds.last())
    }
}

/// Appends `d` to its fiscal year's entry, exactly as `spec_push_year`
/// says.
fn push_year(years: Vec<TaxYear>, d: Disposal) -> (r: Vec<TaxYear>)
    ensures
        years_model(r@) == spec_push_year(years_model(years@), d),
    decreases years@.len(),
{
    let mut years = years;
    let ghost orig = years@;
    if years.len() == 0 {
        let mut ds: Vec<Disposal> = Vec::new();
        ds.push(d);
        years.push(TaxYear { year: d.tax_year, disposals: ds });
        proof {
            assert(years_model(years@) =~= spec_push_year(years_model(orig), d));
        }
        years
    } else {
        let mut first = years.remove(0);
        proof {
            assert(years@ =~= orig.skip(1));
            assert(years_model(orig.skip(1)) =~= years_model(orig).skip(1));
        }
        if first.year == d.tax_year {
            first.disposals.push(d);
            let mut r = years;
            r.insert(0, first);
            proof {
                assert(years_model(r@) =~= spec_push_year(years_model(orig), d));
            }
            r
        } else {
            let mut r = push_year(years, d);
            r.insert(0, first);
            proof {
                assert(years_model(r@) =~= seq![(first.year, first.disposals@)] + spec_push_year(
                    years_model(orig).skip(1),
                    d,
                ));
                assert(years_model(r@) =~= spec_push_year(years_model(orig), d));
            }
            r
        }
    }
}

/// The calculation's aggregate output: the time-sorted input trades,
/// the tax events grouped by fiscal year, and the final per-asset pool
/// states.
#[derive(Clone, Debug, PartialEq)]
pub struct TaxReport {
    pub trades: Vec<Trade>,
    pub years: Vec<TaxYear>,
    pub pools: Vec<Pool>,
}

/// The spec-level value of a report.
pub struct ReportModel {
    pub trades: Seq<Trade>,
    pub years: Seq<(u32, Seq<Disposal>)>,
    pub pools: Seq<Pool>,
}

impl TaxReport {
    /// The report as a spec-level value.
    pub open spec fn model(self) -> ReportModel {
        ReportModel { trades: self.trades@, years: years_model(self.years@), pools: self.pools@ }
    }

    /// Well-formed: every trade, recorded tax event and pool is.
    pub open spec fn wf(self) -> bool {
        &&& forall|i: int| 0 <= i < self.trades@.len() ==> (#[trigger] self.trades@[i]).wf()
        &&& forall|i: int, j: int|
            0 <= i < self.years@.len() && 0 <= j < self.years@[i].disposals@.len() ==> (
            #[trigger] self.years@[i].disposals@[j]).wf()
        &&& pools_wf(self.pools@)
    }

    /// Groups the computed tax events into fiscal years.
    pub fn new(trades: Vec<Trade>, gains: Vec<Disposal>, pools: Vec<Pool>) -> (r: TaxReport)
        requires
            forall|i: int| 0 <= i < trades@.len() ==> (#[trigger] trades@[i]).wf(),
            forall|i: int| 0 <= i < gains@.len() ==> (#[trigger] gains@[i]).wf(),
            pools_wf(pools@),
        ensures
            r.model() == (ReportModel {
                trades: trades@,
                years: spec_group_years(gains@),
                pools: pools@,
            }),
            r.wf(),
    {
        let n = gains.len();
        let mut years: Vec<TaxYear> = Vec::new();
        let mut i: usize = 0;
        proof {
            assert(gains@.subrange(0, 0) =~= Seq::<Disposal>::empty());
            assert(years_model(years@) =~= spec_group_years(gains@.subrange(0, 0)));
        }
        while i < n
            invariant
                n == gains@.len(),
                i <= n,
                forall|j: int| 0 <= j < gains@.len() ==> (#[trigger] gains@[j]).wf(),
                years_model(years@) == spec_group_years(gains@.subrange(0, i as int)),
                forall|a: int, b: int|
                    0 <= a < years@.len() && 0 <= b < years@[a].disposals@.len() ==> (
                    #[trigger] years@[a].disposals@[b]).wf(),
            decreases n - i,
        {
            let ghost prev = years_model(years@);
            years = push_year(years, gains[i]);
            proof {
                assert(gains@.subrange(0, i as int + 1).drop_last() =~= gains@.subrange(
                    0,
                    i as int,
                ));
                assert(gains@.subrange(0, i as int + 1).last() == gains@[i as int]);
                lemma_push_year_wf(prev, gains@[i as int], years@);
            }
            i = i + 1;
        }
        proof {
            assert(gains@.subrange(0, n as int) =~= gains@);
        }
        TaxReport { trades, years, pools }
    }
}

/// After a push, every disposal held in the year vector was either held
/// before or is the pushed one.
proof fn lemma_push_year_wf(prev: Seq<(u32, Seq<Disposal>)>, d: Disposal, years: Seq<TaxYear>)
    requires
        years_model(years) == spec_push_year(prev, d),
        forall|a: int, b: int|
            0 <= a < prev.len() && 0 <= b < prev[a].1.len() ==> (#[trigger] prev[a].1[b]).wf(),
        d.wf(),
    ensures
        forall|a: int, b: int|
            0 <= a < years.len() && 0 <= b < years[a].disposals@.len() ==> (
            #[trigger] years[a].disposals@[b]).wf(),
{
    lemma_push_year_elems(prev, d);
    assert forall|a: int, b: int|
        0 <= a < years.len() && 0 <= b < years[a].disposals@.len() implies (
    #[trigger] years[a].disposals@[b]).wf() by {
        assert(years_model(years)[a] == (years[a].year, years[a].disposals@));
        assert(spec_push_year(prev, d)[a].1[b] == years[a].disposals@[b]);
    }
}

/// Structure of `spec_push_year`: each disposal in the result was in
/// the input or is the pushed one.
proof fn lemma_push_year_elems(prev: Seq<(u32, Seq<Disposal>)>, d: Disposal)
    ensures
        forall|a: int, b: int|
            0 <= a < spec_push_year(prev, d).len() && 0 <= b < spec_push_year(prev, d)[a].1.len()
                ==> (#[trigger] spec_push_year(prev, d)[a].1[b] == d || exists|x: int, y: int|
                0 <= x < prev.len() && 0 <= y < prev[x].1.len() && #[trigger] prev[x].1[y]
                    == spec_push_year(prev, d)[a].1[b]),
    decreases prev.len(),
{
    let r = spec_push_year(prev, d);
    if prev.len() == 0 {
        assert forall|a: int, b: int| 0 <= a < r.len() && 0 <= b < r[a].1.len()
            implies (#[trigger] r[a].1[b] == d || exists|x: int, y: int|
            0 <= x < prev.len() && 0 <= y < prev[x].1.len() && #[trigger] prev[x].1[y]
                == r[a].1[b]) by {
            assert(r[0].1 == seq![d]);
        }
    } else if prev[0].0 == d.tax_year {
        assert forall|a: int, b: int| 0 <= a < r.len() && 0 <= b < r[a].1.len()
            implies (#[trigger] r[a].1[b] == d || exists|x: int, y: int|
            0 <= x < prev.len() && 0 <= y < prev[x].1.len() && #[trigger] prev[x].1[y]
                == r[a].1[b]) by {
            if a == 0 {
                if b < prev[0].1.len() {
                    assert(prev[0].1[b] == r[0].1[b]);
                } else {
                    assert(r[0].1[b] == d);
                }
            } else {
                assert(r[a] == prev[a]);
                assert(prev[a].1[b] == r[a].1[b]);
            }
        }
    } else {
        lemma_push_year_elems(prev.skip(1), d);
        assert forall|a: int, b: int| 0 <= a < r.len() && 0 <= b < r[a].1.len()
            implies (#[trigger] r[a].1[b] == d || exists|x: int, y: int|
            0 <= x < prev.len() && 0 <= y < prev[x].1.len() && #[trigger] prev[x].1[y]
                == r[a].1[b]) by {
            if a == 0 {
                assert(r[0] == prev[0]);
                assert(prev[0].1[b] == r[0].1[b]);
            } else {
                let rr = spec_push_year(prev.skip(1), d);
                assert(r[a] == rr[a - 1]);
                if rr[a - 1].1[b] != d {
                    let (x, y): (int, int) = choose|x: int, y: int|
                        0 <= x < prev.skip(1).len() && 0 <= y < prev.skip(1)[x].1.len()
                            && #[trigger] prev.skip(1)[x].1[y] == rr[a - 1].1[b];
                    assert(prev[x + 1].1[y] == rr[a - 1].1[b]);
                }
            }
        }
    }
}

/// The whole calculation as a spec-level value: the trades stably
/// sorted by timestamp, streamed once through the engine, and the
/// resulting tax events grouped into fiscal years. Because this is a
/// function of the input sequences alone, two runs of `calculate` on
/// identical input produce identical reports.
pub open spec fn spec_calculate(trades: Seq<Trade>, prices: Seq<Price>) -> Result<
    ReportModel,
    CalcError,
> {
    let sorted = sort_by_time(trades);
    match spec_run(sorted, prices, sorted.len() as int) {
        Err(e) => Err(e),
        Ok(st) => Ok(
            ReportModel { trades: sorted, years: spec_group_years(st.2), pools: st.0 },
        ),
    }
}

/// Computes the tax report for a set of trades against a price index,
/// exactly as `spec_calculate` says. The run fails as a whole when a
/// required historical price is missing or an exact intermediate value
/// does not fit the rational representation; there is no partial
/// report.
pub fn calculate(trades: Vec<Trade>, prices: &Prices) -> (r: Result<TaxReport, CalcError>)
    requires
        forall|i: int| 0 <= i < trades@.len() ==> (#[trigger] trades@[i]).wf(),
        prices.wf(),
    ensures
        r matches Ok(rep) ==> Ok::<ReportModel, CalcError>(rep.model()) == spec_calculate(
            trades@,
            prices.prices@,
        ) && rep.wf(),
        r matches Err(e) ==> spec_calculate(trades@, prices.prices@) == Err::<
            ReportModel,
            CalcError,
        >(e),
{
    let sorted = sort_trades(trades);
    let n = sorted.len();
    let mut pools: Vec<Pool> = Vec::new();
    let mut table: Vec<(TradeKey, Money)> = Vec::new();
    let mut disposals: Vec<Disposal> = Vec::new();
    let mut i: usize = 0;
    proof {
        assert(pools@ =~= Seq::<Pool>::empty());
        assert(table@ =~= Seq::<(TradeKey, Money)>::empty());
        assert(disposals@ =~= Seq::<Disposal>::empty());
    }
    while i < n
        invariant
            n == sorted@.len(),
            i <= n,
            sorted@ == sort_by_time(trades@),
            forall|j: int| 0 <= j < sorted@.len() ==> (#[trigger] sorted@[j]).wf(),
            prices.wf(),
            pools_wf(pools@),
            table_wf(table@),
            forall|j: int| 0 <= j < disposals@.len() ==> (#[trigger] disposals@[j]).wf(),
            spec_run(sorted@, prices.prices@, i as int) == Ok::<
                (Seq<Pool>, Seq<(TradeKey, Money)>, Seq<Disposal>),
                CalcError,
            >((pools@, table@, disposals@)),
        decreases n - i,
    {
        let trade = sorted[i];
        match process_trade(&pools, &table, &trade, &sorted, prices) {
            Ok(v) => {
                pools = v.0;
                table = v.1;
                disposals.push(v.2);
            },
            Err(e) => {
                proof {
                    assert(spec_run(sorted@, prices.prices@, i as int + 1) == Err::<
                        (Seq<Pool>, Seq<(TradeKey, Money)>, Seq<Disposal>),
                        CalcError,
                    >(e));
                    lemma_run_err_persists(sorted@, prices.prices@, i as int + 1, n as int);
                }
                return Err(e);
            },
        }
        i = i + 1;
    }
    let report = TaxReport::new(sorted, disposals, pools);
    Ok(report)
}

/// Stable insertion position for a tax event ordered by its trade's
/// timestamp.
pub open spec fn insert_disposal_by_time(s: Seq<Disposal>, d: Disposal) -> Seq<Disposal>
    decreases s.len(),
{
    if s.len() > 0 && s.last().trade.date_time.spec_key() > d.trade.date_time.spec_key() {
        insert_disposal_by_time(s.drop_last(), d).push(s.last())
    } else {
        s.push(d)
    }
}

/// Tax events stably sorted by ascending trade timestamp.
pub open spec fn sort_disposals_by_time(s: Seq<Disposal>) -> Seq<Disposal>
    decreases s.len(),
{
    if s.len() == 0 {
        Seq::empty()
    } else {
        insert_disposal_by_time(sort_disposals_by_time(s.drop_last()), s.last())
    }
}

/// Inserts a tax event at its stable chronological position.
fn insert_disposal(sorted: Vec<Disposal>, d: Disposal) -> (r: Vec<Disposal>)
    requires
        forall|i: int| 0 <= i < sorted@.len() ==> (#[trigger] sorted@[i]).wf(),
        d.wf(),
    ensures
        r@ == insert_disposal_by_time(sorted@, d),
        forall|i: int| 0 <= i < r@.len() ==> (#[trigger] r@[i]).wf(),
    decreases sorted@.len(),
{
    let n = sorted.len();
    let mut sorted = sorted;
    let ghost orig = sorted@;
    if n > 0 {
        let last = sorted[n - 1];
        if last.trade.date_time.key() > d.trade.date_time.key() {
            sorted.pop();
            proof {
                assert(sorted@ =~= orig.drop_last());
            }
            let mut r = insert_disposal(sorted, d);
            r.push(last);
            return r;
        }
    }
    sorted.push(d);
    sorted
}

/// Sorts tax events by ascending trade timestamp.
fn sort_disposals(ds: Vec<Disposal>) -> (r: Vec<Disposal>)
    requires
        forall|i: int| 0 <= i < ds@.len() ==> (#[trigger] ds@[i]).wf(),
    ensures
        r@ == sort_disposals_by_time(ds@),
        forall|i: int| 0 <= i < r@.len() ==> (#[trigger] r@[i]).wf(),
    decreases ds@.len(),
{
    let mut ds = ds;
    let ghost orig = ds@;
    if ds.len() == 0 {
        proof {
            assert(ds@ =~= Seq::<Disposal>::empty());
        }
        ds
    } else {
        let last = match ds.pop() {
            Some(x) => x,
            None => { return ds; },
        };
        proof {
            assert(ds@ =~= orig.drop_last());
        }
        let sorted = sort_disposals(ds);
        insert_disposal(sorted, last)
    }
}

/// The disposals of the fiscal year `y`: the first entry with that
/// year, or nothing when the year recorded none.
pub open spec fn spec_find_year(years: Seq<TaxYear>, y: u32) -> Seq<Disposal>
    decreases years.len(),
{
    if years.len() == 0 {
        Seq::empty()
    } else if years[0].year == y {
        years[0].disposals@
    } else {
        spec_find_year(years.skip(1), y)
    }
}

/// All recorded disposals, in the years' stored order.
pub open spec fn spec_all_years(years: Seq<TaxYear>) -> Seq<Disposal>
    decreases years.len(),
{
    if years.len() == 0 {
        Seq::empty()
    } else {
        years[0].disposals@ + spec_all_years(years.skip(1))
    }
}

/// The disposals a `gains` query selects, before sorting.
pub open spec fn spec_selected_disposals(years: Seq<TaxYear>, year: Option<u32>) -> Seq<Disposal> {
    match year {
        Some(y) => spec_find_year(years, y),
        None => spec_all_years(years),
    }
}

/// Copies a list of tax events (they are plain values).
fn copy_disposals(ds: &Vec<Disposal>) -> (r: Vec<Disposal>)
    ensures
        r@ == ds@,
{
    let n = ds.len();
    let mut r: Vec<Disposal> = Vec::new();
    let mut i: usize = 0;
    while i < n
        invariant
            n == ds@.len(),
            i <= n,
            r@ == ds@.subrange(0, i as int),
        decreases n - i,
    {
        r.push(ds[i]);
        proof {
            assert(r@ =~= ds@.subrange(0, i as int + 1));
        }
        i = i + 1;
    }
    proof {
        assert(ds@.subrange(0, n as int) =~= ds@);
    }
    r
}

/// Reads the disposals of year `y`, exactly as `spec_find_year` says;
/// helper recursion from position `i`.
fn find_year_from(years: &Vec<TaxYear>, i: usize, y: u32) -> (r: Vec<Disposal>)
    requires
        i <= years@.len(),
    ensures
        r@ == spec_find_year(years@.skip(i as int), y),
    decreases years@.len() - i,
{
    if i == years.len() {
        proof {
            assert(years@.skip(i as int) =~= Seq::<TaxYear>::empty());
        }
        Vec::new()
    } else {
        proof {
            assert(years@.skip(i as int)[0] == years@[i as int]);
            assert(years@.skip(i as int).skip(1) =~= years@.skip(i as int + 1));
        }
        if years[i].year == y {
            copy_disposals(&years[i].disposals)
        } else {
            find_year_from(years, i + 1, y)
        }
    }
}

/// A queryable view over a report, filtered to one fiscal year or all
/// years, sorted ascending by trade timestamp.
#[derive(Clone, Debug, PartialEq)]
pub struct Gains {
    pub year: Option<u32>,
    pub gains: Vec<Disposal>,
}

/// The exact GBP sum of the selected disposals' proceeds, accumulated
/// left to right from zero; `None` on arithmetic overflow.
pub open spec fn spec_total_proceeds(s: Seq<Disposal>) -> Option<Money>
    decreases s.len(),
{
    if s.len() == 0 {
        Some(spec_zero_gbp())
    } else {
        match spec_total_proceeds(s.drop_last()) {
            None => None,
            Some(acc) => {
                let a = Rat::spec_add(acc.amount, s.last().sell_value.amount);
                if Rat::add_fits(acc.amount, s.last().sell_value.amount) && a.num > i128::MIN {
                    Some(Money { amount: a, currency: acc.currency })
                } else {
                    None
                }
            },
        }
    }
}

/// The exact GBP sum of the selected disposals' allowable costs.
pub open spec fn spec_total_allowable_costs(s: Seq<Disposal>) -> Option<Money>
    decreases s.len(),
{
    if s.len() == 0 {
        Some(spec_zero_gbp())
    } else {
        match spec_total_allowable_costs(s.drop_last()) {
            None => None,
            Some(acc) => {
                let a = Rat::spec_add(acc.amount, s.last().allowable_costs.amount);
                if Rat::add_fits(acc.amount, s.last().allowable_costs.amount) && a.num
                    > i128::MIN {
                    Some(Money { amount: a, currency: acc.currency })
                } else {
                    None
                }
            },
        }
    }
}

/// The exact GBP sum of the selected disposals' gains
/// (`proceeds - allowable costs - fee` each).
pub open spec fn spec_total_gain(s: Seq<Disposal>) -> Option<Money>
    decreases s.len(),
{
    if s.len() == 0 {
        Some(spec_zero_gbp())
    } else {
        match spec_total_gain(s.drop_last()) {
            None => None,
            Some(acc) => match s.last().spec_gain() {
                None => None,
                Some(g) => {
                    let a = Rat::spec_add(acc.amount, g.amount);
                    if Rat::add_fits(acc.amount, g.amount) && a.num > i128::MIN {
                        Some(Money { amount: a, currency: acc.currency })
                    } else {
                        None
                    }
                },
            },
        }
    }
}

impl Gains {
    /// Well-formed: every selected disposal is.
    pub open spec fn wf(self) -> bool {
        forall|i: int| 0 <= i < self.gains@.len() ==> (#[trigger] self.gains@[i]).wf()
    }

    /// How many disposals the query selected.
    pub fn len(&self) -> (r: usize)
        ensures
            r == self.gains@.len(),
    {
        self.gains.len()
    }

    /// Sums the proceeds, exactly as `spec_total_proceeds` says.
    pub fn total_proceeds(&self) -> (r: Option<Money>)
        requires
            self.wf(),
        ensures
            r == spec_total_proceeds(self.gains@),
    {
        let n = self.gains.len();
        let mut acc = Money::zero(Currency::gbp());
        let mut i: usize = 0;
        proof {
            assert(self.gains@.subrange(0, 0) =~= Seq::<Disposal>::empty());
        }
        while i < n
            invariant
                n == self.gains@.len(),
                i <= n,
                forall|j: int| 0 <= j < self.gains@.len() ==> (#[trigger] self.gains@[j]).wf(),
                acc.wf(),
                acc.currency.spec_is_gbp(),
                Some(acc) == spec_total_proceeds(self.gains@.subrange(0, i as int)),
            decreases n - i,
        {
            let next = match acc.checked_add(&self.gains[i].sell_value) {
                Some(v) => v,
                None => {
                    proof {
                        assert(self.gains@.subrange(0, i as int + 1).drop_last()
                            =~= self.gains@.subrange(0, i as int));
                        assert(self.gains@.subrange(0, i as int + 1).last() == self.gains@[
                            i as int
                        ]);
                        lemma_total_proceeds_none(self.gains@, i as int + 1);
                    }
                    return None;
                },
            };
            acc = next;
            proof {
                assert(self.gains@.subrange(0, i as int + 1).drop_last() =~= self.gains@.subrange(
                    0,
                    i as int,
                ));
                assert(self.gains@.subrange(0, i as int + 1).last() == self.gains@[i as int]);
            }
            i = i + 1;
        }
        proof {
            assert(self.gains@.subrange(0, n as int) =~= self.gains@);
        }
        Some(acc)
    }

    /// Sums the allowable costs, exactly as
    /// `spec_total_allowable_costs` says.
    pub fn total_allowable_costs(&self) -> (r: Option<Money>)
        requires
            self.wf(),
        ensures
            r == spec_total_allowable_costs(self.gains@),
    {
        let n = self.gains.len();
        let mut acc = Money::zero(Currency::gbp());
        let mut i: usize = 0;
        proof {
            assert(self.gains@.subrange(0, 0) =~= Seq::<Disposal>::empty());
        }
        while i < n
            invariant
                n == self.gains@.len(),
                i <= n,
                forall|j: int| 0 <= j < self.gains@.len() ==> (#[trigger] self.gains@[j]).wf(),
                acc.wf(),
                acc.currency.spec_is_gbp(),
                Some(acc) == spec_total_allowable_costs(self.gains@.subrange(0, i as int)),
            decreases n - i,
        {
            let next = match acc.checked_add(&self.gains[i].allowable_costs) {
                Some(v) => v,
                None => {
                    proof {
                        assert(self.gains@.subrange(0, i as int + 1).drop_last()
                            =~= self.gains@.subrange(0, i as int));
                        assert(self.gains@.subrange(0, i as int + 1).last() == self.gains@[
                            i as int
                        ]);
                        lemma_total_allowable_none(self.gains@, i as int + 1);
                    }
                    return None;
                },
            };
            acc = next;
            proof {
                assert(self.gains@.subrange(0, i as int + 1).drop_last() =~= self.gains@.subrange(
                    0,
                    i as int,
                ));
                assert(self.gains@.subrange(0, i as int + 1).last() == self.gains@[i as int]);
            }
            i = i + 1;
        }
        proof {
            assert(self.gains@.subrange(0, n as int) =~= self.gains@);
        }
        Some(acc)
    }

    /// Sums the gains, exactly as `spec_total_gain` says.
    pub fn total_gain(&self) -> (r: Option<Money>)
        requires
            self.wf(),
        ensures
            r == spec_total_gain(self.gains@),
    {
        let n = self.gains.len();
        let mut acc = Money::zero(Currency::gbp());
        let mut i: usize = 0;
        proof {
            assert(self.gains@.subrange(0, 0) =~= Seq::<Disposal>::empty());
        }
        while i < n
            invariant
                n == self.gains@.len(),
                i <= n,
                forall|j: int| 0 <= j < self.gains@.len() ==> (#[trigger] self.gains@[j]).wf(),
                acc.wf(),
                acc.currency.spec_is_gbp(),
                Some(acc) == spec_total_gain(self.gains@.subrange(0, i as int)),
            decreases n - i,
        {
            proof {
                assert(self.gains@.subrange(0, i as int + 1).drop_last() =~= self.gains@.subrange(
                    0,
                    i as int,
                ));
                assert(self.gains@.subrange(0, i as int + 1).last() == self.gains@[i as int]);
            }
            let g = match self.gains[i].gain() {
                Some(g) => g,
                None => {
                    proof {
                        lemma_total_gain_none(self.gains@, i as int + 1);
                    }
                    return None;
                },
            };
            let next = match acc.checked_add(&g) {
                Some(v) => v,
                None => {
                    proof {
                        lemma_total_gain_none(self.gains@, i as int + 1);
                    }
                    return None;
                },
            };
            acc = next;
            i = i + 1;
        }
        proof {
            assert(self.gains@.subrange(0, n as int) =~= self.gains@);
        }
        Some(acc)
    }
}

/// Once a prefix sum has overflowed, the whole sum does.
proof fn lemma_total_proceeds_none(s: Seq<Disposal>, k: int)
    requires
        0 <= k <= s.len(),
        spec_total_proceeds(s.subrange(0, k)) is None,
    ensures
        spec_total_proceeds(s) is None,
    decreases s.len() - k,
{
    if k < s.len() {
        assert(s.subrange(0, k + 1).drop_last() =~= s.subrange(0, k));
        lemma_total_proceeds_none(s, k + 1);
    } else {
        assert(s.subrange(0, k) =~= s);
    }
}

/// Once a prefix sum has overflowed, the whole sum does.
proof fn lemma_total_allowable_none(s: Seq<Disposal>, k: int)
    requires
        0 <= k <= s.len(),
        spec_total_allowable_costs(s.subrange(0, k)) is None,
    ensures
        spec_total_allowable_costs(s) is None,
    decreases s.len() - k,
{
    if k < s.len() {
        assert(s.subrange(0, k + 1).drop_last() =~= s.subrange(0, k));
        lemma_total_allowable_none(s, k + 1);
    } else {
        assert(s.subrange(0, k) =~= s);
    }
}

/// Once a prefix sum has overflowed, the whole sum does.
proof fn lemma_total_gain_none(s: Seq<Disposal>, k: int)
    requires
        0 <= k <= s.len(),
        spec_total_gain(s.subrange(0, k)) is None,
    ensures
        spec_total_gain(s) is None,
    decreases s.len() - k,
{
    if k < s.len() {
        assert(s.subrange(0, k + 1).drop_last() =~= s.subrange(0, k));
        lemma_total_gain_none(s, k + 1);
    } else {
        assert(s.subrange(0, k) =~= s);
    }
}

impl TaxReport {
    /// The disposals of the given fiscal year (all years when omitted),
    /// sorted ascending by trade timestamp.
    pub fn gains(&self, year: Option<u32>) -> (r: Gains)
        requires
            self.wf(),
        ensures
            r.year == year,
            r.gains@ == sort_disposals_by_time(spec_selected_disposals(self.years@, year)),
            r.wf(),
    {
        let selected: Vec<Disposal> = match year {
            Some(y) => {
                proof {
                    assert(self.years@.skip(0) =~= self.years@);
                }
                find_year_from(&self.years, 0, y)
            },
            None => {
                let n = self.years.len();
                let mut acc: Vec<Disposal> = Vec::new();
                let mut i: usize = 0;
                proof {
                    assert(acc@ =~= spec_all_years(self.years@.skip(0)).subrange(0, 0));
                }
                let ghost whole = spec_all_years(self.years@);
                proof {
                    assert(self.years@.skip(0) =~= self.years@);
                    assert(acc@ =~= whole.subrange(0, 0));
                }
                while i < n
                    invariant
                        n == self.years@.len(),
                        i <= n,
                        whole == spec_all_years(self.years@),
                        acc@ + spec_all_years(self.years@.skip(i as int)) == whole,
                    decreases n - i,
                {
                    let mut chunk = copy_disposals(&self.years[i].disposals);
                    let ghost acc_before = acc@;
                    acc.append(&mut chunk);
                    proof {
                        assert(self.years@.skip(i as int)[0] == self.years@[i as int]);
                        assert(self.years@.skip(i as int).skip(1) =~= self.years@.skip(
                            i as int + 1,
                        ));
                        assert(acc@ + spec_all_years(self.years@.skip(i as int + 1)) =~= whole);
                    }
                    i = i + 1;
                }
                proof {
                    assert(spec_all_years(self.years@.skip(n as int)) =~= Seq::<
                        Disposal,
                    >::empty());
                    assert(acc@ =~= whole);
                }
                acc
            },
        };
        proof {
            assert(self.years@.skip(0) =~= self.years@);
            assert(selected@ == spec_selected_disposals(self.years@, year));
            lemma_selected_disposals_wf(self.years@, year);
        }
        let sorted = sort_disposals(selected);
        Gains { year, gains: sorted }
    }
}

/// Disposals selected from a well-formed report are well-formed.
proof fn lemma_selected_disposals_wf(years: Seq<TaxYear>, year: Option<u32>)
    requires
        forall|a: int, b: int|
            0 <= a < years.len() && 0 <= b < years[a].disposals@.len() ==> (
            #[trigger] years[a].disposals@[b]).wf(),
    ensures
        forall|i: int|
            0 <= i < spec_selected_disposals(years, year).len() ==> (
            #[trigger] spec_selected_disposals(years, year)[i]).wf(),
{
    match year {
        Some(y) => {
            lemma_find_year_wf(years, y);
        },
        None => {
            lemma_all_years_wf(years);
        },
    }
}

/// Each disposal of a found year is one of the report's.
proof fn lemma_find_year_wf(years: Seq<TaxYear>, y: u32)
    requires
        forall|a: int, b: int|
            0 <= a < years.len() && 0 <= b < years[a].disposals@.len() ==> (
            #[trigger] years[a].disposals@[b]).wf(),
    ensures
        forall|i: int|
            0 <= i < spec_find_year(years, y).len() ==> (#[trigger] spec_find_year(years, y)[
                i
            ]).wf(),
    decreases years.len(),
{
    if years.len() > 0 && years[0].year != y {
        assert forall|a: int, b: int|
            0 <= a < years.skip(1).len() && 0 <= b < years.skip(1)[a].disposals@.len() implies (
        #[trigger] years.skip(1)[a].disposals@[b]).wf() by {
            assert(years.skip(1)[a] == years[a + 1]);
        }
        lemma_find_year_wf(years.skip(1), y);
        assert(spec_find_year(years, y) == spec_find_year(years.skip(1), y));
    } else if years.len() > 0 {
        assert forall|i: int| 0 <= i < spec_find_year(years, y).len() implies (
        #[trigger] spec_find_year(years, y)[i]).wf() by {
            assert(years[0].disposals@[i].wf());
        }
    }
}

/// Each disposal of the concatenation is one of the report's.
proof fn lemma_all_years_wf(years: Seq<TaxYear>)
    requires
        forall|a: int, b: int|
            0 <= a < years.len() && 0 <= b < years[a].disposals@.len() ==> (
            #[trigger] years[a].disposals@[b]).wf(),
    ensures
        forall|i: int|
            0 <= i < spec_all_years(years).len() ==> (#[trigger] spec_all_years(years)[i]).wf(),
    decreases years.len(),
{
    if years.len() > 0 {
        assert forall|a: int, b: int|
            0 <= a < years.skip(1).len() && 0 <= b < years.skip(1)[a].disposals@.len() implies (
        #[trigger] years.skip(1)[a].disposals@[b]).wf() by {
            assert(years.skip(1)[a] == years[a + 1]);
        }
        lemma_all_years_wf(years.skip(1));
        assert forall|i: int| 0 <= i < spec_all_years(years).len() implies (
        #[trigger] spec_all_years(years)[i]).wf() by {
            if i < years[0].disposals@.len() {
                assert(spec_all_years(years)[i] == years[0].disposals@[i]);
            } else {
                assert(spec_all_years(years)[i] == spec_all_years(years.skip(1))[i
                    - years[0].disposals@.len()]);
            }
        }
    }
}

/// Reading back a just-written side-table entry yields the written
/// quantity.
proof fn lemma_get_set_remaining(table: Seq<(TradeKey, Money)>, k: TradeKey, m: Money)
    ensures
        spec_get_remaining(spec_set_remaining(table, k, m), k) == Some(m),
    decreases table.len(),
{
    let r = spec_set_remaining(table, k, m);
    if table.len() == 0 {
        assert(r[0] == (k, m));
    } else if table[0].0 == k {
        assert(r[0] == (k, m));
    } else {
        assert(r[0] == table[0]);
        lemma_get_set_remaining(table.skip(1), k, m);
        assert(r.skip(1) =~= spec_set_remaining(table.skip(1), k, m));
    }
}

/// Order independence law: two trade lists with the same contents and
/// pairwise-distinct timestamps yield the same report, whatever order
/// they arrive in — the engine re-sorts them to the one time-sorted
/// arrangement before any processing.
pub proof fn lemma_order_independence(t1: Seq<Trade>, t2: Seq<Trade>, prices: Seq<Price>)
    requires
        t1.to_multiset() == t2.to_multiset(),
        distinct_times(t1),
    ensures
        spec_calculate(t1, prices) == spec_calculate(t2, prices),
{
    lemma_sort_by_time(t1);
    lemma_sort_by_time(t2);
    lemma_distinct_times_permuted(t1, sort_by_time(t1));
    lemma_sorted_permutation_unique(sort_by_time(t1), sort_by_time(t2));
}

/// Every bed-and-breakfast candidate is one of the trades it was
/// selected from.
proof fn lemma_candidates_from(trades: Seq<Trade>, disp: Trade)
    ensures
        forall|i: int|
            0 <= i < spec_candidates(trades, disp).len() ==> exists|j: int|
                0 <= j < trades.len() && trades[j] == #[trigger] spec_candidates(trades, disp)[i],
    decreases trades.len(),
{
    let c = spec_candidates(trades, disp);
    if trades.len() > 0 {
        lemma_candidates_from(trades.drop_last(), disp);
        let cp = spec_candidates(trades.drop_last(), disp);
        assert forall|i: int| 0 <= i < c.len() implies exists|j: int|
            0 <= j < trades.len() && trades[j] == #[trigger] c[i] by {
            if i < cp.len() {
                let j = choose|j: int| 0 <= j < trades.drop_last().len() && trades.drop_last()[j]
                    == cp[i];
                assert(trades[j] == c[i]);
            } else {
                assert(c[i] == trades.last());
                assert(trades[trades.len() - 1] == c[i]);
            }
        }
    }
}

/// Bed-and-breakfast precedence, order part: a disposal's candidate
/// acquisitions are visited in ascending chronological order whenever
/// the trade list is time-sorted — so earlier replacement purchases are
/// consumed before later ones.
pub proof fn lemma_candidates_chronological(trades: Seq<Trade>, disp: Trade)
    requires
        time_sorted(trades),
    ensures
        time_sorted(spec_candidates(trades, disp)),
    decreases trades.len(),
{
    let c = spec_candidates(trades, disp);
    if trades.len() > 0 {
        assert(time_sorted(trades.drop_last()));
        lemma_candidates_chronological(trades.drop_last(), disp);
        lemma_candidates_from(trades.drop_last(), disp);
        let cp = spec_candidates(trades.drop_last(), disp);
        if is_bnb_candidate(trades.last(), disp) {
            assert forall|i: int, j: int| 0 <= i <= j < c.len() implies c[i].date_time.spec_key()
                <= c[j].date_time.spec_key() by {
                if j < cp.len() {
                    assert(c[i] == cp[i] && c[j] == cp[j]);
                } else {
                    assert(c[j] == trades.last());
                    if i < cp.len() {
                        let x = choose|x: int|
                            0 <= x < trades.drop_last().len() && trades.drop_last()[x] == cp[i];
                        assert(trades[x] == cp[i]);
                        assert(trades[x].date_time.spec_key()
                            <= trades.last().date_time.spec_key());
                    }
                }
            }
        }
    }
}

/// Bed-and-breakfast precedence, matching part: when a candidate with
/// remaining unmatched quantity `r > 0` is visited while the disposal
/// still needs `s`, the matched quantity is the smaller of the two, the
/// candidate's remaining quantity and the disposal's outstanding
/// quantity both drop by it, and the matched portion's cost — valued at
/// that candidate's own resolved price, not the disposal's — is added
/// to the special allowable costs. A candidate with nothing left
/// changes nothing.
pub proof fn lemma_bnb_step_matching(
    table: Seq<(TradeKey, Money)>,
    sell_left: Money,
    costs: Money,
    fb: Trade,
    prices: Seq<Price>,
    out: (Seq<(TradeKey, Money)>, Money, Money),
)
    requires
        spec_bnb_step(table, sell_left, costs, fb, prices) == Ok::<
            (Seq<(TradeKey, Money)>, Money, Money),
            CalcError,
        >(out),
    ensures
        ({
            let rem = match spec_get_remaining(table, fb.spec_key()) {
                Some(m) => m,
                None => fb.buy,
            };
            let matched = if rem.amount.le_value(sell_left.amount) {
                rem
            } else {
                sell_left
            };
            &&& rem.amount.num > 0 ==> {
                &&& spec_get_remaining(out.0, fb.spec_key()) matches Some(after) && after.amount
                    == Rat::spec_sub(rem.amount, matched.amount)
                &&& (rem.amount.le_value(sell_left.amount) ==> out.1.amount == Rat::spec_sub(
                    sell_left.amount,
                    rem.amount,
                ))
                &&& (!rem.amount.le_value(sell_left.amount) ==> out.1.amount.num == 0)
                &&& spec_get_price(fb, prices) matches Some(p) && out.2.amount == Rat::spec_add(
                    costs.amount,
                    p.spec_convert(matched, fb.rate).unwrap().amount,
                )
            }
            &&& rem.amount.num <= 0 ==> out.1 == sell_left && out.2 == costs
        }),
{
    let k = fb.spec_key();
    let rem = match spec_get_remaining(table, k) {
        Some(m) => m,
        None => fb.buy,
    };
    let table0 = if spec_get_remaining(table, k) is Some {
        table
    } else {
        spec_set_remaining(table, k, fb.buy)
    };
    if rem.amount.num > 0 {
        let matched = if rem.amount.le_value(sell_left.amount) {
            rem
        } else {
            sell_left
        };
        let new_rem_amt = Rat::spec_sub(rem.amount, matched.amount);
        lemma_get_set_remaining(table0, k, Money { amount: new_rem_amt, currency: rem.currency });
    }
}

/// Bed-and-breakfast double-counting prevention law: an acquisition
/// whose key the side table already maps to a remaining quantity `rem`
/// (because earlier disposals matched against it) adds only `rem` to
/// the long-run pool when processed as a buy — never its full bought
/// amount.
pub proof fn lemma_double_counting_prevention(
    pools: Seq<Pool>,
    table: Seq<(TradeKey, Money)>,
    trade: Trade,
    trades: Seq<Trade>,
    prices: Seq<Price>,
    rem: Money,
)
    requires
        pools_wf(pools),
        spec_get_remaining(table, trade.spec_key()) == Some(rem),
        !trade.buy.currency.spec_is_gbp(),
        trade.sell.currency.spec_is_gbp(),
        spec_process_trade(pools, table, trade, trades, prices) is Ok,
    ensures
        ({
            let st = spec_process_trade(pools, table, trade, trades, prices).unwrap();
            let before = spec_get_pool(pools, trade.buy.currency);
            let after = spec_get_pool(st.0, trade.buy.currency);
            after.total.amount == Rat::spec_add(before.total.amount, rem.amount)
        }),
{
    let price = spec_get_price(trade, prices).unwrap();
    let before = spec_get_pool(pools, trade.buy.currency);
    lemma_get_pool_wf(pools, trade.buy.currency);
    let aq = spec_acquire(pools, table, trade, price).unwrap();
    let pool2 = Pool::spec_buy(
        before,
        rem,
        price.spec_convert(rem, trade.rate).unwrap(),
    ).unwrap();
    lemma_get_set_pool(pools, trade.buy.currency, pool2);
}

/// Bed-and-breakfast precedence, composition part: a successful
/// disposal of a non-GBP asset takes its allowable cost as the
/// specially matched costs of the 30-day pass plus the Section 104
/// pool's proportional cost for only the quantity the pass left
/// unmatched — the pool is never touched for the matched part.
pub proof fn lemma_bnb_before_pool(
    pools: Seq<Pool>,
    table: Seq<(TradeKey, Money)>,
    trade: Trade,
    trades: Seq<Trade>,
    prices: Seq<Price>,
)
    requires
        !trade.sell.currency.spec_is_gbp(),
        spec_dispose(pools, table, trade, trades, prices) is Ok,
    ensures
        ({
            let dp = spec_dispose(pools, table, trade, trades, prices).unwrap();
            let cands = spec_candidates(trades, trade);
            let pass = spec_bnb_pass(cands, table, trade.sell, spec_zero_gbp(), prices);
            &&& pass matches Ok(v) && {
                let pool = spec_get_pool(pools, trade.sell.currency);
                &&& Pool::spec_sell(pool, v.1) matches Some(pv) && dp.2.amount == Rat::spec_add(
                    pv.1.amount,
                    v.2.amount,
                )
                &&& dp.1 == v.0
            }
        }),
{
}

} // verus!
