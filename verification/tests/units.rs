//! Unit-level behaviour: rational rounding, pool arithmetic, the
//! fiscal-year boundary, price lookups, error cases, and the engine's
//! determinism.

use cgt::CalcError;
use cgt::Currency;
use cgt::CurrencyPair;
use cgt::Date;
use cgt::DateTime;
use cgt::Money;
use cgt::Pool;
use cgt::Price;
use cgt::Prices;
use cgt::Rat;
use cgt::Trade;
use cgt::TradeKind;
use cgt::calculate;
use cgt::uk_tax_year;

fn gbp(mantissa: i128, scale: u32) -> Money {
    Money::from_decimal(mantissa, scale, Currency::gbp()).unwrap()
}

fn btc(mantissa: i128, scale: u32) -> Money {
    Money::from_decimal(mantissa, scale, Currency::from_id(1)).unwrap()
}

fn eth(mantissa: i128, scale: u32) -> Money {
    Money::from_decimal(mantissa, scale, Currency::from_id(2)).unwrap()
}

fn rate(mantissa: i128, scale: u32) -> Rat {
    Rat::from_decimal(mantissa, scale).unwrap()
}

fn dt(y: u32, m: u32, d: u32) -> DateTime {
    DateTime::new(Date::new(y, m, d).unwrap(), 23, 59, 59).unwrap()
}

fn trade(when: DateTime, kind: TradeKind, sell: Money, buy: Money, r: Rat) -> Trade {
    Trade { date_time: when, kind, buy, sell, fee: gbp(0, 0), rate: r }
}

#[test]
fn rounding_half_up() {
    let x = Rat::from_decimal(12345, 3).unwrap(); // 12.345
    let r = x.round_dp(2).unwrap();
    assert_eq!(r.num, 1235);
    assert_eq!(r.den, 100);

    let y = Rat::from_decimal(-12345, 3).unwrap();
    let r = y.round_dp(2).unwrap();
    assert_eq!(r.num, -1235);
    assert_eq!(r.den, 100);

    let z = Rat::from_decimal(12344, 3).unwrap(); // 12.344 rounds down
    let r = z.round_dp(2).unwrap();
    assert_eq!(r.num, 1234);
    assert_eq!(r.den, 100);
}

#[test]
fn exact_rational_arithmetic() {
    let a = Rat::from_decimal(1, 1).unwrap(); // 0.1
    let b = Rat::from_decimal(2, 1).unwrap(); // 0.2
    let sum = a.checked_add(&b).unwrap();
    // 0.1 + 0.2 is exactly 0.3: cross-multiplied against 3/10
    assert_eq!(sum.num * 10, 3 * sum.den);

    let q = b.checked_div(&a).unwrap();
    assert_eq!(q.num * 1, 2 * q.den);
}

#[test]
fn empty_pool_cost_basis_is_zero() {
    let pool = Pool::new(Currency::from_id(1));
    let cb = pool.cost_basis();
    assert_eq!(cb.num, 0);
    assert_eq!(cb.den, 1);
}

#[test]
fn pool_proportional_sell() {
    let mut pool = Pool::new(Currency::from_id(1));
    assert!(pool.buy(&btc(150, 0), &gbp(126_000, 0)));
    let consumed = pool.sell(btc(50, 0)).unwrap();
    // consumed = 126000 * 50 / 150 = 42000 exactly
    assert_eq!(consumed.round_dp(2).unwrap(), gbp(4200000, 2).round_dp(2).unwrap());
    assert_eq!(pool.total().round_dp(8).unwrap(), btc(100, 0).round_dp(8).unwrap());
    assert_eq!(pool.costs.round_dp(2).unwrap(), gbp(84000, 0).round_dp(2).unwrap());
}

#[test]
fn pool_oversell_consumes_everything_and_zeroes() {
    let mut pool = Pool::new(Currency::from_id(1));
    assert!(pool.buy(&btc(1, 0), &gbp(1000, 0)));
    let consumed = pool.sell(btc(2, 0)).unwrap();
    assert_eq!(consumed.round_dp(2).unwrap(), gbp(1000, 0).round_dp(2).unwrap());
    assert_eq!(pool.total().amount.num, 0);
    assert_eq!(pool.costs.amount.num, 0);
    let cb = pool.cost_basis();
    assert_eq!(cb.num, 0);
}

#[test]
fn fiscal_year_boundary_dates() {
    let on_5_april = DateTime::new(Date::new(2020, 4, 5).unwrap(), 12, 0, 0).unwrap();
    let on_6_april = DateTime::new(Date::new(2020, 4, 6).unwrap(), 12, 0, 0).unwrap();
    assert_eq!(uk_tax_year(on_5_april), 2020);
    assert_eq!(uk_tax_year(on_6_april), 2021);
    let new_year = DateTime::new(Date::new(2020, 1, 1).unwrap(), 0, 0, 0).unwrap();
    assert_eq!(uk_tax_year(new_year), 2020);
    let december = DateTime::new(Date::new(2020, 12, 31).unwrap(), 0, 0, 0).unwrap();
    assert_eq!(uk_tax_year(december), 2021);
}

#[test]
fn price_index_exact_date_lookup() {
    let mut prices = Prices::new();
    let pair = CurrencyPair { base: Currency::from_id(1), quote: Currency::gbp() };
    prices.add(Price { pair, date_time: dt(2020, 5, 1), rate: rate(9000, 0) });
    prices.add(Price { pair, date_time: dt(2020, 5, 1), rate: rate(9100, 0) });
    prices.add(Price { pair, date_time: dt(2020, 5, 2), rate: rate(9500, 0) });

    // exact date match, first observation wins
    let hit = prices.get(pair, Date::new(2020, 5, 1).unwrap()).unwrap();
    assert_eq!(hit.rate, rate(9000, 0));
    let hit2 = prices.get(pair, Date::new(2020, 5, 2).unwrap()).unwrap();
    assert_eq!(hit2.rate, rate(9500, 0));
    // no adjacent-day approximation
    assert!(prices.get(pair, Date::new(2020, 5, 3).unwrap()).is_none());
    // a different pair does not match
    let other = CurrencyPair { base: Currency::from_id(2), quote: Currency::gbp() };
    assert!(prices.get(other, Date::new(2020, 5, 1).unwrap()).is_none());
}

#[test]
fn missing_price_aborts_the_run() {
    // crypto-to-crypto trade with an empty index: no price can be
    // resolved, the whole run fails
    let t = trade(dt(2020, 5, 1), TradeKind::Sell, btc(1, 0), eth(30, 0), rate(30, 0));
    let prices = Prices::new();
    let r = calculate(vec![t], &prices);
    match r {
        Err(CalcError::MissingPrice { date_time, .. }) => {
            assert_eq!(date_time, dt(2020, 5, 1));
        },
        _ => panic!("expected a missing-price failure"),
    }
}

#[test]
fn crypto_to_crypto_uses_the_index() {
    // the same trade succeeds once the index holds the quote asset's
    // GBP price at the trade's calendar date
    let t = trade(dt(2020, 5, 1), TradeKind::Sell, btc(1, 0), eth(30, 0), rate(30, 0));
    let mut prices = Prices::new();
    let pair = CurrencyPair { base: Currency::from_id(2), quote: Currency::gbp() };
    prices.add(Price { pair, date_time: dt(2020, 5, 1), rate: rate(300, 0) });
    let report = calculate(vec![t], &prices).unwrap();
    // both legs are non-GBP: the trade is an acquisition of ETH and a
    // disposal of BTC at once
    assert_eq!(report.pools.len(), 2);
}

#[test]
fn arithmetic_overflow_is_reported() {
    let huge = Money::from_decimal(i128::MAX - 1, 0, Currency::from_id(1)).unwrap();
    let t = trade(dt(2020, 5, 1), TradeKind::Buy, gbp(1, 0), huge, rate(3, 0));
    let prices = Prices::new();
    assert_eq!(calculate(vec![t], &prices).err(), Some(CalcError::Overflow));
}

#[test]
fn identical_input_gives_identical_reports() {
    let mk = || {
        vec![
            trade(dt(2016, 1, 1), TradeKind::Buy, gbp(1000, 0), btc(100, 0), rate(10, 0)),
            trade(dt(2017, 1, 1), TradeKind::Buy, gbp(125_000, 0), btc(50, 0), rate(2500, 0)),
            trade(dt(2018, 1, 1), TradeKind::Sell, btc(50, 0), gbp(300_000, 0), rate(6000, 0)),
        ]
    };
    let prices = Prices::new();
    let r1 = calculate(mk(), &prices).unwrap();
    let r2 = calculate(mk(), &prices).unwrap();
    assert_eq!(r1, r2);
}

#[test]
fn non_gbp_fee_is_converted() {
    let mut t = trade(dt(2018, 1, 1), TradeKind::Buy, gbp(1000, 0), btc(100, 0), rate(10, 0));
    t.fee = btc(1, 0);
    let prices = Prices::new();
    let report = calculate(vec![t], &prices).unwrap();
    let gains = report.gains(None);
    let d = gains.gains.get(0).unwrap();
    assert_eq!(d.fee().round_dp(2).unwrap(), gbp(10, 0).round_dp(2).unwrap());
}

#[test]
fn gains_for_an_unknown_year_are_empty() {
    let t = trade(dt(2018, 1, 1), TradeKind::Buy, gbp(1000, 0), btc(100, 0), rate(10, 0));
    let prices = Prices::new();
    let report = calculate(vec![t], &prices).unwrap();
    assert_eq!(report.gains(Some(1999)).len(), 0);
    assert_eq!(report.gains(None).len(), 1);
}

#[test]
fn identical_trades_share_one_acquisition_key() {
    // two byte-identical buys have the same trade key and are treated
    // as one acquisition event: the matcher's lazily initialised
    // remaining quantity is read once for both, so the pool receives
    // the remaining quantity twice — the reference behaviour for
    // duplicate keys
    let sell = trade(dt(2018, 8, 30), TradeKind::Sell, btc(5, 0), gbp(1000, 0), rate(200, 0));
    let buy = trade(dt(2018, 9, 1), TradeKind::Buy, gbp(1500, 0), btc(10, 0), rate(150, 0));
    let buy_again = buy;

    let prices = Prices::new();
    let report = calculate(vec![sell, buy, buy_again], &prices).unwrap();

    let gains = report.gains(Some(2019));
    let d = gains.gains.get(0).unwrap();
    // all five sold coins match against the replacement buy at its own
    // rate: 5 * 150 = 750
    assert_eq!(d.allowable_costs().round_dp(2).unwrap(), gbp(750, 0).round_dp(2).unwrap());

    let mut pool = None;
    for p in report.pools.iter() {
        if p.currency == Currency::from_id(1) {
            pool = Some(*p);
        }
    }
    let pool = pool.unwrap();
    assert_eq!(pool.total().round_dp(8).unwrap(), btc(10, 0).round_dp(8).unwrap());
    assert_eq!(pool.costs.round_dp(2).unwrap(), gbp(1500, 0).round_dp(2).unwrap());
}
