//! The worked HMRC examples: Section 104 pooling and the 30-day
//! bed-and-breakfast rule, end to end through `calculate`.

use cgt::Currency;
use cgt::Date;
use cgt::DateTime;
use cgt::Money;
use cgt::Pool;
use cgt::Prices;
use cgt::Rat;
use cgt::Trade;
use cgt::TradeKind;
use cgt::calculate;

fn gbp(mantissa: i128, scale: u32) -> Money {
    Money::from_decimal(mantissa, scale, Currency::gbp()).unwrap()
}

fn btc(mantissa: i128, scale: u32) -> Money {
    Money::from_decimal(mantissa, scale, Currency::from_id(1)).unwrap()
}

fn rate(mantissa: i128, scale: u32) -> Rat {
    Rat::from_decimal(mantissa, scale).unwrap()
}

fn trade(ymd: (u32, u32, u32), kind: TradeKind, sell: Money, buy: Money, r: Rat) -> Trade {
    let date = Date::new(ymd.0, ymd.1, ymd.2).unwrap();
    let date_time = DateTime::new(date, 23, 59, 59).unwrap();
    Trade { date_time, kind, buy, sell, fee: gbp(0, 0), rate: r }
}

/// Rounds both sides to the currency's display precision (two places
/// for GBP, eight for other assets) before comparing.
fn assert_money_eq(actual: Money, expected: Money) {
    assert_eq!(actual.currency, expected.currency);
    let dp = if actual.currency == Currency::gbp() { 2 } else { 8 };
    assert_eq!(actual.round_dp(dp).unwrap(), expected.round_dp(dp).unwrap());
}

fn btc_pool(report: &cgt::TaxReport) -> Pool {
    let mut found = None;
    for p in report.pools.iter() {
        if p.currency == Currency::from_id(1) {
            found = Some(*p);
        }
    }
    found.expect("BTC should have a Pool")
}

#[test]
fn hmrc_pooling_example() {
    let acq1 = trade((2016, 1, 1), TradeKind::Buy, gbp(100000, 2), btc(100, 0), rate(10, 0));
    let acq2 = trade((2017, 1, 1), TradeKind::Buy, gbp(125_000, 0), btc(50, 0), rate(2500, 0));
    let disp = trade((2018, 1, 1), TradeKind::Sell, btc(5000, 2), gbp(300_000, 0), rate(6000, 0));

    let trades = vec![acq1, acq2, disp];
    let prices = Prices::new();
    let report = calculate(trades, &prices).unwrap();

    let gains_2018 = report.gains(Some(2018));

    assert_money_eq(gains_2018.total_proceeds().unwrap(), gbp(30000000, 2));
    assert_money_eq(gains_2018.total_allowable_costs().unwrap(), gbp(4200000, 2));
    assert_money_eq(gains_2018.total_gain().unwrap(), gbp(25800000, 2));
}

#[test]
fn hmrc_pooling_example_out_of_order() {
    let acq1 = trade((2016, 1, 1), TradeKind::Buy, gbp(100000, 2), btc(100, 0), rate(10, 0));
    let acq2 = trade((2017, 1, 1), TradeKind::Buy, gbp(125_000, 0), btc(50, 0), rate(2500, 0));
    let disp = trade((2018, 1, 1), TradeKind::Sell, btc(5000, 2), gbp(300_000, 0), rate(6000, 0));

    let trades = vec![disp, acq2, acq1];
    let prices = Prices::new();
    let report = calculate(trades, &prices).unwrap();

    let gains_2018 = report.gains(Some(2018));

    assert_money_eq(gains_2018.total_proceeds().unwrap(), gbp(30000000, 2));
    assert_money_eq(gains_2018.total_allowable_costs().unwrap(), gbp(4200000, 2));
    assert_money_eq(gains_2018.total_gain().unwrap(), gbp(25800000, 2));
}

#[test]
fn hmrc_acquiring_within_30_days_of_selling_example() {
    let buy1 = trade(
        (2018, 1, 1),
        TradeKind::Buy,
        gbp(200_000, 0),
        btc(14_000, 0),
        rate(14285714286, 9),
    );
    let sell = trade((2018, 8, 30), TradeKind::Sell, btc(4000, 0), gbp(160_000, 0), rate(40, 0));
    let buy2 = trade((2018, 9, 11), TradeKind::Buy, gbp(17_500, 0), btc(500, 0), rate(35, 0));

    let trades = vec![buy1, sell, buy2];
    let prices = Prices::new();
    let report = calculate(trades, &prices).unwrap();

    let gains_2019 = report.gains(Some(2019));
    let gain = gains_2019.gains.get(0).unwrap();

    // Consideration
    assert_money_eq(gain.proceeds(), gbp(160_000, 0));
    // Allowable costs
    assert_money_eq(gain.allowable_costs(), gbp(6750000, 2));
    // Gain 30 days
    assert_money_eq(gain.gain().unwrap(), gbp(9250000, 2));

    let pool = btc_pool(&report);

    // Remaining in pool
    assert_money_eq(pool.total(), btc(10_500, 0));
    // Remaining allowable costs
    assert_money_eq(pool.costs, gbp(15000000, 2));
}

#[test]
fn multiple_acquisitions_within_30_days() {
    let buy1 = trade(
        (2018, 1, 1),
        TradeKind::Buy,
        gbp(200_000, 0),
        btc(14_000, 0),
        rate(14285714286, 9),
    );
    let sell = trade((2018, 8, 30), TradeKind::Sell, btc(4000, 0), gbp(160_000, 0), rate(40, 0));
    let buy2 = trade((2018, 9, 11), TradeKind::Buy, gbp(8_750, 0), btc(250, 0), rate(35, 0));
    let buy3 = trade((2018, 9, 12), TradeKind::Buy, gbp(8_750, 0), btc(250, 0), rate(35, 0));

    let trades = vec![buy1, sell, buy2, buy3];
    let prices = Prices::new();
    let report = calculate(trades, &prices).unwrap();

    let gains_2019 = report.gains(Some(2019));
    let gain = gains_2019.gains.get(0).unwrap();

    assert_money_eq(gain.proceeds(), gbp(160_000, 0));
    assert_money_eq(gain.allowable_costs(), gbp(6750000, 2));
    assert_money_eq(gain.gain().unwrap(), gbp(9250000, 2));

    let pool = btc_pool(&report);

    assert_money_eq(pool.total(), btc(10_500, 0));
    assert_money_eq(pool.costs, gbp(15000000, 2));
}

#[test]
fn multiple_sells_with_same_buy_within_30_days() {
    let buy1 = trade((2018, 1, 1), TradeKind::Buy, gbp(100_000, 0), btc(100, 0), rate(1000, 0));
    let sell1 = trade((2018, 8, 30), TradeKind::Sell, btc(20, 0), gbp(40_000, 0), rate(2000, 0));
    let sell2 = trade((2018, 9, 1), TradeKind::Sell, btc(20, 0), gbp(40_000, 0), rate(2000, 0));
    let buy2 = trade((2018, 9, 11), TradeKind::Buy, gbp(15_000, 0), btc(10, 0), rate(1500, 0));

    let trades = vec![buy1, sell1, sell2, buy2];
    let prices = Prices::new();
    let report = calculate(trades, &prices).unwrap();

    let gains_2019 = report.gains(Some(2019));
    let gain1 = gains_2019.gains.get(0).unwrap();

    assert_money_eq(gain1.proceeds(), gbp(40_000, 0));
    assert_money_eq(gain1.allowable_costs(), gbp(2500000, 2));
    assert_money_eq(gain1.gain().unwrap(), gbp(1500000, 2));

    let pool = btc_pool(&report);

    assert_money_eq(pool.total(), btc(70, 0));
    assert_money_eq(pool.costs, gbp(7000000, 2));
}

#[test]
fn acquisition_within_30_days_greater_than_disposal_returned_to_pool() {
    let buy1 = trade(
        (2018, 1, 1),
        TradeKind::Buy,
        gbp(200_000, 0),
        btc(14_000, 0),
        rate(14285714286, 9),
    );
    let sell = trade((2018, 8, 30), TradeKind::Sell, btc(4000, 0), gbp(160_000, 0), rate(40, 0));
    let buy2 = trade((2018, 9, 11), TradeKind::Buy, gbp(175_000, 0), btc(5000, 0), rate(35, 0));

    let trades = vec![buy1, sell, buy2];
    let prices = Prices::new();
    let report = calculate(trades, &prices).unwrap();

    let gains_2019 = report.gains(Some(2019));
    let tax_event = gains_2019.gains.get(0).unwrap();

    assert_money_eq(tax_event.proceeds(), gbp(160_000, 0));
    assert_money_eq(tax_event.allowable_costs(), gbp(140_000, 0));
    assert_money_eq(tax_event.gain().unwrap(), gbp(20_000, 0));

    let pool = btc_pool(&report);

    assert_money_eq(pool.total(), btc(15_000, 0));
    assert_money_eq(pool.costs, gbp(23500000, 2));
}

#[test]
fn disposal_with_not_enough_funds_in_pool_should_use_partial_allowable_costs() {
    let acq1 = trade((2016, 1, 1), TradeKind::Buy, gbp(1000, 0), btc(1, 0), rate(1000, 0));
    let disp = trade((2018, 1, 1), TradeKind::Sell, btc(2, 0), gbp(2000, 0), rate(1000, 0));

    let trades = vec![acq1, disp];
    let prices = Prices::new();
    let report = calculate(trades, &prices).unwrap();

    let gains_2018 = report.gains(Some(2018));

    assert_money_eq(gains_2018.total_proceeds().unwrap(), gbp(2000, 0));
    assert_money_eq(gains_2018.total_allowable_costs().unwrap(), gbp(1000, 0));
    assert_money_eq(gains_2018.total_gain().unwrap(), gbp(1000, 0));
}
