//! A UK Capital Gains Tax engine for asset trades.
//!
//! Trades are streamed in chronological order through a Section 104
//! share pool per asset, with HMRC's 30-day bed-and-breakfast rule
//! matching disposals against near-future acquisitions. Monetary
//! amounts are exact rationals, so every computed figure is a precise
//! function of the input trades and prices.

pub mod date;
pub mod money;
pub mod pool;
pub mod prices;
pub mod rational;
pub mod report;
pub mod sort;
pub mod trade;

pub use date::Date;
pub use date::DateTime;
pub use money::Currency;
pub use money::Money;
pub use pool::Pool;
pub use prices::CurrencyPair;
pub use prices::Price;
pub use prices::Prices;
pub use rational::Rat;
pub use report::CalcError;
pub use report::Disposal;
pub use report::Gains;
pub use report::TaxReport;
pub use report::TaxYear;
pub use report::calculate;
pub use report::uk_tax_year;
pub use trade::Trade;
pub use trade::TradeKey;
pub use trade::TradeKind;
