//! The backtest and what is made of its results.
pub mod alerting;
pub mod backtest;
pub mod booking;
pub mod equity;
pub mod fee_verification;
pub mod reconcile;
pub mod replay;
pub mod report;
