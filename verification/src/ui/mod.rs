//! The dashboard: what it shows of a run, of an arbitrage and of live markets.
pub mod dto;
pub mod live;
