//! The engines.
pub mod market_making;
pub mod sniping;
pub mod stat_arb;
