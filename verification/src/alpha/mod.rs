//! The alpha model: sources of opinion, and their aggregation into fair values.
pub mod aggregator;
pub mod confidence;
pub mod config;
pub mod forecast_quality;
pub mod log_odds;
pub mod normal;
pub mod opinions;
pub mod payload;
pub mod source;
pub mod sources;
pub mod stats;
