//! The demonstration scenario, its distribution over noise, and the recording of live quotes.
pub mod demo;
pub mod edge_distribution;
pub mod feed_health;
pub mod recorder;
