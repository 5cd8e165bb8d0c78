//! The vocabulary shared by every module: contracts, events, orders, positions, venues.
pub mod acceptance;
pub mod contract;
pub mod depth;
pub mod fees;
pub mod time;
pub mod validate;
pub mod venue;
pub mod market;
pub mod orders;
pub mod position;
pub mod alpha;
