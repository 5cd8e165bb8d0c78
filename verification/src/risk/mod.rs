//! Risk: the risk gate that every order must clear, and the switches that halt trading.
pub mod exposure;
pub mod gate;
pub mod kill_switch;
pub mod ledger;
pub mod live;
