//! PARALLAX: trading of one event's contracts across prediction markets.
//!
//! Venues' quotes go into a consolidated book ([`book`]). Sources turn outside facts into
//! estimates of a probability, and the estimates are pooled into a fair value ([`alpha`]).
//! Engines propose orders from both ([`strategy`]), and no order leaves without the risk gate
//! ([`risk`]). [`sim`] runs all of it over a recording, and watches over what came of it.
//!
//! A double is a bit pattern ([`double`]). Comparing doubles is decided here; their arithmetic
//! comes from the caller, as an [`double::Arithmetic`]. What waits for the outside is told as
//! steps: a function takes an answer and says what is to be done next.
pub mod alpha;
pub mod book;
pub mod bus;
pub mod cancel_all;
pub mod cli;
pub mod double;
pub mod keyed;
pub mod risk;
pub mod rounding;
pub mod sim;
pub mod strategy;
pub mod text;
pub mod types;
pub mod ui;
