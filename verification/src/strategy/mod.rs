//! Strategy: the engines that propose orders, and what they are calibrated and judged by.
pub mod calibration;
pub mod edge;
pub mod engine;
pub mod engines;
pub mod position_structure;
pub mod relative_value;
