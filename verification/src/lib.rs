//! Reads power-supply device state given as `KEY=VALUE` text, derives
//! battery metrics (health percentage, power draw, time remaining) with
//! exact fixed-point arithmetic, and renders an aligned, filtered report.

pub mod text;
pub mod num;
pub mod attrs;
pub mod parse;
pub mod device;
