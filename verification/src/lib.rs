//! STA-driven threshold-voltage (Vt) swapping: each cell of a netlist moves to another Vt
//! flavor of the same logic function and footprint, to cut leakage on a design that meets
//! timing (the `leakage` objective) or to close setup (the `timing` objective).
//!
//!   - [`job`]: the `.vtswap` job's vt-swap keys (`group`, `objective`, `effort`,
//!     `dont_touch`) and the `dont_touch` glob matcher;
//!   - [`engine`]: the swap loop's decisions, as a state machine fed with what the timer says;
//!   - [`emit`]: the resized netlist as structural Verilog;
//!   - [`cli`]: the command line;
//!   - [`text`]: the character-level primitives they share.
use vstd::prelude::*;

pub mod cli;
pub mod emit;
pub mod engine;
pub mod job;
pub mod report;
pub mod text;

verus! {

} // verus!
