//! Utility-style decision primitives: weighted candidates, a strict-maximum
//! chooser and a fuzzy near-maximum chooser, plus fixed-point curve helpers.
//!
//! All quantities are fixed-point numbers counted in millionths: `UNIT`
//! stands for 1.0, so a weight of `250_000` is a weight of 0.25.
use vstd::prelude::*;

pub mod curve;
pub mod selector;
pub mod weighted_action;

pub use curve::{invert, linear};
pub use selector::{choose_action, choose_action_fuzzy};
pub use weighted_action::WeightedAction;

verus! {

/// The fixed-point value that stands for 1.0.
pub const UNIT: u32 = 1_000_000;

} // verus!
