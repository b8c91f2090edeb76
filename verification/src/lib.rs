//! Verified puzzle-solving library.
//!
//! The centrepiece is the keypad indirection-chain encoder: the minimum
//! number of button presses needed to type a code on a numeric keypad that
//! is operated through a chain of directional-keypad robots.  Around it
//! stand several smaller verified solvers (grid searches, simulations and
//! reductions) that share the same style: executable code whose behaviour
//! is pinned down by contracts over mathematical models.

pub mod claw;
pub mod disk;
pub mod encoder;
pub mod guard;
pub mod keypad;
pub mod locks;
pub mod machine;
pub mod memory;
pub mod secrets;
pub mod text;
pub mod trails;
pub mod wordsearch;
