//! Selectors decide which possible next state to choose.
//!
//! Here is the interface, as well as a collection of selectors.
pub mod fixed;
pub mod interface;
pub mod random;
