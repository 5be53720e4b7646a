//! The Markov chain itself: the graph of textlets, and the selectors that
//! choose among its edges.
pub mod body;
pub mod chance;
pub mod compose;
pub mod laws;
pub mod model;
pub mod reply;
pub mod select;
pub mod selectors;
pub mod token;
pub mod walk;
