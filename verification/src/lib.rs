//! Word-level Markov chains over text.
//!
//! [`sentence`] splits a sentence into words and the punctuation between
//! them, and joins such tokens again. [`chain`] holds the chain itself: it
//! learns sentences as counted transitions from word to word, and composes
//! new sentences by walking those transitions backward and forward from a
//! seed, with a selector that chooses the transition at each step.
//!
//! The chain is described by a model of textlets and links
//! ([`chain::model`]); what its functions do is stated over that model,
//! and [`sentence::laws`] and [`chain::laws`] hold what follows for every
//! sentence and every chain.
pub mod chain;
pub mod prelude;
pub mod sentence;
