//! The names that most users of the crate need.
pub use crate::chain::body::{
    Edge, MarkovChain, MarkovError, MarkovSeed, MarkovTraverseDir, BEGIN, END,
};
pub use crate::chain::selectors::fixed::StaticBestSelector;
pub use crate::chain::selectors::interface::{MarkovSelector, SelectionType};
pub use crate::chain::selectors::random::{NaiveRandomSelector, WeightedRandomSelector};
pub use crate::chain::token::{MarkovToken, MarkovTokenOwned, TokenList};
pub use crate::sentence::lex::Lexer;
pub use crate::sentence::token::Token;
