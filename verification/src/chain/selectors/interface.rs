//! The selector interface, a trait whose implementors can be used as a way
//! of deciding the next state of a Markov chain.
use vstd::prelude::*;

use crate::chain::body::MarkovTraverseDir;
use crate::chain::token::{MarkovToken, Textlet};

verus! {

/// The way in which the weights returned by [`MarkovSelector::weight`]
/// should be interpreted.
#[derive(Clone, Copy, PartialEq, Eq, Structural, Debug)]
pub enum SelectionType {
    /// A weight is a share of the probability of being chosen.
    WeightedRandom,
    /// The first edge of the highest weight is chosen.
    Highest,
    /// The first edge of the lowest weight is chosen.
    Lowest,
}

/// An object which can be used as a selector for a Markov chain.
///
/// Weights are whole numbers. A selector may keep a state of its own and
/// answer as it likes: it says itself, in `resets`, `weighs` and `selects`,
/// which answers it may give in which state, and may leave all of them
/// open.
pub trait MarkovSelector {
    /// Whether a reset for a walk in `dir` may leave the selector as
    /// `after`.
    open spec fn resets(&self, dir: MarkovTraverseDir, after: &Self) -> bool {
        true
    }

    /// Whether the selector may give the link from `from` over `punct` to
    /// `to`, seen `occurrences` times, the weight `weight`, and be as
    /// `after` from then on.
    open spec fn weighs(
        &self,
        from: Textlet,
        to: Textlet,
        punct: Textlet,
        occurrences: usize,
        weight: u64,
        after: &Self,
    ) -> bool {
        true
    }

    /// Whether the selector may ask for a selection of type `kind`, and be
    /// as `after` from then on.
    open spec fn selects(&self, kind: SelectionType, after: &Self) -> bool {
        true
    }

    /// Reset the state of this selector.
    ///
    /// Called once before the edges of a step are weighed.
    fn reset(&mut self, dir: MarkovTraverseDir)
        ensures
            old(self).resets(dir, final(self)),
    ;

    /// The weight of a particular link.
    ///
    /// Can be interpreted as a probability mass, or as a decision weight,
    /// depending on the return value of [`MarkovSelector::selection_type`].
    /// If the latter is the case, the highest (or lowest!) weight is always
    /// the final selection.
    ///
    /// Stateful.
    fn weight<'a>(
        &mut self,
        from: &MarkovToken<'a>,
        to: &MarkovToken<'a>,
        punct: &MarkovToken<'a>,
        occurrences: usize,
    ) -> (weight: u64)
        ensures
            old(self).weighs(from@, to@, punct@, occurrences, weight, final(self)),
    ;

    /// Returns the [`SelectionType`] of this selector; this decides how the
    /// weights returned by [`MarkovSelector::weight`] are interpreted.
    fn selection_type(&mut self) -> (kind: SelectionType)
        ensures
            old(self).selects(kind, final(self)),
    ;
}

} // verus!
