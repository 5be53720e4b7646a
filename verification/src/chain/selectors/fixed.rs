//! Highest and lowest weight selectors.
use vstd::prelude::*;

use super::interface::{MarkovSelector, SelectionType};
use crate::chain::body::MarkovTraverseDir;
use crate::chain::model::ChainModel;
use crate::chain::select::{
    asked, counts, decides, first_highest, first_lowest, lemma_asked_weights, selected,
};
use crate::chain::token::{MarkovToken, Textlet};

verus! {

/// Always takes the transition that was seen most often.
pub struct StaticBestSelector;

impl MarkovSelector for StaticBestSelector {
    open spec fn resets(&self, dir: MarkovTraverseDir, after: &Self) -> bool {
        true
    }

    open spec fn weighs(
        &self,
        from: Textlet,
        to: Textlet,
        punct: Textlet,
        occurrences: usize,
        weight: u64,
        after: &Self,
    ) -> bool {
        weight == occurrences
    }

    open spec fn selects(&self, kind: SelectionType, after: &Self) -> bool {
        kind == SelectionType::Highest
    }

    fn reset(&mut self, _dir: MarkovTraverseDir) {
    }

    fn weight<'a>(
        &mut self,
        _from: &MarkovToken<'a>,
        _to: &MarkovToken<'a>,
        _punct: &MarkovToken<'a>,
        hits: usize,
    ) -> (weight: u64) {
        hits as u64
    }

    fn selection_type(&mut self) -> (kind: SelectionType) {
        SelectionType::Highest
    }
}

/// Always takes the transition that was seen least often.
pub struct NaiveRandomSelector;

impl MarkovSelector for NaiveRandomSelector {
    open spec fn resets(&self, dir: MarkovTraverseDir, after: &Self) -> bool {
        true
    }

    open spec fn weighs(
        &self,
        from: Textlet,
        to: Textlet,
        punct: Textlet,
        occurrences: usize,
        weight: u64,
        after: &Self,
    ) -> bool {
        weight == occurrences
    }

    open spec fn selects(&self, kind: SelectionType, after: &Self) -> bool {
        kind == SelectionType::Lowest
    }

    fn reset(&mut self, _dir: MarkovTraverseDir) {
    }

    fn weight<'a>(
        &mut self,
        _from: &MarkovToken<'a>,
        _to: &MarkovToken<'a>,
        _punct: &MarkovToken<'a>,
        hits: usize,
    ) -> (weight: u64) {
        hits as u64
    }

    fn selection_type(&mut self) -> (kind: SelectionType) {
        SelectionType::Lowest
    }
}

/// [`StaticBestSelector`] leaves nothing open: the step that it takes from
/// `from` is along the first of the links there that were seen most often.
pub proof fn lemma_static_best_selects(
    before: &StaticBestSelector,
    after: &StaticBestSelector,
    m: ChainModel,
    dir: MarkovTraverseDir,
    from: nat,
    pct: nat,
    to: nat,
)
    requires
        selected(before, after, m, dir, from, pct, to),
    ensures
        exists|pos: int|
            {
                &&& #[trigger] first_highest(counts(m, m.candidates(dir, from)), pos)
                &&& m.links[m.candidates(dir, from)[pos] as int].pct == pct
                &&& m.links[m.candidates(dir, from)[pos] as int].far(dir) == to
            },
{
    let at = m.candidates(dir, from);
    let (weights, kind, draw, pos) = choose|
        weights: Seq<u64>,
        kind: SelectionType,
        draw: nat,
        pos: int,
    |
        {
            let link = m.links[at[pos] as int];
            &&& #[trigger] decides(before, after, m, dir, from, weights, kind, draw, pos)
            &&& link.pct == pct
            &&& link.far(dir) == to
        };
    let mid = choose|mid: &StaticBestSelector|
        asked(before, dir, m, at, weights, mid) && #[trigger] mid.selects(
            kind,
            after,
        );
    lemma_asked_weights(before, dir, m, at, weights, mid, |n: usize| n as u64);
    assert(first_highest(counts(m, at), pos));
}

/// [`NaiveRandomSelector`] leaves nothing open: the step that it takes from
/// `from` is along the first of the links there that were seen least
/// often.
pub proof fn lemma_least_seen_selects(
    before: &NaiveRandomSelector,
    after: &NaiveRandomSelector,
    m: ChainModel,
    dir: MarkovTraverseDir,
    from: nat,
    pct: nat,
    to: nat,
)
    requires
        selected(before, after, m, dir, from, pct, to),
    ensures
        exists|pos: int|
            {
                &&& #[trigger] first_lowest(counts(m, m.candidates(dir, from)), pos)
                &&& m.links[m.candidates(dir, from)[pos] as int].pct == pct
                &&& m.links[m.candidates(dir, from)[pos] as int].far(dir) == to
            },
{
    let at = m.candidates(dir, from);
    let (weights, kind, draw, pos) = choose|
        weights: Seq<u64>,
        kind: SelectionType,
        draw: nat,
        pos: int,
    |
        {
            let link = m.links[at[pos] as int];
            &&& #[trigger] decides(before, after, m, dir, from, weights, kind, draw, pos)
            &&& link.pct == pct
            &&& link.far(dir) == to
        };
    let mid = choose|mid: &NaiveRandomSelector|
        asked(before, dir, m, at, weights, mid) && #[trigger] mid.selects(
            kind,
            after,
        );
    lemma_asked_weights(before, dir, m, at, weights, mid, |n: usize| n as u64);
    assert(first_lowest(counts(m, at), pos));
}

} // verus!
