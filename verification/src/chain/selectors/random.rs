//! Random and weighted random selectors.
use vstd::prelude::*;

use super::interface::{MarkovSelector, SelectionType};
use crate::chain::body::MarkovTraverseDir;
use crate::chain::model::{lemma_links_at, ChainModel};
use crate::chain::select::{
    asked, counts, decides, first_reaching, lemma_asked_weights, lemma_total_next, selected, total,
    weights_of,
};
use crate::chain::token::{MarkovToken, Textlet};

verus! {

/// Takes a transition at random, each with a chance in proportion to how
/// often it was seen.
pub struct WeightedRandomSelector;

impl MarkovSelector for WeightedRandomSelector {
    open spec fn resets(&self, dir: MarkovTraverseDir, after: &Self) -> bool {
        true
    }

    open spec fn weighs(
        &self,
        from: Textlet,
        to: Textlet,
        punct: Textlet,
        occurrences: usize,
        weight: u64,
        after: &Self,
    ) -> bool {
        weight == occurrences
    }

    open spec fn selects(&self, kind: SelectionType, after: &Self) -> bool {
        kind == SelectionType::WeightedRandom
    }

    fn reset(&mut self, _dir: MarkovTraverseDir) {
    }

    fn weight<'a>(
        &mut self,
        _from: &MarkovToken<'a>,
        _to: &MarkovToken<'a>,
        _punct: &MarkovToken<'a>,
        hits: usize,
    ) -> (weight: u64) {
        hits as u64
    }

    fn selection_type(&mut self) -> (kind: SelectionType) {
        SelectionType::WeightedRandom
    }
}

/// Takes a transition at random, each with the same chance.
pub struct NaiveRandomSelector;

impl MarkovSelector for NaiveRandomSelector {
    open spec fn resets(&self, dir: MarkovTraverseDir, after: &Self) -> bool {
        true
    }

    open spec fn weighs(
        &self,
        from: Textlet,
        to: Textlet,
        punct: Textlet,
        occurrences: usize,
        weight: u64,
        after: &Self,
    ) -> bool {
        weight == 1
    }

    open spec fn selects(&self, kind: SelectionType, after: &Self) -> bool {
        kind == SelectionType::WeightedRandom
    }

    fn reset(&mut self, _dir: MarkovTraverseDir) {
    }

    fn weight<'a>(
        &mut self,
        _from: &MarkovToken<'a>,
        _to: &MarkovToken<'a>,
        _punct: &MarkovToken<'a>,
        _hits: usize,
    ) -> (weight: u64) {
        1
    }

    fn selection_type(&mut self) -> (kind: SelectionType) {
        SelectionType::WeightedRandom
    }
}

/// [`WeightedRandomSelector`] leaves only the draw open: the step that it
/// takes from `from` is along the first of the links there at which the
/// running sum of the counts reaches or exceeds a number from 1 to the sum
/// of all the counts.
pub proof fn lemma_weighted_random_selects(
    before: &WeightedRandomSelector,
    after: &WeightedRandomSelector,
    m: ChainModel,
    dir: MarkovTraverseDir,
    from: nat,
    pct: nat,
    to: nat,
)
    requires
        m.valid(),
        selected(before, after, m, dir, from, pct, to),
    ensures
        exists|draw: nat, pos: int|
            {
                &&& 1 <= draw <= total(counts(m, m.candidates(dir, from)))
                &&& #[trigger] first_reaching(counts(m, m.candidates(dir, from)), draw, pos)
                &&& m.links[m.candidates(dir, from)[pos] as int].pct == pct
                &&& m.links[m.candidates(dir, from)[pos] as int].far(dir) == to
            },
{
    let at = m.candidates(dir, from);
    let (weights, kind, draw, pos) = choose|
        weights: Seq<u64>,
        kind: SelectionType,
        draw: nat,
        pos: int,
    |
        {
            let link = m.links[at[pos] as int];
            &&& #[trigger] decides(before, after, m, dir, from, weights, kind, draw, pos)
            &&& link.pct == pct
            &&& link.far(dir) == to
        };
    let mid = choose|mid: &WeightedRandomSelector|
        asked(before, dir, m, at, weights, mid) && #[trigger] mid.selects(kind, after);
    lemma_links_at(m.links, dir, from);
    lemma_asked_weights(before, dir, m, at, weights, mid, |n: usize| n as u64);
    // Every count is at least one, so that the sum is not 0.
    lemma_total_next(weights, at.len() - 1);
    assert(weights.take(at.len() as int) =~= weights);
    assert(weights[at.len() - 1] >= 1) by {
        assert(m.links[at[at.len() - 1] as int].hits >= 1);
    }
    assert(first_reaching(counts(m, at), draw, pos));
}

/// Where every weight is one, the sum of the weights is their number, and
/// a number drawn from 1 to that sum chooses the place of that number,
/// counted from 1: each place has the same chance.
pub proof fn lemma_even_weights(weights: Seq<u64>, draw: nat, pos: int)
    requires
        forall|i: int| 0 <= i < weights.len() ==> weights[i] == 1,
    ensures
        total(weights) == weights.len(),
        1 <= draw <= weights.len() && first_reaching(weights, draw, pos) ==> pos == draw - 1,
{
    lemma_running_sums(weights, weights.len() as int);
    assert(weights.take(weights.len() as int) =~= weights);
    if 1 <= draw <= weights.len() && first_reaching(weights, draw, pos) {
        lemma_running_sums(weights, pos + 1);
        if pos > draw - 1 {
            let d = draw as int;
            lemma_running_sums(weights, d);
            assert(total(weights.take((d - 1) + 1)) < draw);
        }
    }
}

/// Where every weight is one, the running sum at a place is the number of
/// places up to it.
proof fn lemma_running_sums(weights: Seq<u64>, k: int)
    requires
        forall|i: int| 0 <= i < weights.len() ==> weights[i] == 1,
        0 <= k <= weights.len(),
    ensures
        total(weights.take(k)) == k,
    decreases k,
{
    if k > 0 {
        lemma_running_sums(weights, k - 1);
        lemma_total_next(weights, k - 1);
    } else {
        assert(weights.take(0) =~= Seq::<u64>::empty());
    }
}

/// [`NaiveRandomSelector`] leaves only the draw open: the step that it
/// takes from `from` is along the link there whose place, counted from 1,
/// is the number drawn, a number from 1 to the number of the links.
pub proof fn lemma_naive_random_selects(
    before: &NaiveRandomSelector,
    after: &NaiveRandomSelector,
    m: ChainModel,
    dir: MarkovTraverseDir,
    from: nat,
    pct: nat,
    to: nat,
)
    requires
        selected(before, after, m, dir, from, pct, to),
    ensures
        exists|draw: int|
            {
                &&& 1 <= draw <= m.candidates(dir, from).len()
                &&& (#[trigger] m.links[m.candidates(dir, from)[draw - 1] as int]).pct == pct
                &&& m.links[m.candidates(dir, from)[draw - 1] as int].far(dir) == to
            },
{
    let at = m.candidates(dir, from);
    let (weights, kind, draw, pos) = choose|
        weights: Seq<u64>,
        kind: SelectionType,
        draw: nat,
        pos: int,
    |
        {
            let link = m.links[at[pos] as int];
            &&& #[trigger] decides(before, after, m, dir, from, weights, kind, draw, pos)
            &&& link.pct == pct
            &&& link.far(dir) == to
        };
    let mid = choose|mid: &NaiveRandomSelector|
        asked(before, dir, m, at, weights, mid) && #[trigger] mid.selects(kind, after);
    lemma_asked_weights(before, dir, m, at, weights, mid, |n: usize| 1u64);
    assert(weights == weights_of(m, at, |n: usize| 1u64));
    lemma_even_weights(weights, draw, pos);
    assert(total(weights) > 0);
    assert(pos == draw - 1);
    let d = draw as int;
    assert(m.links[at[d - 1] as int].pct == pct);
}

} // verus!
