//! Choosing one of a list of weights.
use vstd::prelude::*;

use super::body::{steps, MarkovTraverseDir};
use super::model::{lemma_links_at, ChainModel};
use super::selectors::interface::{MarkovSelector, SelectionType};
use super::token::Textlet;

verus! {

/// The sum of the weights.
pub open spec fn total(weights: Seq<u64>) -> nat
    decreases weights.len(),
{
    if weights.len() == 0 {
        0
    } else {
        total(weights.drop_last()) + weights.last() as nat
    }
}

/// `pos` is the first place of the highest weight.
pub open spec fn first_highest(weights: Seq<u64>, pos: int) -> bool {
    &&& 0 <= pos < weights.len()
    &&& forall|i: int| 0 <= i < weights.len() ==> weights[i] <= weights[pos]
    &&& forall|i: int| 0 <= i < pos ==> weights[i] < weights[pos]
}

/// `pos` is the first place of the lowest weight.
pub open spec fn first_lowest(weights: Seq<u64>, pos: int) -> bool {
    &&& 0 <= pos < weights.len()
    &&& forall|i: int| 0 <= i < weights.len() ==> weights[i] >= weights[pos]
    &&& forall|i: int| 0 <= i < pos ==> weights[i] > weights[pos]
}

/// `pos` is the first place at which the running sum of the weights
/// reaches or exceeds `draw`, or the last place if the sum of all weights
/// does not.
///
/// With `draw` uniform among the numbers from 1 to the sum of all weights,
/// a place is chosen with a chance of its weight in that sum. With a
/// `draw` of 0 the first place is chosen, whatever the weights.
pub open spec fn first_reaching(weights: Seq<u64>, draw: nat, pos: int) -> bool {
    &&& 0 <= pos < weights.len()
    &&& forall|i: int| 0 <= i < pos ==> total(#[trigger] weights.take(i + 1)) < draw
    &&& total(weights.take(pos + 1)) >= draw || pos == weights.len() - 1
}

/// Whether `draw` is a number that may be handed to a choice of type
/// `kind` among the weights: for a random choice a number from 1 to the
/// sum of the weights, or 0 where all the weights are 0; for the others,
/// which do not read it, 0.
pub open spec fn drawn(kind: SelectionType, weights: Seq<u64>, draw: nat) -> bool {
    if kind == SelectionType::WeightedRandom && total(weights) > 0 {
        1 <= draw <= total(weights)
    } else {
        draw == 0
    }
}

/// `pos` is the place that a selector of type `kind` chooses among the
/// weights, `draw` being the number drawn for a random choice.
pub open spec fn chosen(kind: SelectionType, weights: Seq<u64>, draw: nat, pos: int) -> bool {
    match kind {
        SelectionType::Highest => first_highest(weights, pos),
        SelectionType::Lowest => first_lowest(weights, pos),
        SelectionType::WeightedRandom => first_reaching(weights, draw, pos),
    }
}

/// Whether the selector is as `after` what it was as `before`.
pub open spec fn same<S: MarkovSelector + ?Sized>(before: &S, after: &S) -> bool {
    before == after
}

/// Whether a selector that is as `before` may, once it is reset for a walk
/// in `dir` and asked for the weight of each of the links at the positions
/// `at`, in order, have answered `weights`, and be as `after`.
pub open spec fn asked<S: MarkovSelector + ?Sized>(
    before: &S,
    dir: MarkovTraverseDir,
    m: ChainModel,
    at: Seq<nat>,
    weights: Seq<u64>,
    after: &S,
) -> bool
    decreases at.len(),
{
    if at.len() == 0 {
        weights.len() == 0 && before.resets(dir, after)
    } else {
        let link = m.links[at.last() as int];
        &&& weights.len() == at.len()
        &&& exists|mid: &S|
            asked(before, dir, m, at.drop_last(), weights.drop_last(), mid) && #[trigger] mid.weighs(
                m.textlets[link.src as int],
                m.textlets[link.dst as int],
                m.textlets[link.pct as int],
                link.hits as usize,
                weights.last(),
                after,
            )
    }
}

/// Whether a selector that is as `before` may choose the link at the place
/// `pos` among the links that leave `from` in the direction `dir`, and be
/// as `after`: when it is reset, asked for the weight of each of those
/// links and then for its selection type, it may answer `weights` and
/// `kind`, and with `draw`, a number that may be drawn for them, these
/// choose `pos`. Where all the weights of a random choice are 0, that is
/// the first place.
pub open spec fn decides<S: MarkovSelector + ?Sized>(
    before: &S,
    after: &S,
    m: ChainModel,
    dir: MarkovTraverseDir,
    from: nat,
    weights: Seq<u64>,
    kind: SelectionType,
    draw: nat,
    pos: int,
) -> bool {
    &&& exists|mid: &S|
        asked(before, dir, m, m.candidates(dir, from), weights, mid) && #[trigger] mid.selects(
            kind,
            after,
        )
    &&& drawn(kind, weights, draw)
    &&& chosen(kind, weights, draw, pos)
    &&& 0 <= pos < m.candidates(dir, from).len()
}

/// Whether a selector that is as `before` may take the step from `from`
/// over the punctuation `pct` to `to` in the direction `dir`, and be as
/// `after`: the step is a link that the selector may choose among those
/// that leave `from`.
pub open spec fn selected<S: MarkovSelector + ?Sized>(
    before: &S,
    after: &S,
    m: ChainModel,
    dir: MarkovTraverseDir,
    from: nat,
    pct: nat,
    to: nat,
) -> bool {
    exists|weights: Seq<u64>, kind: SelectionType, draw: nat, pos: int|
        {
            let link = m.links[m.candidates(dir, from)[pos] as int];
            &&& #[trigger] decides(before, after, m, dir, from, weights, kind, draw, pos)
            &&& link.pct == pct
            &&& link.far(dir) == to
        }
}

/// A step that a selector may take is a step along a link of the chain.
pub proof fn lemma_selected_steps<S: MarkovSelector + ?Sized>(
    before: &S,
    after: &S,
    m: ChainModel,
    dir: MarkovTraverseDir,
    from: nat,
    pct: nat,
    to: nat,
)
    requires
        selected(before, after, m, dir, from, pct, to),
    ensures
        steps(m, dir, from, pct, to),
{
    let (weights, kind, draw, pos) = choose|
        weights: Seq<u64>,
        kind: SelectionType,
        draw: nat,
        pos: int,
    |
        {
            let link = m.links[m.candidates(dir, from)[pos] as int];
            &&& #[trigger] decides(before, after, m, dir, from, weights, kind, draw, pos)
            &&& link.pct == pct
            &&& link.far(dir) == to
        };
    lemma_links_at(m.links, dir, from);
    let e = m.candidates(dir, from)[pos] as int;
    assert(m.links[e].near(dir) == from);
}

/// The weights of the links at the positions `at`, where a link that was
/// seen `n` times weighs `rule(n)`.
pub open spec fn weights_of(m: ChainModel, at: Seq<nat>, rule: spec_fn(usize) -> u64) -> Seq<u64> {
    Seq::new(at.len(), |i: int| rule(m.links[at[i] as int].hits as usize))
}

/// The counts of the links at the positions `at`, as weights.
pub open spec fn counts(m: ChainModel, at: Seq<nat>) -> Seq<u64> {
    weights_of(m, at, |n: usize| n as u64)
}

/// Whether selectors of the type `S` give a link that was seen `n` times
/// the weight `rule(n)`, whatever their state and whatever the link joins.
pub open spec fn weighs_by<S: MarkovSelector + ?Sized>(rule: spec_fn(usize) -> u64) -> bool {
    forall|
        before: &S,
        from: Textlet,
        to: Textlet,
        punct: Textlet,
        occurrences: usize,
        weight: u64,
        after: &S,
    | #[trigger]
        before.weighs(from, to, punct, occurrences, weight, after) ==> weight == rule(occurrences)
}

/// A selector that weighs by the count alone answers with those weights
/// for the links that it is asked about.
pub proof fn lemma_asked_weights<S: MarkovSelector + ?Sized>(
    before: &S,
    dir: MarkovTraverseDir,
    m: ChainModel,
    at: Seq<nat>,
    weights: Seq<u64>,
    after: &S,
    rule: spec_fn(usize) -> u64,
)
    requires
        weighs_by::<S>(rule),
        asked(before, dir, m, at, weights, after),
    ensures
        weights == weights_of(m, at, rule),
    decreases at.len(),
{
    if at.len() > 0 {
        let link = m.links[at.last() as int];
        let mid = choose|mid: &S|
            asked(before, dir, m, at.drop_last(), weights.drop_last(), mid) && #[trigger] mid.weighs(
                m.textlets[link.src as int],
                m.textlets[link.dst as int],
                m.textlets[link.pct as int],
                link.hits as usize,
                weights.last(),
                after,
            );
        lemma_asked_weights(before, dir, m, at.drop_last(), weights.drop_last(), mid, rule);
        assert forall|i: int| 0 <= i < at.len() implies weights[i] == weights_of(m, at, rule)[i] by {
            if i < at.len() - 1 {
                assert(weights.drop_last()[i] == weights[i]);
                assert(weights_of(m, at.drop_last(), rule)[i] == weights_of(m, at, rule)[i]);
            }
        }
    }
    assert(weights =~= weights_of(m, at, rule));
}

/// One more weight adds to the sum.
pub proof fn lemma_total_next(weights: Seq<u64>, i: int)
    requires
        0 <= i < weights.len(),
    ensures
        total(weights.take(i + 1)) == total(weights.take(i)) + weights[i],
        total(weights.take(i + 1)) <= (i + 1) * u64::MAX,
    decreases i,
{
    assert(weights.take(i + 1).drop_last() =~= weights.take(i));
    if i > 0 {
        lemma_total_next(weights, i - 1);
    } else {
        assert(total(weights.take(0)) == 0);
    }
    assert((i + 1) * u64::MAX == i * u64::MAX + u64::MAX) by (nonlinear_arith);
}

/// The sum of all the weights, which always fits.
pub fn sum_weights(weights: &Vec<u64>) -> (sum: u128)
    ensures
        sum == total(weights@),
{
    let mut sum: u128 = 0;
    let mut i: usize = 0;
    proof {
        assert(total(weights@.take(0)) == 0);
    }
    while i < weights.len()
        invariant
            i <= weights@.len(),
            sum == total(weights@.take(i as int)),
            sum <= i * u64::MAX,
        decreases weights@.len() - i,
    {
        proof {
            lemma_total_next(weights@, i as int);
            assert((i + 1) * u64::MAX <= usize::MAX * u64::MAX) by (nonlinear_arith)
                requires
                    i + 1 <= usize::MAX,
            ;
            assert(usize::MAX * u64::MAX < u128::MAX) by (nonlinear_arith)
                requires
                    usize::MAX <= u64::MAX,
                    u64::MAX == 0xffff_ffff_ffff_ffff,
                    u128::MAX == 0xffff_ffff_ffff_ffff_ffff_ffff_ffff_ffff,
            ;
        }
        sum = sum + weights[i] as u128;
        i += 1;
    }
    proof {
        assert(weights@.take(i as int) =~= weights@);
    }
    sum
}

/// Chooses among the weights as a selector of type `kind` asks: the first
/// of the highest, the first of the lowest, or, for a random choice, the
/// first place at which the running sum of the weights reaches or exceeds
/// `draw`; the last place, if the sum of all the weights does not.
pub fn weighted_select(kind: SelectionType, weights: &Vec<u64>, draw: u128) -> (pos: usize)
    requires
        weights@.len() > 0,
    ensures
        chosen(kind, weights@, draw as nat, pos as int),
{
    match kind {
        SelectionType::Lowest => {
            let mut best: usize = 0;
            let mut i: usize = 1;
            while i < weights.len()
                invariant
                    1 <= i <= weights@.len(),
                    first_lowest(weights@.take(i as int), best as int),
                decreases weights@.len() - i,
            {
                let ghost seen = weights@.take(i as int);
                let ghost more = weights@.take(i + 1);
                if weights[i] < weights[best] {
                    proof {
                        assert forall|k: int| 0 <= k < i implies more[k] > more[i as int] by {
                            assert(seen[k] >= seen[best as int]);
                        }
                    }
                    best = i;
                } else {
                    proof {
                        assert forall|k: int| 0 <= k < more.len() implies more[k]
                            >= more[best as int] by {
                            if k < i {
                                assert(seen[k] >= seen[best as int]);
                            }
                        }
                        assert forall|k: int| 0 <= k < best implies more[k] > more[best as int] by {
                            assert(seen[k] > seen[best as int]);
                        }
                    }
                }
                i += 1;
            }
            proof {
                assert(weights@.take(i as int) =~= weights@);
            }
            best
        },
        SelectionType::Highest => {
            let mut best: usize = 0;
            let mut i: usize = 1;
            while i < weights.len()
                invariant
                    1 <= i <= weights@.len(),
                    first_highest(weights@.take(i as int), best as int),
                decreases weights@.len() - i,
            {
                let ghost seen = weights@.take(i as int);
                let ghost more = weights@.take(i + 1);
                if weights[i] > weights[best] {
                    proof {
                        assert forall|k: int| 0 <= k < i implies more[k] < more[i as int] by {
                            assert(seen[k] <= seen[best as int]);
                        }
                    }
                    best = i;
                } else {
                    proof {
                        assert forall|k: int| 0 <= k < more.len() implies more[k]
                            <= more[best as int] by {
                            if k < i {
                                assert(seen[k] <= seen[best as int]);
                            }
                        }
                        assert forall|k: int| 0 <= k < best implies more[k] < more[best as int] by {
                            assert(seen[k] < seen[best as int]);
                        }
                    }
                }
                i += 1;
            }
            proof {
                assert(weights@.take(i as int) =~= weights@);
            }
            best
        },
        SelectionType::WeightedRandom => {
            let mut curr: u128 = 0;
            let mut i: usize = 0;
            proof {
                assert(total(weights@.take(0)) == 0);
            }
            while i < weights.len()
                invariant
                    kind == SelectionType::WeightedRandom,
                    i <= weights@.len(),
                    weights@.len() > 0,
                    curr == total(weights@.take(i as int)),
                    curr <= i * u64::MAX,
                    forall|k: int| 0 <= k < i ==> total(#[trigger] weights@.take(k + 1)) < draw,
                decreases weights@.len() - i,
            {
                proof {
                    lemma_total_next(weights@, i as int);
                    assert((i + 1) * u64::MAX <= usize::MAX * u64::MAX) by (nonlinear_arith)
                        requires
                            i + 1 <= usize::MAX,
                    ;
                    assert(usize::MAX * u64::MAX < u128::MAX) by (nonlinear_arith)
                        requires
                            usize::MAX <= u64::MAX,
                            u64::MAX == 0xffff_ffff_ffff_ffff,
                            u128::MAX == 0xffff_ffff_ffff_ffff_ffff_ffff_ffff_ffff,
                    ;
                }
                curr = curr + weights[i] as u128;
                if curr >= draw {
                    return i;
                }
                i += 1;
            }
            weights.len() - 1
        },
    }
}

} // verus!
