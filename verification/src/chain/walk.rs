//! How a selector leads a walk: the steps that it takes one after the
//! other, and the step at which the walk stops.
use vstd::prelude::*;

use super::body::MarkovTraverseDir;
use super::compose::{budget, half_budget, named};
use super::model::ChainModel;
use super::select::{same, selected};
use super::selectors::interface::MarkovSelector;
use super::token::joined;

verus! {

/// The number of characters of the textlets of the ids.
pub open spec fn length(m: ChainModel, ids: Seq<nat>) -> nat {
    joined(named(m, ids)).len()
}

/// The number of characters that a step over `pct` to `to` adds.
pub open spec fn step_length(m: ChainModel, pct: nat, to: nat) -> nat {
    m.textlets[pct as int].text().len() + m.textlets[to as int].text().len()
}

/// Whether a selector that is as `before` may have led a walk back from
/// its last word to its first, and be as `after`: each word but the last,
/// with the punctuation after it, is a step that the selector took from
/// the word that follows, none of the steps led to the beginning marker,
/// and none brought the walk over `limit`.
pub open spec fn led_back<S: MarkovSelector + ?Sized>(
    before: &S,
    m: ChainModel,
    limit: nat,
    ids: Seq<nat>,
    after: &S,
) -> bool
    decreases ids.len(),
{
    if ids.len() <= 1 {
        same(before, after)
    } else {
        &&& ids.len() >= 3
        &&& ids[0] != 0
        &&& length(m, ids) <= limit
        &&& exists|mid: &S|
            led_back(before, m, limit, ids.skip(2), mid) && #[trigger] selected(
                mid,
                after,
                m,
                MarkovTraverseDir::Reverse,
                ids[2],
                ids[1],
                ids[0],
            )
    }
}

/// Whether a selector that is as `before` may have stopped a walk back
/// that had come to `open`, left it as `all`, and be as `after`. Either
/// the first word of `open` is the beginning marker, and nothing was
/// asked; or the selector took a step that would have brought the walk
/// over `limit`, and the walk stays as it is; or it took a step to the
/// beginning marker, and the punctuation of that step comes in front.
pub open spec fn stopped_back<S: MarkovSelector + ?Sized>(
    before: &S,
    m: ChainModel,
    limit: nat,
    open: Seq<nat>,
    all: Seq<nat>,
    after: &S,
) -> bool {
    ||| all == open && open[0] == 0 && same(before, after)
    ||| all == open && open[0] != 0 && exists|pct: nat, to: nat| #[trigger]
        selected(before, after, m, MarkovTraverseDir::Reverse, open[0], pct, to) && length(m, open)
            + step_length(m, pct, to) > limit
    ||| all.len() == open.len() + 1 && all.skip(1) == open && open[0] != 0 && length(m, all)
        <= limit && selected(before, after, m, MarkovTraverseDir::Reverse, open[0], all[0], 0)
}

/// Whether a selector that is as `before` may have led a walk on from
/// `start`, the walk back, to `ids`, and be as `after`: each word after
/// `start`, with the punctuation before it, is a step that the selector
/// took from the word before, none of the steps led to the end marker,
/// and none brought the walk over `limit`.
pub open spec fn led_on<S: MarkovSelector + ?Sized>(
    before: &S,
    m: ChainModel,
    limit: nat,
    start: Seq<nat>,
    ids: Seq<nat>,
    after: &S,
) -> bool
    decreases ids.len(),
{
    if ids.len() <= start.len() || ids.len() < 3 {
        ids == start && same(before, after)
    } else {
        &&& ids.len() >= start.len() + 2
        &&& ids.last() != 1
        &&& length(m, ids) <= limit
        &&& exists|mid: &S|
            led_on(before, m, limit, start, ids.take(ids.len() - 2), mid) && #[trigger] selected(
                mid,
                after,
                m,
                MarkovTraverseDir::Forward,
                ids[ids.len() - 3],
                ids[ids.len() - 2],
                ids[ids.len() - 1],
            )
    }
}

/// Whether a selector that is as `before` may have stopped a walk on that
/// had come to `open`, left it as `all`, and be as `after`. Either the
/// last word of `open` is the end marker, and nothing was asked; or the
/// selector took a step that would have brought the walk over `limit`,
/// and the walk stays as it is; or it took a step to the end marker, and
/// the punctuation of that step is added.
pub open spec fn stopped_on<S: MarkovSelector + ?Sized>(
    before: &S,
    m: ChainModel,
    limit: nat,
    open: Seq<nat>,
    all: Seq<nat>,
    after: &S,
) -> bool {
    ||| all == open && open.last() == 1 && same(before, after)
    ||| all == open && open.last() != 1 && exists|pct: nat, to: nat| #[trigger]
        selected(before, after, m, MarkovTraverseDir::Forward, open.last(), pct, to) && length(
            m,
            open,
        ) + step_length(m, pct, to) > limit
    ||| all.len() == open.len() + 1 && all.take(open.len() as int) == open && open.last() != 1
        && length(m, all) <= limit && selected(
        before,
        after,
        m,
        MarkovTraverseDir::Forward,
        open.last(),
        all.last(),
        1,
    )
}

/// Whether a selector that is as `before` may have led a walk back from
/// its last word, step by step, and stopped it as `all`, within `limit`,
/// and be as `after`.
pub open spec fn went_back<S: MarkovSelector + ?Sized>(
    before: &S,
    after: &S,
    m: ChainModel,
    limit: nat,
    all: Seq<nat>,
) -> bool {
    exists|back: &S, open: Seq<nat>|
        {
            &&& open.len() >= 1
            &&& led_back(before, m, limit, open, back)
            &&& #[trigger] stopped_back(back, m, limit, open, all, after)
        }
}

/// Whether a selector that is as `before` may have led a walk on from
/// `start`, step by step, and stopped it as `all`, within `limit`, and be
/// as `after`.
pub open spec fn went_on<S: MarkovSelector + ?Sized>(
    before: &S,
    after: &S,
    m: ChainModel,
    limit: nat,
    start: Seq<nat>,
    all: Seq<nat>,
) -> bool {
    exists|on: &S, open: Seq<nat>|
        {
            &&& open.len() >= 1
            &&& led_on(before, m, limit, start, open, on)
            &&& #[trigger] stopped_on(on, m, limit, open, all, after)
        }
}

/// Whether a selector that is as `before` may have led the walk `ids`
/// through the seed at `at`, with the cap `max_len`, and be as `after`:
/// first back from the seed, step by step, to the beginning marker or to
/// the first step that would bring the walk over half the cap; then on
/// from the seed, step by step, to the end marker or to the first step
/// that would bring the walk over the cap.
pub open spec fn led<S: MarkovSelector + ?Sized>(
    before: &S,
    after: &S,
    m: ChainModel,
    max_len: Option<usize>,
    ids: Seq<nat>,
    at: int,
) -> bool {
    exists|turn: &S|
        {
            &&& #[trigger] went_back(before, turn, m, half_budget(max_len), ids.take(at + 1))
            &&& went_on(turn, after, m, budget(max_len), ids.take(at + 1), ids)
        }
}

} // verus!
