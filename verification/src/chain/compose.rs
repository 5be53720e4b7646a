//! Composing sentences: a walk through the chain, backward and forward
//! from a seed.
use std::collections::VecDeque;
use vstd::prelude::*;

use super::body::{
    starts_at, steps, MarkovChain, MarkovError, MarkovSeed, MarkovTraverseDir, BEGIN, END,
};
use super::model::{lemma_linked_through, ChainModel};
use super::select::{lemma_selected_steps, same, selected};
use super::selectors::interface::MarkovSelector;
use super::token::{
    joined, lemma_joined_front, lemma_joined_push, textlets_of, MarkovToken, Textlet, TokenList,
};
use super::walk::{
    led, led_back, led_on, length, step_length, stopped_back, stopped_on, went_back, went_on,
};

verus! {

/// Whether a walk can pass through the textlet `id`: whether some edge
/// leaves it or leads into it.
pub open spec fn walkable(m: ChainModel, id: nat) -> bool {
    m.has_link(MarkovTraverseDir::Forward, id) || m.has_link(MarkovTraverseDir::Reverse, id)
}

/// The longest sentence that a walk with the cap `max_len` may grow to:
/// the cap, or without one the largest length that the machine holds.
pub open spec fn budget(max_len: Option<usize>) -> nat {
    match max_len {
        Some(cap) => cap as nat,
        None => usize::MAX as nat,
    }
}

/// Half of the cap, up to which a walk may grow backward.
pub open spec fn half_budget(max_len: Option<usize>) -> nat {
    match max_len {
        Some(cap) => (cap / 2) as nat,
        None => usize::MAX as nat,
    }
}

/// The textlets of the ids, in order.
pub open spec fn named(m: ChainModel, ids: Seq<nat>) -> Seq<Textlet> {
    Seq::new(ids.len(), |i: int| m.textlets[ids[i] as int])
}

/// Whether an edge leads from the textlet at `i` over the one after it to
/// the one after that.
pub open spec fn edge_at(m: ChainModel, ids: Seq<nat>, i: int) -> bool {
    steps(m, MarkovTraverseDir::Forward, ids[i], ids[i + 1], ids[i + 2])
}

/// The ids are those of a walk through the seed at `at`: words and
/// punctuation take turns, and each word, the punctuation after it and
/// the next word are joined by an edge. Where punctuation comes first, an
/// edge leads over it from the beginning marker to the first word; where
/// punctuation comes last, an edge leads over it from the last word to
/// the end marker. No id but that of the seed is the id of a marker.
pub open spec fn is_walk(m: ChainModel, ids: Seq<nat>, at: int) -> bool {
    &&& 0 <= at < ids.len()
    &&& forall|i: int| 0 <= i < ids.len() ==> #[trigger] ids[i] < m.textlets.len()
    &&& forall|i: int| 0 <= i < ids.len() && i != at ==> #[trigger] ids[i] >= 2
    &&& forall|i: int|
        0 <= i && i + 2 < ids.len() && (i - at) % 2 == 0 ==> #[trigger] edge_at(m, ids, i)
    &&& at % 2 == 1 ==> steps(m, MarkovTraverseDir::Forward, 0, ids[0], ids[1])
    &&& (ids.len() - 1 - at) % 2 == 1 ==> steps(
        m,
        MarkovTraverseDir::Forward,
        ids[ids.len() - 2],
        ids[ids.len() - 1],
        1,
    )
}

/// Whether some step from `from` in the direction `dir` would bring a
/// sentence of `len` characters over `limit`.
pub open spec fn cut_short(
    m: ChainModel,
    dir: MarkovTraverseDir,
    from: nat,
    len: nat,
    limit: nat,
) -> bool {
    exists|pct: nat, to: nat| #[trigger]
        steps(m, dir, from, pct, to) && pct < m.textlets.len() && to < m.textlets.len() && len
            + m.textlets[pct as int].text().len() + m.textlets[to as int].text().len() > limit
}

/// A walk that begins with a word begins with the beginning marker, or a
/// step further back would have brought the sentence over `limit`.
pub open spec fn began(m: ChainModel, ids: Seq<nat>, limit: nat) -> bool {
    ids.len() % 2 == 1 ==> ids[0] == 0 || cut_short(
        m,
        MarkovTraverseDir::Reverse,
        ids[0],
        joined(named(m, ids)).len(),
        limit,
    )
}

/// A walk that ends with a word ends with the end marker, or a step
/// further on would have brought the sentence over `limit`.
pub open spec fn ended(m: ChainModel, ids: Seq<nat>, at: int, limit: nat) -> bool {
    (ids.len() - 1 - at) % 2 == 0 ==> ids[ids.len() - 1] == 1 || cut_short(
        m,
        MarkovTraverseDir::Forward,
        ids[ids.len() - 1],
        joined(named(m, ids)).len(),
        limit,
    )
}

/// What holds of a sentence `list` that was composed from `seed` with the
/// cap `max_len`. Its tokens are the textlets of `ids`, a walk through the
/// chain; the seed's token stands at `at`, and the seed is a textlet that
/// has an edge. The part up to the seed went back to the beginning marker,
/// or as far as half the cap allowed; the whole went on to the end marker,
/// or as far as the cap allowed. The sentence is no longer than the cap,
/// or else is the seed's token alone. Every step added a word of at least
/// one character, but for the steps that led to a marker: the tokens
/// besides the seed's, and the punctuation that stands first or last
/// where a marker was met, are at most twice the characters.
pub open spec fn composed(
    m: ChainModel,
    seed: MarkovSeed<'_>,
    max_len: Option<usize>,
    list: Seq<Textlet>,
    ids: Seq<nat>,
    at: int,
) -> bool {
    &&& starts_at(m, seed, ids[at])
    &&& composed_around(m, max_len, list, ids, at)
}

/// What holds of a sentence `list` that was composed around the textlet
/// `ids[at]` with the cap `max_len`: see [`composed`].
pub open spec fn composed_around(
    m: ChainModel,
    max_len: Option<usize>,
    list: Seq<Textlet>,
    ids: Seq<nat>,
    at: int,
) -> bool {
    &&& list == named(m, ids)
    &&& is_walk(m, ids, at)
    &&& walkable(m, ids[at])
    &&& began(m, ids.take(at + 1), half_budget(max_len))
    &&& ended(m, ids, at, budget(max_len))
    &&& joined(list).len() <= budget(max_len) || ids.len() == 1
    &&& ids.len() <= 2 * joined(list).len() + 1 + at % 2 + (ids.len() - 1 - at) % 2
    &&& joined(list).len() <= usize::MAX
}

/// **Length.** A sentence composed with a cap is no longer than the cap,
/// unless the seed's token alone is: then it is that token and no more.
pub proof fn lemma_composed_length(
    m: ChainModel,
    seed: MarkovSeed<'_>,
    cap: usize,
    list: Seq<Textlet>,
    ids: Seq<nat>,
    at: int,
)
    requires
        composed(m, seed, Some(cap), list, ids, at),
    ensures
        joined(list).len() <= cap || (list == seq![m.textlets[ids[at] as int]] && joined(list)
            == m.textlets[ids[at] as int].text()),
        joined(list).len() <= cap + m.textlets[ids[at] as int].text().len(),
{
    if ids.len() == 1 {
        let token = m.textlets[ids[at] as int];
        assert(list =~= seq![token]);
        lemma_joined_push(Seq::<Textlet>::empty(), token);
        assert(Seq::<Textlet>::empty().push(token) =~= list);
        assert(joined(Seq::<Textlet>::empty()) =~= Seq::<char>::empty());
        assert(joined(list) =~= token.text());
    }
}

/// The number of steps that a selector takes for the walk `ids` through
/// the seed at `at`: one for each word but the seed, and at each end one
/// more, for the step that was over the limit or led to the marker,
/// unless the walk set out from the marker of that end.
pub open spec fn selections(ids: Seq<nat>, at: int) -> int {
    let on = ids.len() - 1 - at;
    at / 2 + (if at % 2 == 1 || ids[0] != 0 {
        1int
    } else {
        0int
    }) + on / 2 + (if on % 2 == 1 || ids[ids.len() - 1] != 1 {
        1int
    } else {
        0int
    })
}

/// **Steps.** A sentence composed with a cap took the selector at most
/// two steps more than the cap has characters, and has at most three
/// tokens more than twice the cap.
pub proof fn lemma_composed_steps(
    m: ChainModel,
    cap: usize,
    list: Seq<Textlet>,
    ids: Seq<nat>,
    at: int,
)
    requires
        composed_around(m, Some(cap), list, ids, at),
    ensures
        selections(ids, at) <= cap + 2,
        list.len() <= 2 * cap + 3,
{
}

/// **No markers.** In a sentence composed from a valid chain, every token
/// but the seed's is a text: punctuation or a word, never a marker. The
/// seed's token is a marker only where the seed is one.
pub proof fn lemma_composed_texts(
    m: ChainModel,
    max_len: Option<usize>,
    list: Seq<Textlet>,
    ids: Seq<nat>,
    at: int,
)
    requires
        m.valid(),
        composed_around(m, max_len, list, ids, at),
    ensures
        forall|i: int| 0 <= i < list.len() && i != at ==> #[trigger] list[i] is Text,
        list[at] == m.textlets[ids[at] as int],
        ids[at] >= 2 ==> forall|i: int| 0 <= i < list.len() ==> #[trigger] list[i] is Text,
{
    assert forall|i: int| 0 <= i < list.len() && (i != at || ids[at] >= 2) implies #[trigger]
        list[i] is Text by {
        assert(ids[i] >= 2);
        assert(list[i] == m.textlets[ids[i] as int]);
    }
}

/// An edge walked against its direction is the same edge.
pub proof fn lemma_steps_flip(m: ChainModel, from: nat, pct: nat, to: nat)
    ensures
        steps(m, MarkovTraverseDir::Reverse, from, pct, to) == steps(
            m,
            MarkovTraverseDir::Forward,
            to,
            pct,
            from,
        ),
{
    if steps(m, MarkovTraverseDir::Reverse, from, pct, to) {
        let e = choose|e: int|
            0 <= e < m.links.len() && (#[trigger] m.links[e]).near(MarkovTraverseDir::Reverse)
                == from && m.links[e].pct == pct && m.links[e].far(MarkovTraverseDir::Reverse)
                == to;
        assert(m.links[e].near(MarkovTraverseDir::Forward) == to);
    }
    if steps(m, MarkovTraverseDir::Forward, to, pct, from) {
        let e = choose|e: int|
            0 <= e < m.links.len() && (#[trigger] m.links[e]).near(MarkovTraverseDir::Forward)
                == to && m.links[e].pct == pct && m.links[e].far(MarkovTraverseDir::Forward)
                == from;
        assert(m.links[e].near(MarkovTraverseDir::Reverse) == from);
    }
}

/// A walk that begins with a word goes one step further back when the
/// punctuation and the word of an edge into its first word are put in
/// front.
pub proof fn lemma_walk_front_two(m: ChainModel, ids: Seq<nat>, at: int, pct: nat, prev: nat)
    requires
        is_walk(m, ids, at),
        at % 2 == 0,
        steps(m, MarkovTraverseDir::Reverse, ids[0], pct, prev),
        2 <= pct < m.textlets.len(),
        2 <= prev < m.textlets.len(),
    ensures
        is_walk(m, seq![prev, pct] + ids, at + 2),
        named(m, seq![prev, pct] + ids) == seq![m.textlets[prev as int]] + (seq![
            m.textlets[pct as int],
        ] + named(m, ids)),
{
    let more = seq![prev, pct] + ids;
    lemma_steps_flip(m, ids[0], pct, prev);
    assert forall|i: int| 0 <= i && i + 2 < more.len() && (i - (at + 2)) % 2 == 0 implies #[trigger]
        edge_at(m, more, i) by {
        if i >= 2 {
            assert(edge_at(m, ids, i - 2));
            assert(more[i] == ids[i - 2] && more[i + 1] == ids[i - 1] && more[i + 2] == ids[i]);
        } else {
            assert(i == 0);
            assert(more[0] == prev && more[1] == pct && more[2] == ids[0]);
        }
    }
    if (more.len() - 1 - (at + 2)) % 2 == 1 {
        assert(more[more.len() - 2] == ids[ids.len() - 2]);
        assert(more[more.len() - 1] == ids[ids.len() - 1]);
    }
    assert(named(m, more) =~= seq![m.textlets[prev as int]] + (seq![m.textlets[pct as int]]
        + named(m, ids)));
}

/// A walk that begins with a word is complete at the front when the
/// punctuation of an edge from the beginning marker into its first word
/// is put in front.
pub proof fn lemma_walk_front_one(m: ChainModel, ids: Seq<nat>, at: int, pct: nat)
    requires
        is_walk(m, ids, at),
        at % 2 == 0,
        steps(m, MarkovTraverseDir::Reverse, ids[0], pct, 0),
        2 <= pct < m.textlets.len(),
    ensures
        is_walk(m, seq![pct] + ids, at + 1),
        named(m, seq![pct] + ids) == seq![m.textlets[pct as int]] + named(m, ids),
{
    let more = seq![pct] + ids;
    lemma_steps_flip(m, ids[0], pct, 0);
    assert forall|i: int| 0 <= i && i + 2 < more.len() && (i - (at + 1)) % 2 == 0 implies #[trigger]
        edge_at(m, more, i) by {
        assert(i >= 1);
        assert(edge_at(m, ids, i - 1));
        assert(more[i] == ids[i - 1] && more[i + 1] == ids[i] && more[i + 2] == ids[i + 1]);
    }
    assert(more[0] == pct && more[1] == ids[0]);
    if (more.len() - 1 - (at + 1)) % 2 == 1 {
        assert(more[more.len() - 2] == ids[ids.len() - 2]);
        assert(more[more.len() - 1] == ids[ids.len() - 1]);
    }
    assert(named(m, more) =~= seq![m.textlets[pct as int]] + named(m, ids));
}

/// A walk that ends with a word goes one step further when the
/// punctuation and the word of an edge from its last word are added.
pub proof fn lemma_walk_back_two(m: ChainModel, ids: Seq<nat>, at: int, pct: nat, next: nat)
    requires
        is_walk(m, ids, at),
        (ids.len() - 1 - at) % 2 == 0,
        steps(m, MarkovTraverseDir::Forward, ids[ids.len() - 1], pct, next),
        2 <= pct < m.textlets.len(),
        2 <= next < m.textlets.len(),
    ensures
        is_walk(m, ids.push(pct).push(next), at),
        named(m, ids.push(pct).push(next)) == named(m, ids).push(m.textlets[pct as int]).push(
            m.textlets[next as int],
        ),
        ids.push(pct).push(next).take(at + 1) == ids.take(at + 1),
{
    let more = ids.push(pct).push(next);
    assert forall|i: int| 0 <= i && i + 2 < more.len() && (i - at) % 2 == 0 implies #[trigger]
        edge_at(m, more, i) by {
        if i + 2 < ids.len() {
            assert(edge_at(m, ids, i));
        } else {
            assert(i == ids.len() - 1);
        }
    }
    assert(named(m, more) =~= named(m, ids).push(m.textlets[pct as int]).push(
        m.textlets[next as int],
    ));
    assert(more.take(at + 1) =~= ids.take(at + 1));
}

/// A walk that ends with a word is complete at the back when the
/// punctuation of an edge from its last word to the end marker is added.
pub proof fn lemma_walk_back_one(m: ChainModel, ids: Seq<nat>, at: int, pct: nat)
    requires
        is_walk(m, ids, at),
        (ids.len() - 1 - at) % 2 == 0,
        steps(m, MarkovTraverseDir::Forward, ids[ids.len() - 1], pct, 1),
        2 <= pct < m.textlets.len(),
    ensures
        is_walk(m, ids.push(pct), at),
        named(m, ids.push(pct)) == named(m, ids).push(m.textlets[pct as int]),
        ids.push(pct).take(at + 1) == ids.take(at + 1),
{
    let more = ids.push(pct);
    assert forall|i: int| 0 <= i && i + 2 < more.len() && (i - at) % 2 == 0 implies #[trigger]
        edge_at(m, more, i) by {
        assert(edge_at(m, ids, i));
    }
    assert(named(m, more) =~= named(m, ids).push(m.textlets[pct as int]));
    assert(more.take(at + 1) =~= ids.take(at + 1));
}

/// The length of a sentence of `len` characters once `a` and `b` more are
/// added, if that is within `limit`.
pub fn grown(len: usize, a: usize, b: usize, limit: usize) -> (new_len: Option<usize>)
    ensures
        new_len == if len + a + b <= limit {
            Some((len + a + b) as usize)
        } else {
            None
        },
{
    if a > limit || len > limit - a {
        return None;
    }
    let with_a = len + a;
    if b > limit - with_a {
        return None;
    }
    Some(with_a + b)
}

/// A seed that is no random one starts a walk at one textlet only.
pub proof fn lemma_starts_at_one(m: ChainModel, seed: MarkovSeed<'_>, start: nat)
    requires
        starts_at(m, seed, start),
    ensures
        seed !is Random ==> forall|id: nat| starts_at(m, seed, id) ==> id == start,
{
}

/// A step of a walk leads to a textlet of the chain from which the walk
/// can go on, unless it is the marker at the end of the walk's direction;
/// it never leads to the other marker, a word it leads to is not empty,
/// and the punctuation it leads over is a text.
pub proof fn lemma_step(m: ChainModel, dir: MarkovTraverseDir, from: nat, pct: nat, to: nat)
    requires
        m.valid(),
        m.linked(),
        steps(m, dir, from, pct, to),
    ensures
        walkable(m, from),
        walkable(m, to),
        to < m.textlets.len(),
        2 <= pct < m.textlets.len(),
        dir == MarkovTraverseDir::Reverse ==> to != 1 && (to == 0 || m.has_link(dir, to)),
        dir == MarkovTraverseDir::Forward ==> to != 0 && (to == 1 || m.has_link(dir, to)),
        to >= 2 ==> m.textlets[to as int] is Text && m.textlets[to as int].text().len() > 0,
{
    reveal(ChainModel::has_link);
    let e = choose|e: int|
        0 <= e < m.links.len() && (#[trigger] m.links[e]).near(dir) == from && m.links[e].pct == pct
            && m.links[e].far(dir) == to;
    let link = m.links[e];
    assert(link.near(MarkovTraverseDir::Forward) == link.src);
    assert(link.near(MarkovTraverseDir::Reverse) == link.dst);
    assert(m.has_link(MarkovTraverseDir::Forward, link.src));
    assert(m.has_link(MarkovTraverseDir::Reverse, link.dst));
}

impl MarkovChain {
    /// Composes a sentence by traversing this chain forward and backward
    /// from a given 'seed word'.
    ///
    /// The sentence starts as the seed's token. Steps against the edges
    /// put punctuation and the word before it in front, until the
    /// beginning marker is met, which is left out, or until the step that
    /// the selector chose would bring the sentence over half of `max_len`.
    /// Steps along the edges then add punctuation and the next word at
    /// the back, until the end marker is met, which is left out, or until
    /// the chosen step would bring the sentence over `max_len`. Lengths are
    /// counted in characters.
    ///
    /// Without `max_len` the walk ends at the markers only, or where the
    /// sentence would grow past what a `usize` counts: it is for the caller
    /// to trust the chain to lead there.
    pub fn compose_sentence<'a, S: MarkovSelector + ?Sized>(
        &'a self,
        seed: MarkovSeed,
        selector: &mut S,
        max_len: Option<usize>,
    ) -> (sentence: Result<TokenList<'a>, MarkovError>)
        requires
            self.wf(),
        ensures
            match sentence {
                Ok(list) => exists|ids: Seq<nat>, at: int| #[trigger]
                    composed(self@, seed, max_len, list@, ids, at) && led(
                        old(selector),
                        final(selector),
                        self@,
                        max_len,
                        ids,
                        at,
                    ),
                Err(MarkovError::EmptyChain) => self@.links.len() == 0,
                Err(MarkovError::SeedNotFound) => seed matches MarkovSeed::Word(word) && self@.id_of(
                    word@,
                ) is None,
                Err(MarkovError::DeadEnd(id)) => starts_at(self@, seed, id as nat) && !walkable(
                    self@,
                    id as nat,
                ),
            },
            sentence is Ok <==> self@.links.len() > 0 && exists|id: nat| #[trigger]
                starts_at(self@, seed, id) && walkable(self@, id),
            self@.links.len() == 0 ==> sentence == Err::<TokenList<'a>, _>(MarkovError::EmptyChain),
            sentence is Err ==> same(old(selector), final(selector)),
    {
        let ghost m = self@;
        let mut rng = rand::thread_rng();
        if self.is_empty() {
            return Err(MarkovError::EmptyChain);
        }
        let start = match self.get_seed(seed, &mut rng) {
            Ok(start) => start,
            Err(e) => {
                proof {
                    assert(e == MarkovError::SeedNotFound);
                }
                return Err(e);
            },
        };
        proof {
            lemma_starts_at_one(m, seed, start as nat);
        }
        let seed_token = match self.get_textlet(start) {
            Some(token) => token,
            None => {
                proof {
                    if walkable(m, start as nat) {
                        lemma_linked_through(m, start as nat);
                    }
                }
                return Err(MarkovError::DeadEnd(start));
            },
        };
        let mut sentence: VecDeque<MarkovToken<'a>> = VecDeque::new();
        sentence.push_back(seed_token);
        let mut len = seed_token.len();
        let ghost mut ids: Seq<nat> = seq![start as nat];
        let ghost mut at: int = 0;
        let mut curr_backward = start;
        let mut curr_forward = start;
        let limit = match max_len {
            Some(cap) => cap,
            None => usize::MAX,
        };
        let half_limit = match max_len {
            Some(cap) => cap / 2,
            None => usize::MAX,
        };
        proof {
            assert(textlets_of(sentence@) =~= named(m, ids));
            lemma_joined_push(Seq::<Textlet>::empty(), seed_token@);
            assert(Seq::<Textlet>::empty().push(seed_token@) =~= named(m, ids));
            assert(joined(Seq::<Textlet>::empty()) =~= Seq::<char>::empty());
        }
        while curr_backward != self.begin()
            invariant_except_break
                ids.len() <= 2 * len + 1,
                at % 2 == 0,
                ids[0] == curr_backward,
                led_back(old(selector), m, half_limit as nat, ids, selector),
                curr_backward == BEGIN ==> stopped_back(
                    selector,
                    m,
                    half_limit as nat,
                    ids,
                    ids,
                    selector,
                ),
            invariant
                self.wf(),
                m == self@,
                m.links.len() > 0,
                limit == budget(max_len),
                half_limit == half_budget(max_len),
                half_limit <= limit,
                starts_at(m, seed, start as nat),
                seed !is Random ==> forall|id: nat| starts_at(m, seed, id) ==> id == start,
                ids.len() == at + 1,
                is_walk(m, ids, at),
                ids[at] == start,
                textlets_of(sentence@) == named(m, ids),
                len == joined(named(m, ids)).len(),
                len <= half_limit || ids.len() == 1,
                ids.len() <= 2 * len + 1 + at % 2,
                curr_backward == start || m.has_link(
                    MarkovTraverseDir::Reverse,
                    curr_backward as nat,
                ),
                ids.len() > 1 ==> walkable(m, start as nat),
            ensures
                ids.len() == at + 1,
                is_walk(m, ids, at),
                ids[at] == start,
                textlets_of(sentence@) == named(m, ids),
                len == joined(named(m, ids)).len(),
                len <= limit || ids.len() == 1,
                ids.len() <= 2 * len + 1 + at % 2,
                began(m, ids, half_limit as nat),
                start != BEGIN ==> walkable(m, start as nat),
                went_back(old(selector), selector, m, half_limit as nat, ids),
                !walkable(m, start as nat) ==> same(old(selector), selector),
            decreases half_limit - len,
        {
            let ghost before = &*selector;
            let step = self.select_next_word(
                MarkovSeed::Id(curr_backward),
                selector,
                MarkovTraverseDir::Reverse,
            );
            let (prev, punct, prvidx, pctidx) = match step {
                Ok(found) => found,
                Err(e) => {
                    proof {
                        assert(e == MarkovError::DeadEnd(curr_backward));
                        if walkable(m, start as nat) {
                            lemma_linked_through(m, start as nat);
                        }
                    }
                    return Err(e);
                },
            };
            proof {
                assert(selected(
                    before,
                    selector,
                    m,
                    MarkovTraverseDir::Reverse,
                    curr_backward as nat,
                    pctidx as nat,
                    prvidx as nat,
                ));
                assert(m.has_link(MarkovTraverseDir::Reverse, curr_backward as nat));
                lemma_selected_steps(
                    before,
                    &*selector,
                    m,
                    MarkovTraverseDir::Reverse,
                    curr_backward as nat,
                    pctidx as nat,
                    prvidx as nat,
                );
                lemma_step(
                    m,
                    MarkovTraverseDir::Reverse,
                    curr_backward as nat,
                    pctidx as nat,
                    prvidx as nat,
                );
            }
            let new_len = match grown(len, punct.len(), prev.len(), half_limit) {
                Some(new_len) => new_len,
                None => {
                    proof {
                        assert(length(m, ids) + step_length(m, pctidx as nat, prvidx as nat)
                            > half_limit);
                        assert(stopped_back(before, m, half_limit as nat, ids, ids, selector));
                    }
                    break ;
                },
            };
            len = new_len;
            proof {
                lemma_joined_front(punct@, named(m, ids));
            }
            sentence.push_front(punct);
            if let MarkovToken::Begin = prev {
                proof {
                    lemma_walk_front_one(m, ids, at, pctidx as nat);
                    assert(textlets_of(sentence@) =~= seq![punct@] + named(m, ids));
                    let open = ids;
                    ids = seq![pctidx as nat] + ids;
                    at = at + 1;
                    assert(ids.skip(1) =~= open);
                    assert(prvidx == 0);
                    assert(stopped_back(before, m, half_limit as nat, open, ids, selector));
                }
                break ;
            }
            assert(prvidx >= 2 && prev@.text().len() > 0);
            proof {
                lemma_joined_front(prev@, seq![punct@] + named(m, ids));
                lemma_walk_front_two(m, ids, at, pctidx as nat, prvidx as nat);
            }
            sentence.push_front(prev);
            proof {
                assert(textlets_of(sentence@) =~= seq![prev@] + (seq![punct@] + named(m, ids)));
                let open = ids;
                ids = seq![prvidx as nat, pctidx as nat] + ids;
                at = at + 2;
                assert(ids.skip(2) =~= open);
                assert(led_back(old(selector), m, half_limit as nat, ids.skip(2), before)
                    && selected(
                    before,
                    selector,
                    m,
                    MarkovTraverseDir::Reverse,
                    ids[2],
                    ids[1],
                    ids[0],
                ));
            }
            curr_backward = prvidx;
        }
        let ghost turn = &*selector;
        let ghost back_ids = ids;
        proof {
            assert(ids.take(at + 1) =~= ids);
        }
        while curr_forward != self.end()
            invariant_except_break
                ids.len() <= 2 * len + 1 + at % 2,
                (ids.len() - 1 - at) % 2 == 0,
                ids[ids.len() - 1] == curr_forward,
                led_on(turn, m, limit as nat, back_ids, ids, selector),
                curr_forward == END ==> stopped_on(selector, m, limit as nat, ids, ids, selector),
            invariant
                !walkable(m, start as nat) ==> same(old(selector), turn),
                back_ids.len() == at + 1,
                self.wf(),
                m == self@,
                m.links.len() > 0,
                limit == budget(max_len),
                starts_at(m, seed, start as nat),
                seed !is Random ==> forall|id: nat| starts_at(m, seed, id) ==> id == start,
                is_walk(m, ids, at),
                ids[at] == start,
                ids.take(at + 1) == back_ids,
                textlets_of(sentence@) == named(m, ids),
                len == joined(named(m, ids)).len(),
                len <= limit || ids.len() == 1,
                ids.len() <= 2 * len + 1 + at % 2 + (ids.len() - 1 - at) % 2,
                start != BEGIN ==> walkable(m, start as nat),
                curr_forward == start || m.has_link(MarkovTraverseDir::Forward, curr_forward as nat),
                ids.len() > at + 1 ==> walkable(m, start as nat),
            ensures
                is_walk(m, ids, at),
                ids[at] == start,
                ids.take(at + 1) == back_ids,
                textlets_of(sentence@) == named(m, ids),
                len == joined(named(m, ids)).len(),
                len <= limit || ids.len() == 1,
                ids.len() <= 2 * len + 1 + at % 2 + (ids.len() - 1 - at) % 2,
                ended(m, ids, at, limit as nat),
                walkable(m, start as nat),
                went_on(turn, selector, m, limit as nat, back_ids, ids),
            decreases limit - len,
        {
            let ghost before = &*selector;
            let step = self.select_next_word(
                MarkovSeed::Id(curr_forward),
                selector,
                MarkovTraverseDir::Forward,
            );
            let (next, punct, nxtidx, pctidx) = match step {
                Ok(found) => found,
                Err(e) => {
                    proof {
                        assert(e == MarkovError::DeadEnd(curr_forward));
                        if walkable(m, start as nat) {
                            lemma_linked_through(m, start as nat);
                        }
                    }
                    return Err(e);
                },
            };
            proof {
                assert(selected(
                    before,
                    selector,
                    m,
                    MarkovTraverseDir::Forward,
                    curr_forward as nat,
                    pctidx as nat,
                    nxtidx as nat,
                ));
                assert(m.has_link(MarkovTraverseDir::Forward, curr_forward as nat));
                lemma_selected_steps(
                    before,
                    &*selector,
                    m,
                    MarkovTraverseDir::Forward,
                    curr_forward as nat,
                    pctidx as nat,
                    nxtidx as nat,
                );
                lemma_step(
                    m,
                    MarkovTraverseDir::Forward,
                    curr_forward as nat,
                    pctidx as nat,
                    nxtidx as nat,
                );
            }
            let new_len = match grown(len, punct.len(), next.len(), limit) {
                Some(new_len) => new_len,
                None => {
                    proof {
                        assert(length(m, ids) + step_length(m, pctidx as nat, nxtidx as nat)
                            > limit);
                        assert(stopped_on(before, m, limit as nat, ids, ids, selector));
                    }
                    break ;
                },
            };
            len = new_len;
            proof {
                lemma_joined_push(named(m, ids), punct@);
            }
            sentence.push_back(punct);
            if let MarkovToken::End = next {
                proof {
                    lemma_walk_back_one(m, ids, at, pctidx as nat);
                    assert(textlets_of(sentence@) =~= named(m, ids).push(punct@));
                    let open = ids;
                    ids = ids.push(pctidx as nat);
                    assert(ids.take(open.len() as int) =~= open);
                    assert(nxtidx == 1);
                    assert(stopped_on(before, m, limit as nat, open, ids, selector));
                }
                break ;
            }
            assert(nxtidx >= 2 && next@.text().len() > 0);
            proof {
                lemma_joined_push(named(m, ids).push(punct@), next@);
                lemma_walk_back_two(m, ids, at, pctidx as nat, nxtidx as nat);
            }
            sentence.push_back(next);
            proof {
                assert(textlets_of(sentence@) =~= named(m, ids).push(punct@).push(next@));
                let open = ids;
                ids = ids.push(pctidx as nat).push(nxtidx as nat);
                assert(ids.take(ids.len() - 2) =~= open);
                assert(led_on(turn, m, limit as nat, back_ids, ids.take(ids.len() - 2), before)
                    && selected(
                    before,
                    selector,
                    m,
                    MarkovTraverseDir::Forward,
                    ids[ids.len() - 3],
                    ids[ids.len() - 2],
                    ids[ids.len() - 1],
                ));
            }
            curr_forward = nxtidx;
        }
        let list = TokenList(sentence);
        let sentence = Ok(list);
        proof {
            assert(went_back(old(selector), turn, m, half_budget(max_len), ids.take(at + 1))
                && went_on(turn, selector, m, budget(max_len), ids.take(at + 1), ids));
            assert(composed(m, seed, max_len, sentence->Ok_0@, ids, at));
            assert(led(old(selector), selector, m, max_len, ids, at));
        }
        sentence
    }
}

} // verus!
