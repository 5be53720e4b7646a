//! Answering a prompt: a sentence composed around one of the prompt's
//! words.
use rand::rngs::ThreadRng;
use vstd::prelude::*;

use super::body::{starts_at, MarkovChain, MarkovError, MarkovSeed, MarkovTraverseDir};
use super::chance::draw_below;
use super::compose::{composed, walkable};
use super::model::ChainModel;
use super::selectors::random::WeightedRandomSelector;
use super::token::TokenList;
use super::walk::led;
use crate::sentence::lex::{tokenize, Lexer, Token};
use crate::sentence::token::Lexeme;

verus! {

/// The longest answer to a prompt, in characters.
pub const MAX_LEN: usize = 450;

/// The words among the lexemes, in order.
pub open spec fn words_in(tokens: Seq<Lexeme>) -> Seq<Seq<char>>
    decreases tokens.len(),
{
    if tokens.len() == 0 {
        Seq::empty()
    } else if tokens.last() is Word {
        words_in(tokens.drop_last()).push(tokens.last().text())
    } else {
        words_in(tokens.drop_last())
    }
}

/// The texts of the strings.
pub open spec fn texts(strs: Seq<&str>) -> Seq<Seq<char>> {
    Seq::new(strs.len(), |i: int| strs[i]@)
}

/// Whether `seed` is a seed for an answer to a prompt with the words
/// `words`: one of the words, or a random seed where there is no word.
pub open spec fn prompted(words: Seq<Seq<char>>, seed: MarkovSeed<'_>) -> bool {
    match seed {
        MarkovSeed::Word(word) => exists|i: int|
            0 <= i < words.len() && #[trigger] words[i] == word@,
        MarkovSeed::Id(_) => false,
        MarkovSeed::Random => words.len() == 0,
    }
}

/// The words of the prompt, in order.
pub fn prompt_words<'a>(prompt: &'a str) -> (words: Vec<&'a str>)
    ensures
        texts(words@) == words_in(tokenize(prompt@)),
{
    let ghost tokens = tokenize(prompt@);
    let mut lexer = Lexer::new(prompt);
    let mut words: Vec<&'a str> = Vec::new();
    let ghost mut k: int = 0;
    proof {
        assert(tokens.skip(0) =~= tokens);
        assert(tokens.take(0) =~= Seq::<Lexeme>::empty());
        assert(texts(words@) =~= words_in(tokens.take(0)));
    }
    loop
        invariant
            lexer.wf(),
            0 <= k <= tokens.len(),
            lexer.pending() == tokens.skip(k),
            texts(words@) == words_in(tokens.take(k)),
        ensures
            texts(words@) == words_in(tokens),
        decreases tokens.len() - k,
    {
        let ghost before = words@;
        match lexer.next() {
            None => {
                proof {
                    assert(tokens.take(k) =~= tokens);
                }
                break ;
            },
            Some(token) => {
                proof {
                    assert(tokens.skip(k)[0] == tokens[k]);
                    assert(tokens.skip(k).drop_first() =~= tokens.skip(k + 1));
                    assert(tokens.take(k + 1).drop_last() =~= tokens.take(k));
                    assert(tokens.take(k + 1).last() == tokens[k]);
                }
                if let Token::Word(w) = token {
                    words.push(w);
                    proof {
                        assert(texts(words@) =~= texts(before).push(w@));
                    }
                }
                proof {
                    k = k + 1;
                }
            },
        }
    }
    words
}

/// The seed for an answer: one of the words, each with the same chance,
/// or a random seed where there is no word.
pub fn seed_among<'a>(words: &Vec<&'a str>, rng: &mut ThreadRng) -> (seed: MarkovSeed<'a>)
    ensures
        words@.len() == 0 ==> seed is Random,
        words@.len() > 0 ==> exists|i: int|
            0 <= i < words@.len() && seed == MarkovSeed::Word(#[trigger] words@[i]),
{
    if words.len() == 0 {
        MarkovSeed::Random
    } else {
        let i = draw_below(rng, words.len() as u128) as usize;
        MarkovSeed::Word(words[i])
    }
}

impl MarkovChain {
    /// Composes an answer to `prompt`: a sentence of at most [`MAX_LEN`]
    /// characters around one of the words of the prompt, chosen at random,
    /// or around a random seed where the prompt has no word. Each step
    /// takes an edge with a chance in proportion to its count.
    ///
    /// Returns the seed that was chosen, and the answer or the reason why
    /// none could be composed from that seed.
    pub fn produce<'a, 'p>(&'a self, prompt: &'p str) -> (out: (
        MarkovSeed<'p>,
        Result<TokenList<'a>, MarkovError>,
    ))
        requires
            self.wf(),
        ensures
            prompted(words_in(tokenize(prompt@)), out.0),
            match out.1 {
                Ok(list) => exists|ids: Seq<nat>, at: int| #[trigger]
                    composed(self@, out.0, Some(MAX_LEN), list@, ids, at) && led(
                        &WeightedRandomSelector,
                        &WeightedRandomSelector,
                        self@,
                        Some(MAX_LEN),
                        ids,
                        at,
                    ),
                Err(MarkovError::EmptyChain) => self@.links.len() == 0,
                Err(MarkovError::SeedNotFound) => out.0 matches MarkovSeed::Word(word)
                    && self@.id_of(word@) is None,
                Err(MarkovError::DeadEnd(id)) => starts_at(self@, out.0, id as nat) && !walkable(
                    self@,
                    id as nat,
                ),
            },
            out.1 is Ok <==> self@.links.len() > 0 && exists|id: nat| #[trigger]
                starts_at(self@, out.0, id) && walkable(self@, id),
            self@.links.len() == 0 ==> out.1 == Err::<TokenList<'a>, _>(MarkovError::EmptyChain),
            self@.links.len() > 0 && words_in(tokenize(prompt@)).len() == 0 ==> out.1 is Ok,
    {
        let words = prompt_words(prompt);
        let mut rng = rand::thread_rng();
        let seed = seed_among(&words, &mut rng);
        let mut selector = WeightedRandomSelector;
        let answer = self.compose_sentence(seed, &mut selector, Some(MAX_LEN));
        proof {
            let all = words_in(tokenize(prompt@));
            if words@.len() > 0 {
                let i = choose|i: int|
                    0 <= i < words@.len() && seed == MarkovSeed::Word(#[trigger] words@[i]);
                assert(texts(words@)[i] == words@[i]@);
                assert(all[i] == words@[i]@);
            } else {
                assert(texts(words@).len() == 0);
                if self@.links.len() > 0 {
                    lemma_first_link(self@);
                }
            }
        }
        (seed, answer)
    }
}

/// A chain with a link has a textlet that a link leaves.
proof fn lemma_first_link(m: ChainModel)
    requires
        m.links.len() > 0,
    ensures
        exists|id: nat| #[trigger]
            starts_at(m, MarkovSeed::Random, id) && walkable(m, id),
{
    reveal(ChainModel::has_link);
    let id = m.links[0].src;
    assert(m.links[0].near(MarkovTraverseDir::Forward) == id);
    assert(starts_at(m, MarkovSeed::Random, id) && walkable(m, id));
}

} // verus!
