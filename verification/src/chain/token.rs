//! The tokens that a chain stores and hands out.
use std::collections::vec_deque::Iter;
use std::collections::VecDeque;
use vstd::prelude::*;
use vstd::std_specs::convert::FromSpecImpl;
use vstd::std_specs::vecdeque::spec_iter;
use vstd::string::{StrSliceExecFns, StringExecFns};

use crate::sentence::token::Token as LexedToken;

verus! {

/// What a token of the chain stands for: one of the two markers, or a piece
/// of text, be it a word or a run of punctuation.
pub enum Textlet {
    Begin,
    End,
    Text(Seq<char>),
}

impl Textlet {
    /// The characters of the textlet; the markers have none.
    pub open spec fn text(self) -> Seq<char> {
        match self {
            Textlet::Text(s) => s,
            _ => Seq::empty(),
        }
    }
}

/// A Markov token.
#[derive(PartialEq, Debug, Clone, Copy)]
pub enum MarkovToken<'a> {
    Begin,
    End,
    Textlet(&'a str),
}

impl<'a> View for MarkovToken<'a> {
    type V = Textlet;

    open spec fn view(&self) -> Textlet {
        match *self {
            MarkovToken::Begin => Textlet::Begin,
            MarkovToken::End => Textlet::End,
            MarkovToken::Textlet(s) => Textlet::Text(s@),
        }
    }
}

impl<'a> MarkovToken<'a> {
    /// The token's text; empty for the markers.
    pub fn string_ref(&'a self) -> (s: &'a str)
        ensures
            s@ == self@.text(),
    {
        match self {
            MarkovToken::Textlet(s) => s,
            MarkovToken::Begin => {
                proof {
                    reveal_strlit("");
                }
                ""
            },
            MarkovToken::End => {
                proof {
                    reveal_strlit("");
                }
                ""
            },
        }
    }

    /// Whether the token has no text.
    pub fn is_empty(&self) -> (b: bool)
        ensures
            b == (self@.text().len() == 0),
    {
        match self {
            MarkovToken::Textlet(s) => s.is_empty(),
            MarkovToken::Begin => true,
            MarkovToken::End => true,
        }
    }

    /// The number of characters of the token's text.
    pub fn len(&self) -> (n: usize)
        ensures
            n == self@.text().len(),
    {
        match self {
            MarkovToken::Textlet(s) => s.unicode_len(),
            MarkovToken::Begin => 0,
            MarkovToken::End => 0,
        }
    }
}

impl<'a> From<&LexedToken<'a>> for MarkovToken<'a> {
    fn from(lexed: &LexedToken<'a>) -> (token: Self) {
        match lexed {
            LexedToken::Begin => MarkovToken::Begin,
            LexedToken::End => MarkovToken::End,
            LexedToken::Punct(w) => MarkovToken::Textlet(w),
            LexedToken::Word(w) => MarkovToken::Textlet(w),
        }
    }
}

impl<'a> FromSpecImpl<&LexedToken<'a>> for MarkovToken<'a> {
    open spec fn obeys_from_spec() -> bool {
        true
    }

    open spec fn from_spec(lexed: &LexedToken<'a>) -> Self {
        match *lexed {
            LexedToken::Begin => MarkovToken::Begin,
            LexedToken::End => MarkovToken::End,
            LexedToken::Punct(w) => MarkovToken::Textlet(w),
            LexedToken::Word(w) => MarkovToken::Textlet(w),
        }
    }
}

/// A Markov token, but owned. Only used from the chain.
#[derive(PartialEq, Debug)]
pub enum MarkovTokenOwned {
    Begin,
    End,
    Textlet(String),
}

impl View for MarkovTokenOwned {
    type V = Textlet;

    open spec fn view(&self) -> Textlet {
        match *self {
            MarkovTokenOwned::Begin => Textlet::Begin,
            MarkovTokenOwned::End => Textlet::End,
            MarkovTokenOwned::Textlet(s) => Textlet::Text(s@),
        }
    }
}

impl<'a> From<&'a MarkovTokenOwned> for MarkovToken<'a> {
    fn from(owned: &'a MarkovTokenOwned) -> (token: Self)
        ensures
            token@ == owned@,
    {
        match owned {
            MarkovTokenOwned::Textlet(s) => MarkovToken::Textlet(s.as_str()),
            MarkovTokenOwned::Begin => MarkovToken::Begin,
            MarkovTokenOwned::End => MarkovToken::End,
        }
    }
}

impl<'a> FromSpecImpl<&'a MarkovTokenOwned> for MarkovToken<'a> {
    /// The borrowed token is known by its view only: see `from`.
    open spec fn obeys_from_spec() -> bool {
        false
    }

    open spec fn from_spec(owned: &'a MarkovTokenOwned) -> Self {
        match *owned {
            MarkovTokenOwned::Textlet(s) => MarkovToken::Textlet(choose|r: &'a str| r@ == s@),
            MarkovTokenOwned::Begin => MarkovToken::Begin,
            MarkovTokenOwned::End => MarkovToken::End,
        }
    }
}

impl<'a> From<&'a MarkovTokenOwned> for &'a str {
    fn from(token: &'a MarkovTokenOwned) -> (s: Self)
        ensures
            s@ == token@.text(),
    {
        match token {
            MarkovTokenOwned::Textlet(s) => s.as_str(),
            MarkovTokenOwned::Begin => {
                proof {
                    reveal_strlit("");
                }
                ""
            },
            MarkovTokenOwned::End => {
                proof {
                    reveal_strlit("");
                }
                ""
            },
        }
    }
}

impl<'a> FromSpecImpl<&'a MarkovTokenOwned> for &'a str {
    /// The borrowed text is known by its view only: see `from`.
    open spec fn obeys_from_spec() -> bool {
        false
    }

    open spec fn from_spec(token: &'a MarkovTokenOwned) -> Self {
        choose|r: &'a str| r@ == token@.text()
    }
}

impl<'a> From<&'a MarkovToken<'a>> for &'a str {
    fn from(token: &'a MarkovToken<'a>) -> (s: Self)
        ensures
            s@ == token@.text(),
    {
        token.string_ref()
    }
}

impl<'a> FromSpecImpl<&'a MarkovToken<'a>> for &'a str {
    /// The text of a marker is known by its view only: see `from`.
    open spec fn obeys_from_spec() -> bool {
        false
    }

    open spec fn from_spec(token: &'a MarkovToken<'a>) -> Self {
        match *token {
            MarkovToken::Textlet(s) => s,
            _ => choose|r: &'a str| r@ == Seq::<char>::empty(),
        }
    }
}

/// The textlets that a sequence of tokens stands for.
pub open spec fn textlets_of(tokens: Seq<MarkovToken<'_>>) -> Seq<Textlet> {
    Seq::new(tokens.len(), |i: int| tokens[i]@)
}

/// The text of a sequence of textlets: their texts, joined in order.
pub open spec fn joined(textlets: Seq<Textlet>) -> Seq<char>
    decreases textlets.len(),
{
    if textlets.len() == 0 {
        Seq::empty()
    } else {
        joined(textlets.drop_last()) + textlets.last().text()
    }
}

/// The number of characters of a joined text is the sum of the lengths of
/// its parts.
pub proof fn lemma_joined_push(textlets: Seq<Textlet>, last: Textlet)
    ensures
        joined(textlets.push(last)) == joined(textlets) + last.text(),
        joined(textlets.push(last)).len() == joined(textlets).len() + last.text().len(),
{
    assert(textlets.push(last).drop_last() =~= textlets);
}

/// Putting a textlet in front puts its text in front.
pub proof fn lemma_joined_front(first: Textlet, textlets: Seq<Textlet>)
    ensures
        joined(seq![first] + textlets) == first.text() + joined(textlets),
        joined(seq![first] + textlets).len() == first.text().len() + joined(textlets).len(),
    decreases textlets.len(),
{
    let all = seq![first] + textlets;
    if textlets.len() == 0 {
        assert(all.drop_last() =~= Seq::<Textlet>::empty());
        assert(joined(all.drop_last()) =~= Seq::<char>::empty());
        assert(joined(all) =~= first.text() + joined(textlets));
    } else {
        lemma_joined_front(first, textlets.drop_last());
        assert(all.drop_last() =~= seq![first] + textlets.drop_last());
        assert(joined(all) =~= first.text() + joined(textlets));
    }
}

/// A list of [`MarkovToken`]s; a sentence.
pub struct TokenList<'a>(pub VecDeque<MarkovToken<'a>>);

impl<'a> View for TokenList<'a> {
    type V = Seq<Textlet>;

    open spec fn view(&self) -> Seq<Textlet> {
        textlets_of(self.0@)
    }
}

impl<'a> TokenList<'a> {
    /// The sentence that the tokens make.
    pub open spec fn text(&self) -> Seq<char> {
        joined(self@)
    }

    /// Walks the tokens from the first to the last.
    pub fn iter(&self) -> (it: Iter<'_, MarkovToken<'a>>)
        ensures
            it == spec_iter(&self.0),
    {
        self.0.iter()
    }

    /// Whether the sentence has no character at all.
    pub fn is_empty(&self) -> (b: bool)
        ensures
            b == (self.text().len() == 0),
    {
        let mut i: usize = 0;
        while i < self.0.len()
            invariant
                i <= self.0@.len(),
                joined(self@.take(i as int)).len() == 0,
            decreases self.0@.len() - i,
        {
            proof {
                assert(self@.take(i + 1) =~= self@.take(i as int).push(self.0@[i as int]@));
                lemma_joined_push(self@.take(i as int), self.0@[i as int]@);
            }
            if !self.0[i].is_empty() {
                proof {
                    lemma_joined_grows(self@, i + 1);
                }
                return false;
            }
            i += 1;
        }
        proof {
            assert(self@.take(i as int) =~= self@);
        }
        true
    }

    /// The number of characters of the sentence.
    pub fn len(&self) -> (n: usize)
        requires
            self.text().len() <= usize::MAX,
        ensures
            n == self.text().len(),
    {
        let mut n: usize = 0;
        let mut i: usize = 0;
        while i < self.0.len()
            invariant
                i <= self.0@.len(),
                n == joined(self@.take(i as int)).len(),
                self.text().len() <= usize::MAX,
            decreases self.0@.len() - i,
        {
            proof {
                assert(self@.take(i + 1) =~= self@.take(i as int).push(self.0@[i as int]@));
                lemma_joined_push(self@.take(i as int), self.0@[i as int]@);
                lemma_joined_grows(self@, i + 1);
            }
            n += self.0[i].len();
            i += 1;
        }
        proof {
            assert(self@.take(i as int) =~= self@);
        }
        n
    }

    /// The sentence as a `String`: the text of every token, in order.
    pub fn to_string(&self) -> (s: String)
        ensures
            s@ == self.text(),
    {
        let mut s = String::new();
        let mut i: usize = 0;
        while i < self.0.len()
            invariant
                i <= self.0@.len(),
                s@ == joined(self@.take(i as int)),
            decreases self.0@.len() - i,
        {
            proof {
                assert(self@.take(i + 1) =~= self@.take(i as int).push(self.0@[i as int]@));
                lemma_joined_push(self@.take(i as int), self.0@[i as int]@);
            }
            s.append(self.0[i].string_ref());
            i += 1;
        }
        proof {
            assert(self@.take(i as int) =~= self@);
        }
        s
    }
}

/// A prefix of a sentence is no longer than the sentence.
pub proof fn lemma_joined_grows(textlets: Seq<Textlet>, k: int)
    requires
        0 <= k <= textlets.len(),
    ensures
        joined(textlets.take(k)).len() <= joined(textlets).len(),
    decreases textlets.len() - k,
{
    if k < textlets.len() {
        lemma_joined_grows(textlets, k + 1);
        assert(textlets.take(k + 1) =~= textlets.take(k).push(textlets[k]));
        lemma_joined_push(textlets.take(k), textlets[k]);
    } else {
        assert(textlets.take(k) =~= textlets);
    }
}

} // verus!
