//! The tokens of a sentence: words, and the punctuation and whitespace
//! between them.
use vstd::prelude::*;
use vstd::string::StringExecFns;

verus! {

/// A token: a word, a run of punctuation and whitespace, or one of the two
/// markers that stand at the beginning and the end of a sentence.
#[derive(Eq, PartialEq, Debug, Clone, Copy)]
pub enum Token<'a> {
    /// A word, a sequence of characters bounded by non-words.
    Word(&'a str),
    /// Punctuation and whitespace; may be empty at the edges of a sentence.
    Punct(&'a str),
    /// The beginning of a sentence.
    Begin,
    /// The end of a sentence.
    End,
}

/// What a [`Token`] stands for, with its text as a sequence of characters.
pub enum Lexeme {
    Word(Seq<char>),
    Punct(Seq<char>),
    Begin,
    End,
}

impl Lexeme {
    /// The characters that the lexeme contributes to its sentence: the two
    /// markers contribute none.
    pub open spec fn text(self) -> Seq<char> {
        match self {
            Lexeme::Word(s) => s,
            Lexeme::Punct(s) => s,
            Lexeme::Begin => Seq::empty(),
            Lexeme::End => Seq::empty(),
        }
    }
}

/// The text of a sequence of lexemes: their texts, joined in order.
pub open spec fn text_of(lexemes: Seq<Lexeme>) -> Seq<char>
    decreases lexemes.len(),
{
    if lexemes.len() == 0 {
        Seq::empty()
    } else {
        text_of(lexemes.drop_last()) + lexemes.last().text()
    }
}

/// The lexemes that a slice of tokens stands for.
pub open spec fn lexemes_of(tokens: Seq<Token<'_>>) -> Seq<Lexeme> {
    Seq::new(tokens.len(), |i: int| tokens[i]@)
}

impl<'a> View for Token<'a> {
    type V = Lexeme;

    open spec fn view(&self) -> Lexeme {
        match *self {
            Token::Word(s) => Lexeme::Word(s@),
            Token::Punct(s) => Lexeme::Punct(s@),
            Token::Begin => Lexeme::Begin,
            Token::End => Lexeme::End,
        }
    }
}

impl<'a> Token<'a> {
    /// The token's own text; empty for the two markers.
    pub fn as_str(&self) -> (s: &'a str)
        ensures
            s@ == self@.text(),
    {
        match self {
            Token::Word(s) => s,
            Token::Punct(s) => s,
            Token::Begin => {
                proof {
                    reveal_strlit("");
                }
                ""
            },
            Token::End => {
                proof {
                    reveal_strlit("");
                }
                ""
            },
        }
    }

    /// Recompose a slice or list of tokens into a `String`.
    pub fn recompose(tokens: &[Token<'a>]) -> (s: String)
        ensures
            s@ == text_of(lexemes_of(tokens@)),
    {
        let mut s = String::new();
        let mut i: usize = 0;
        while i < tokens.len()
            invariant
                i <= tokens.len(),
                s@ == text_of(lexemes_of(tokens@.take(i as int))),
            decreases tokens.len() - i,
        {
            s.append(tokens[i].as_str());
            proof {
                let before = lexemes_of(tokens@.take(i as int));
                let after = lexemes_of(tokens@.take(i + 1));
                assert(after.drop_last() =~= before);
                assert(after.last() == tokens[i as int]@);
            }
            i += 1;
        }
        proof {
            assert(tokens@.take(tokens.len() as int) =~= tokens@);
        }
        s
    }
}

/// Joining two sequences of lexemes joins their texts.
pub proof fn lemma_text_of_concat(a: Seq<Lexeme>, b: Seq<Lexeme>)
    ensures
        text_of(a + b) == text_of(a) + text_of(b),
    decreases b.len(),
{
    if b.len() == 0 {
        assert(a + b =~= a);
        assert(text_of(a) + text_of(b) =~= text_of(a));
    } else {
        lemma_text_of_concat(a, b.drop_last());
        assert((a + b).drop_last() =~= a + b.drop_last());
        assert((a + b).last() == b.last());
        assert(text_of(a + b) =~= text_of(a) + text_of(b));
    }
}

} // verus!
