//! Splitting a sentence string into [`Token`]s.
use vstd::prelude::*;
use vstd::std_specs::iter::IteratorSpec;
use vstd::string::StringSliceAdditionalSpecFns;
use vstd::utf8::{decode_utf8, encode_utf8, encode_utf8_decode_utf8, is_char_boundary};

use super::class::{is_separator, separates};
use super::token::Lexeme;
pub use super::token::Token;
use super::utf8::{lemma_encode_injective, lemma_encode_prefix, lemma_encode_take_next};

verus! {

/// The length of the longest prefix of `s` whose characters are all
/// separators (`sep`), or all word characters (`!sep`).
pub open spec fn run_len(s: Seq<char>, sep: bool) -> nat
    decreases s.len(),
{
    if s.len() > 0 && is_separator(s[0]) == sep {
        1 + run_len(s.drop_first(), sep)
    } else {
        0
    }
}

/// The runs of `s`: a punctuation run, then word and punctuation runs in
/// turn, up to the punctuation run that ends `s`. The first and the last
/// punctuation run are empty where `s` begins or ends with a word.
pub open spec fn runs(s: Seq<char>) -> Seq<Lexeme>
    decreases s.len(),
{
    let gap = run_len(s, true) as int;
    if gap >= s.len() {
        seq![Lexeme::Punct(s)]
    } else {
        let word = run_len(s.skip(gap), false) as int;
        proof {
            lemma_run_len(s, true);
            lemma_run_len(s.skip(gap), false);
        }
        seq![Lexeme::Punct(s.take(gap)), Lexeme::Word(s.subrange(gap, gap + word))] + runs(
            s.skip(gap + word),
        )
    }
}

/// The tokens of the sentence `s`: the beginning marker, the runs of `s`,
/// and the end marker.
pub open spec fn tokenize(s: Seq<char>) -> Seq<Lexeme> {
    seq![Lexeme::Begin] + runs(s) + seq![Lexeme::End]
}

/// A run stays within its string, holds characters of its class only, and
/// stops at the end of the string or before a character of the other class.
pub proof fn lemma_run_len(s: Seq<char>, sep: bool)
    ensures
        run_len(s, sep) <= s.len(),
        forall|i: int| 0 <= i < run_len(s, sep) ==> is_separator(#[trigger] s[i]) == sep,
        run_len(s, sep) < s.len() ==> is_separator(s[run_len(s, sep) as int]) != sep,
        run_len(s, sep) < s.len() ==> run_len(s.skip(run_len(s, sep) as int), !sep) >= 1,
    decreases s.len(),
{
    if s.len() > 0 && is_separator(s[0]) == sep {
        let tail = s.drop_first();
        lemma_run_len(tail, sep);
        let n = run_len(tail, sep) as int;
        assert forall|i: int| 0 <= i < run_len(s, sep) implies is_separator(#[trigger] s[i])
            == sep by {
            if i > 0 {
                assert(s[i] == tail[i - 1]);
            }
        }
        if n < tail.len() {
            assert(s[n + 1] == tail[n]);
            assert(s.skip(n + 1) =~= tail.skip(n));
        }
    } else if s.len() > 0 {
        assert(s.skip(0) =~= s);
    }
}

/// A prefix of one class that ends the string, or is followed by a
/// character of the other class, is the run.
pub proof fn lemma_run_len_is(s: Seq<char>, sep: bool, k: int)
    requires
        0 <= k <= s.len(),
        forall|i: int| 0 <= i < k ==> is_separator(#[trigger] s[i]) == sep,
        k < s.len() ==> is_separator(s[k]) != sep,
    ensures
        run_len(s, sep) == k,
    decreases k,
{
    if k > 0 {
        let tail = s.drop_first();
        assert forall|i: int| 0 <= i < k - 1 implies is_separator(#[trigger] tail[i]) == sep by {
            assert(tail[i] == s[i + 1]);
        }
        if k < s.len() {
            assert(tail[k - 1] == s[k]);
        }
        lemma_run_len_is(tail, sep, k - 1);
        assert(is_separator(s[0]) == sep);
    }
}

#[derive(Clone, Copy, PartialEq, Eq, Structural, Debug)]
enum LexingType {
    Begin,
    Punct,
    Word,
    End,
    Empty,
    PreEnd,
    PostBegin,
}

/// A structure that allows splitting a sentence into [`Token`]s.
pub struct Lexer<'a> {
    /// The text that no token has covered yet.
    rest: &'a str,
    /// How many bytes of `rest` the run being read covers.
    head: usize,
    state: LexingType,
}

impl<'a> Lexer<'a> {
    /// Holds of a lexer between two calls of [`Lexer::next`].
    pub closed spec fn wf(&self) -> bool {
        &&& self.head == 0
        &&& self.state == LexingType::PreEnd ==> self.rest@.len() == 0
    }

    /// The tokens that the lexer has yet to hand out, in order.
    pub closed spec fn pending(&self) -> Seq<Lexeme> {
        let s = self.rest@;
        match self.state {
            LexingType::Begin => tokenize(s),
            LexingType::PostBegin | LexingType::Punct | LexingType::PreEnd => runs(s)
                + seq![Lexeme::End],
            LexingType::Word => {
                let word = run_len(s, false) as int;
                seq![Lexeme::Word(s.take(word))] + runs(s.skip(word)) + seq![Lexeme::End]
            },
            LexingType::End => seq![Lexeme::End],
            LexingType::Empty => Seq::empty(),
        }
    }

    /// The text of the run read so far.
    spec fn run(&self) -> Seq<char> {
        decode_utf8(self.rest.spec_bytes().subrange(0, self.head as int))
    }

    /// Make a new Lexer state from a string.
    pub fn new(from: &'a str) -> (lexer: Lexer<'a>)
        ensures
            lexer.wf(),
            lexer.pending() == tokenize(from@),
    {
        Lexer { rest: from, head: 0, state: LexingType::Begin }
    }

    /// The token of the current state around the text `s`.
    fn state_wrap(&self, s: &'a str) -> (token: Token<'a>)
        requires
            self.state != LexingType::Empty,
        ensures
            token == match self.state {
                LexingType::Word => Token::Word(s),
                LexingType::Begin => Token::Begin,
                LexingType::End => Token::End,
                _ => Token::Punct(s),
            },
    {
        match self.state {
            LexingType::Punct => Token::Punct(s),
            LexingType::Word => Token::Word(s),
            LexingType::Begin => Token::Begin,
            LexingType::End => Token::End,
            // special cases
            _ => Token::Punct(s),
        }
    }

    /// The token that the run read so far makes.
    fn peek_next(&self) -> (token: Token<'a>)
        requires
            self.state != LexingType::Empty,
            is_char_boundary(self.rest.spec_bytes(), self.head as int),
        ensures
            token@ == match self.state {
                LexingType::Word => Lexeme::Word(self.run()),
                LexingType::Begin => Lexeme::Begin,
                LexingType::End => Lexeme::End,
                _ => Lexeme::Punct(self.run()),
            },
    {
        if self.state == LexingType::Begin {
            return Token::Begin;
        }
        if self.state == LexingType::End {
            return Token::End;
        }
        let parts = self.rest.split_at(self.head);
        proof {
            encode_utf8_decode_utf8(parts.0@);
        }
        self.state_wrap(parts.0)
    }

    /// The state that follows the run when `c` is read after it: the class
    /// of `c`, or, at the end of the text, `End` after punctuation and
    /// `PreEnd` after a word.
    fn char_type(&self, c: Option<char>) -> (next: LexingType)
        ensures
            next == match c {
                Some(c) => if is_separator(c) {
                    LexingType::Punct
                } else {
                    LexingType::Word
                },
                None => if self.state == LexingType::Punct || self.state
                    == LexingType::PostBegin {
                    LexingType::End
                } else {
                    LexingType::PreEnd
                },
            },
    {
        match c {
            None => {
                if self.state == LexingType::Punct || self.state == LexingType::PostBegin {
                    LexingType::End
                } else {
                    LexingType::PreEnd
                }
            },
            Some(c) => {
                if separates(c) {
                    LexingType::Punct
                } else {
                    LexingType::Word
                }
            },
        }
    }

    /// Hands out the next token, or `None` once the end marker is out.
    pub fn next(&mut self) -> (token: Option<Token<'a>>)
        requires
            old(self).wf(),
        ensures
            final(self).wf(),
            old(self).pending().len() == 0 ==> token is None && final(self).pending() == old(self).pending(),
            old(self).pending().len() > 0 ==> token is Some && token->0@ == old(self).pending()[0]
                && final(self).pending() == old(self).pending().drop_first(),
    {
        let ghost before = old(self).pending();
        let ghost s = self.rest@;
        if self.state == LexingType::Empty {
            return None;
        }
        if self.state == LexingType::Begin {
            self.state = LexingType::PostBegin;
            assert(before.drop_first() =~= self.pending());
            return Some(Token::Begin);
        }
        if self.state == LexingType::End {
            self.state = LexingType::Empty;
            assert(before.drop_first() =~= self.pending());
            return Some(Token::End);
        }
        if self.state == LexingType::PreEnd {
            self.state = LexingType::End;
            proof {
                reveal_strlit("");
                assert(""@ =~= s);
                assert(before.drop_first() =~= self.pending());
            }
            return Some(Token::Punct(""));
        }
        let sep = self.state != LexingType::Word;
        let final_ctype = if sep {
            LexingType::Punct
        } else {
            LexingType::Word
        };
        let total = self.rest.as_bytes().len();
        let mut chars = self.rest.chars();
        let ghost mut k: int = 0;
        loop
            invariant
                self.rest@ == s,
                self.state == old(self).state,
                self.state == LexingType::PostBegin || self.state == LexingType::Punct
                    || self.state == LexingType::Word,
                sep == (self.state != LexingType::Word),
                final_ctype == if sep {
                    LexingType::Punct
                } else {
                    LexingType::Word
                },
                0 <= k <= s.len(),
                chars.remaining() == s.skip(k),
                self.head as int == encode_utf8(s.take(k)).len(),
                total as int == encode_utf8(s).len(),
                forall|i: int| 0 <= i < k ==> is_separator(#[trigger] s[i]) == sep,
                before == old(self).pending(),
                s == old(self).rest@,
            decreases s.len() - k,
        {
            let nextchar = chars.next();
            let ctype = self.char_type(nextchar);
            if ctype != final_ctype {
                proof {
                    lemma_encode_prefix(s, k);
                    encode_utf8_decode_utf8(s.take(k));
                    assert(self.rest.spec_bytes().subrange(0, self.head as int) =~= encode_utf8(
                        s.take(k),
                    ));
                    if k < s.len() {
                        assert(s.skip(k)[0] == s[k]);
                    }
                    lemma_run_len_is(s, sep, k);
                }
                let res = self.peek_next();
                let parts = self.rest.split_at(self.head);
                proof {
                    assert(parts.1.spec_bytes() =~= encode_utf8(s.skip(k)));
                    lemma_encode_injective(parts.1@, s.skip(k));
                    lemma_run_len(s, sep);
                    if sep && k < s.len() {
                        let word = run_len(s.skip(k), false) as int;
                        lemma_run_len(s.skip(k), false);
                        assert(s.skip(k).take(word) =~= s.subrange(k, k + word));
                        assert(s.skip(k).skip(word) =~= s.skip(k + word));
                    }
                    if sep && k == s.len() {
                        assert(s.take(k) =~= s);
                    }
                }
                self.state = ctype;
                self.rest = parts.1;
                self.head = 0;
                assert(before.drop_first() =~= self.pending());
                return Some(res);
            }
            match nextchar {
                Some(c) => {
                    proof {
                        assert(s.skip(k)[0] == s[k]);
                        lemma_encode_take_next(s, k);
                        lemma_encode_prefix(s, k + 1);
                        assert(s.skip(k).drop_first() =~= s.skip(k + 1));
                        k = k + 1;
                    }
                    self.head += c.len_utf8();
                },
                None => {},
            }
        }
    }
}

} // verus!
