//! What holds of the tokens of every sentence.
use vstd::prelude::*;

use super::class::is_separator;
use super::lex::{lemma_run_len, lemma_run_len_is, run_len, runs, tokenize};
use super::token::{lemma_text_of_concat, text_of, Lexeme};

verus! {

/// After the beginning marker, punctuation and words take turns up to the
/// end marker, and a punctuation token stands on both sides of every word.
pub open spec fn alternates(tokens: Seq<Lexeme>) -> bool {
    &&& tokens.len() >= 3
    &&& tokens.len() % 2 == 1
    &&& tokens[0] is Begin
    &&& tokens[tokens.len() - 1] is End
    &&& forall|i: int|
        1 <= i < tokens.len() - 1 ==> if i % 2 == 1 {
            #[trigger] tokens[i] is Punct
        } else {
            tokens[i] is Word
        }
}

/// Two tokens that may stand side by side: not two words, and not two
/// punctuation tokens.
pub open spec fn unlike(a: Lexeme, b: Lexeme) -> bool {
    !(a is Word && b is Word) && !(a is Punct && b is Punct)
}

/// A word holds at least one character and no separator; punctuation holds
/// separators only.
pub open spec fn well_classed(token: Lexeme) -> bool {
    match token {
        Lexeme::Word(w) => w.len() > 0 && forall|i: int|
            0 <= i < w.len() ==> !is_separator(#[trigger] w[i]),
        Lexeme::Punct(p) => forall|i: int| 0 <= i < p.len() ==> is_separator(#[trigger] p[i]),
        _ => true,
    }
}

/// The text of a single lexeme, as a sequence of one.
proof fn lemma_text_of_one(token: Lexeme)
    ensures
        text_of(seq![token]) == token.text(),
{
    let one = seq![token];
    assert(one.drop_last() =~= Seq::<Lexeme>::empty());
    assert(text_of(one.drop_last()) =~= Seq::<char>::empty());
    assert(text_of(one) =~= token.text());
}

/// What makes a sequence of lexemes the runs of `s`: punctuation and
/// words in turn, from punctuation to punctuation, each of its class, no
/// punctuation empty but the first and the last, and `s` as their text.
pub open spec fn splits_into_runs(s: Seq<char>, rs: Seq<Lexeme>) -> bool {
    &&& rs.len() % 2 == 1
    &&& forall|i: int|
        0 <= i < rs.len() ==> if i % 2 == 0 {
            #[trigger] rs[i] is Punct
        } else {
            rs[i] is Word
        }
    &&& forall|i: int| 0 <= i < rs.len() ==> well_classed(#[trigger] rs[i])
    &&& forall|i: int| 0 < i < rs.len() - 1 ==> (#[trigger] rs[i]).text().len() > 0
    &&& text_of(rs) == s
}

/// The runs of a string split it into runs.
pub proof fn lemma_runs(s: Seq<char>)
    ensures
        splits_into_runs(s, runs(s)),
    decreases s.len(),
{
    let gap = run_len(s, true) as int;
    lemma_run_len(s, true);
    if gap >= s.len() {
        lemma_text_of_one(Lexeme::Punct(s));
    } else {
        let word = run_len(s.skip(gap), false) as int;
        lemma_run_len(s.skip(gap), false);
        let tail = s.skip(gap + word);
        lemma_runs(tail);
        let p = Lexeme::Punct(s.take(gap));
        let w = Lexeme::Word(s.subrange(gap, gap + word));
        let head = seq![p, w];
        assert(runs(s) == head + runs(tail));
        assert forall|i: int| 0 <= i < runs(s).len() implies (if i % 2 == 0 {
            #[trigger] runs(s)[i] is Punct
        } else {
            runs(s)[i] is Word
        }) && well_classed(runs(s)[i]) by {
            if i >= 2 {
                assert(runs(s)[i] == runs(tail)[i - 2]);
            } else if i == 1 {
                assert forall|j: int| 0 <= j < word implies !is_separator(
                    #[trigger] s.subrange(gap, gap + word)[j],
                ) by {
                    assert(s.subrange(gap, gap + word)[j] == s.skip(gap)[j]);
                }
            }
        }
        assert forall|i: int| 0 < i < runs(s).len() - 1 implies (#[trigger] runs(s)[i]).text().len()
            > 0 by {
            if i > 2 {
                assert(runs(s)[i] == runs(tail)[i - 2]);
            } else if i == 2 {
                // The punctuation after a word that does not end the string.
                assert(runs(s)[2] == runs(tail)[0]);
                assert(runs(tail).len() >= 3);
                lemma_run_len(tail, true);
                if gap + word < s.len() {
                    assert(tail[0] == s.skip(gap)[word]);
                    assert(tail.len() > 0 && is_separator(tail[0]));
                    assert(run_len(tail, true) >= 1);
                }
            }
        }
        lemma_text_of_concat(head, runs(tail));
        assert(head.drop_last() =~= seq![p]);
        lemma_text_of_one(p);
        assert(text_of(head) =~= s.take(gap) + s.subrange(gap, gap + word));
        assert(text_of(runs(s)) =~= s);
    }
}

/// Joining the text of every token of a sentence, in order, gives the
/// sentence back.
pub proof fn lemma_tokenize_round_trip(s: Seq<char>)
    ensures
        text_of(tokenize(s)) == s,
{
    lemma_runs(s);
    let begin = seq![Lexeme::Begin];
    let end = seq![Lexeme::End];
    lemma_text_of_one(Lexeme::Begin);
    lemma_text_of_one(Lexeme::End);
    lemma_text_of_concat(begin, runs(s));
    lemma_text_of_concat(begin + runs(s), end);
    assert(text_of(tokenize(s)) =~= s);
}

/// The tokens of a sentence alternate: no two words and no two punctuation
/// tokens stand side by side.
pub proof fn lemma_tokenize_alternates(s: Seq<char>)
    ensures
        alternates(tokenize(s)),
        forall|i: int|
            0 <= i < tokenize(s).len() - 1 ==> #[trigger] unlike(tokenize(s)[i], tokenize(s)[i + 1]),
{
    lemma_runs(s);
    let t = tokenize(s);
    assert forall|i: int| 1 <= i < t.len() - 1 implies if i % 2 == 1 {
        #[trigger] t[i] is Punct
    } else {
        t[i] is Word
    } by {
        assert(t[i] == runs(s)[i - 1]);
    }
    assert forall|i: int| 0 <= i < t.len() - 1 implies #[trigger] unlike(t[i], t[i + 1]) by {
        if 1 <= i {
            assert(t[i] == runs(s)[i - 1]);
        }
        if i + 1 < t.len() - 1 {
            assert(t[i + 1] == runs(s)[i]);
        }
    }
}

/// Every word of a sentence's tokens holds at least one character and no
/// separator, every punctuation token holds separators only, and none is
/// empty but the first and the last: runs are never split.
pub proof fn lemma_tokenize_classes(s: Seq<char>)
    ensures
        forall|i: int| 0 <= i < tokenize(s).len() ==> well_classed(#[trigger] tokenize(s)[i]),
        forall|i: int|
            1 < i < tokenize(s).len() - 2 ==> (#[trigger] tokenize(s)[i]).text().len() > 0,
{
    lemma_runs(s);
    let t = tokenize(s);
    assert forall|i: int| 0 <= i < t.len() implies well_classed(#[trigger] t[i]) by {
        if 1 <= i < t.len() - 1 {
            assert(t[i] == runs(s)[i - 1]);
        }
    }
    assert forall|i: int| 1 < i < t.len() - 2 implies (#[trigger] t[i]).text().len() > 0 by {
        assert(t[i] == runs(s)[i - 1]);
    }
}

/// What makes a sequence of tokens the tokens of the sentence `s`: it
/// alternates, every token is of its class, no punctuation between two
/// words is empty, and the texts of the tokens join to `s`.
pub open spec fn splits(s: Seq<char>, tokens: Seq<Lexeme>) -> bool {
    &&& alternates(tokens)
    &&& forall|i: int| 0 <= i < tokens.len() ==> well_classed(#[trigger] tokens[i])
    &&& forall|i: int| 1 < i < tokens.len() - 2 ==> (#[trigger] tokens[i]).text().len() > 0
    &&& text_of(tokens) == s
}

/// The tokens of a sentence split it.
pub proof fn lemma_tokenize_splits(s: Seq<char>)
    ensures
        splits(s, tokenize(s)),
{
    lemma_tokenize_round_trip(s);
    lemma_tokenize_alternates(s);
    lemma_tokenize_classes(s);
}

/// The text of lexemes begins with the text of the first of them.
proof fn lemma_text_of_first(rs: Seq<Lexeme>)
    requires
        rs.len() > 0,
    ensures
        text_of(rs) == rs[0].text() + text_of(rs.skip(1)),
{
    let first = seq![rs[0]];
    assert(rs =~= first + rs.skip(1));
    lemma_text_of_concat(first, rs.skip(1));
    lemma_text_of_one(rs[0]);
}

/// Only the runs of a string split it into runs.
proof fn lemma_runs_only(s: Seq<char>, rs: Seq<Lexeme>)
    requires
        splits_into_runs(s, rs),
    ensures
        rs == runs(s),
    decreases rs.len(),
{
    let gap = rs[0].text();
    assert(rs[0] is Punct);
    assert(well_classed(rs[0]));
    lemma_text_of_first(rs);
    if rs.len() == 1 {
        assert(rs.skip(1) =~= Seq::<Lexeme>::empty());
        assert(text_of(rs.skip(1)) =~= Seq::<char>::empty());
        assert(s =~= gap);
        lemma_run_len_is(s, true, s.len() as int);
        assert(rs =~= seq![Lexeme::Punct(s)]);
    } else {
        let word = rs[1].text();
        let rest = rs.skip(2);
        let after = text_of(rest);
        assert(rs[1] is Word);
        assert(well_classed(rs[1]));
        lemma_text_of_first(rs.skip(1));
        assert(rs.skip(1)[0] == rs[1]);
        assert(rs.skip(1).skip(1) =~= rest);
        assert(s =~= gap + (word + after));
        // The first run of separators is the first lexeme.
        assert forall|i: int| 0 <= i < gap.len() implies is_separator(#[trigger] s[i]) by {
            assert(s[i] == gap[i]);
        }
        assert(s[gap.len() as int] == word[0]);
        lemma_run_len_is(s, true, gap.len() as int);
        // The run of word characters after it is the second.
        let tail = s.skip(gap.len() as int);
        assert(tail =~= word + after);
        assert forall|i: int| 0 <= i < word.len() implies !is_separator(#[trigger] tail[i]) by {
            assert(tail[i] == word[i]);
        }
        assert(rest[0] == rs[2]);
        assert(rs[2] is Punct);
        assert(well_classed(rs[2]));
        lemma_text_of_first(rest);
        if word.len() < tail.len() {
            // What follows the word begins with a separator: the next
            // punctuation is not empty, or is the last and the string
            // goes on with nothing.
            if rs[2].text().len() == 0 {
                assert(rs.len() == 3);
                assert(rest.skip(1) =~= Seq::<Lexeme>::empty());
                assert(text_of(rest.skip(1)) =~= Seq::<char>::empty());
                assert(after =~= Seq::<char>::empty());
            }
            assert(tail[word.len() as int] == rs[2].text()[0]);
        }
        lemma_run_len_is(tail, false, word.len() as int);
        // What is left is split by the other lexemes.
        let left = s.skip((gap.len() + word.len()) as int);
        assert(left =~= after);
        assert forall|i: int| 0 <= i < rest.len() implies (if i % 2 == 0 {
            #[trigger] rest[i] is Punct
        } else {
            rest[i] is Word
        }) && well_classed(rest[i]) by {
            assert(rest[i] == rs[i + 2]);
        }
        assert forall|i: int| 0 < i < rest.len() - 1 implies (#[trigger] rest[i]).text().len()
            > 0 by {
            assert(rest[i] == rs[i + 2]);
        }
        lemma_runs_only(left, rest);
        assert(s.take(gap.len() as int) =~= gap);
        assert(s.subrange(gap.len() as int, (gap.len() + word.len()) as int) =~= word);
        assert(rs =~= seq![rs[0], rs[1]] + rest);
        assert(rs =~= runs(s));
    }
}

/// **One way to split.** A sentence is split by its tokens and by no
/// other sequence: what the tokenizer hands out is all that alternates,
/// keeps to the classes, leaves no punctuation between two words empty
/// and joins to the sentence.
pub proof fn lemma_splits_once(s: Seq<char>, tokens: Seq<Lexeme>)
    requires
        splits(s, tokens),
    ensures
        tokens == tokenize(s),
{
    let rs = tokens.subrange(1, tokens.len() - 1);
    let begin = seq![Lexeme::Begin];
    let end = seq![Lexeme::End];
    assert(tokens =~= begin + rs + end);
    lemma_text_of_one(Lexeme::Begin);
    lemma_text_of_one(Lexeme::End);
    lemma_text_of_concat(begin, rs);
    lemma_text_of_concat(begin + rs, end);
    assert(text_of(rs) =~= s);
    assert forall|i: int| 0 <= i < rs.len() implies (if i % 2 == 0 {
        #[trigger] rs[i] is Punct
    } else {
        rs[i] is Word
    }) && well_classed(rs[i]) by {
        assert(rs[i] == tokens[i + 1]);
    }
    assert forall|i: int| 0 < i < rs.len() - 1 implies (#[trigger] rs[i]).text().len() > 0 by {
        assert(rs[i] == tokens[i + 1]);
    }
    lemma_runs_only(s, rs);
}

} // verus!
