use wordmarkov::sentence::lex::Lexer;
use wordmarkov::sentence::token::Token;

#[test]
fn test_split_sentence() {
    let sentence = "Nice tea, mate.";

    let mut lexstate = Lexer::new(sentence);

    assert_eq!(lexstate.next(), Some(Token::Begin));
    assert_eq!(lexstate.next(), Some(Token::Punct("")));
    assert_eq!(lexstate.next(), Some(Token::Word("Nice")));
    assert_eq!(lexstate.next(), Some(Token::Punct(" ")));
    assert_eq!(lexstate.next(), Some(Token::Word("tea")));
    assert_eq!(lexstate.next(), Some(Token::Punct(", ")));
    assert_eq!(lexstate.next(), Some(Token::Word("mate")));
    assert_eq!(lexstate.next(), Some(Token::Punct(".")));
    assert_eq!(lexstate.next(), Some(Token::End));
    assert_eq!(lexstate.next(), None);
    assert_eq!(lexstate.next(), None);
}

#[test]
fn test_split_sentence_1() {
    let sentence = "Nice tea, mate.";

    let mut lexstate = Lexer::new(sentence);

    assert_eq!(lexstate.next(), Some(Token::Begin));
    assert_eq!(lexstate.next(), Some(Token::Punct("")));
    assert_eq!(lexstate.next(), Some(Token::Word("Nice")));
    assert_eq!(lexstate.next(), Some(Token::Punct(" ")));
    assert_eq!(lexstate.next(), Some(Token::Word("tea")));
    assert_eq!(lexstate.next(), Some(Token::Punct(", ")));
    assert_eq!(lexstate.next(), Some(Token::Word("mate")));
    assert_eq!(lexstate.next(), Some(Token::Punct(".")));
    assert_eq!(lexstate.next(), Some(Token::End));
    assert_eq!(lexstate.next(), None);
    assert_eq!(lexstate.next(), None);
}

#[test]
fn test_split_sentence_2() {
    let sentence = "[ITEM] Avocado - sweet";

    let mut lexstate = Lexer::new(sentence);

    assert_eq!(lexstate.next(), Some(Token::Begin));
    assert_eq!(lexstate.next(), Some(Token::Punct("[")));
    assert_eq!(lexstate.next(), Some(Token::Word("ITEM")));
    assert_eq!(lexstate.next(), Some(Token::Punct("] ")));
    assert_eq!(lexstate.next(), Some(Token::Word("Avocado")));
    assert_eq!(lexstate.next(), Some(Token::Punct(" - ")));
    assert_eq!(lexstate.next(), Some(Token::Word("sweet")));
    assert_eq!(lexstate.next(), Some(Token::Punct("")));
    assert_eq!(lexstate.next(), Some(Token::End));
    assert_eq!(lexstate.next(), None);
    assert_eq!(lexstate.next(), None);
}

fn all_tokens(sentence: &str) -> Vec<Token<'_>> {
    let mut lexer = Lexer::new(sentence);
    let mut tokens = Vec::new();
    while let Some(token) = lexer.next() {
        tokens.push(token);
    }
    tokens
}

#[test]
fn empty_sentence_is_begin_punct_end() {
    assert_eq!(
        all_tokens(""),
        vec![Token::Begin, Token::Punct(""), Token::End]
    );
}

#[test]
fn punctuation_only_ends_right_after_the_run() {
    assert_eq!(
        all_tokens(" ?!"),
        vec![Token::Begin, Token::Punct(" ?!"), Token::End]
    );
}

#[test]
fn single_word_gets_empty_punctuation_on_both_sides() {
    assert_eq!(
        all_tokens("tea"),
        vec![
            Token::Begin,
            Token::Punct(""),
            Token::Word("tea"),
            Token::Punct(""),
            Token::End
        ]
    );
}

#[test]
fn unicode_whitespace_and_letters() {
    // U+00A0 and U+3000 are whitespace; accented and CJK letters are words.
    assert_eq!(
        all_tokens("caf\u{e9}\u{a0}\u{3000}\u{8d8a}\u{5357}\u{2026}"),
        vec![
            Token::Begin,
            Token::Punct(""),
            Token::Word("caf\u{e9}"),
            Token::Punct("\u{a0}\u{3000}"),
            Token::Word("\u{8d8a}\u{5357}\u{2026}"),
            Token::Punct(""),
            Token::End
        ]
    );
}

#[test]
fn tokens_join_back_to_the_sentence() {
    for sentence in [
        "",
        " ",
        "a",
        "Nice tea, mate.",
        "  leading and trailing  ",
        "[ITEM] Avocado - sweet",
        "na\u{ef}ve\tcaf\u{e9}\n",
    ] {
        let tokens = all_tokens(sentence);
        assert_eq!(Token::recompose(&tokens), sentence);
    }
}

#[test]
fn tokens_alternate_between_punctuation_and_words() {
    for sentence in ["", "...", "a", "a b", " a  b, c!", "x,y;z"] {
        let tokens = all_tokens(sentence);
        assert!(tokens.len() >= 3 && tokens.len() % 2 == 1);
        assert_eq!(tokens[0], Token::Begin);
        assert_eq!(tokens[tokens.len() - 1], Token::End);
        for (i, token) in tokens.iter().enumerate() {
            if i == 0 || i == tokens.len() - 1 {
                continue;
            }
            if i % 2 == 1 {
                assert!(matches!(token, Token::Punct(_)));
            } else {
                assert!(matches!(token, Token::Word(w) if !w.is_empty()));
            }
        }
    }
}

/// The characters with the Unicode property White_Space.
fn white_space(c: char) -> bool {
    matches!(
        c,
        '\u{9}'..='\u{d}'
            | '\u{20}'
            | '\u{85}'
            | '\u{a0}'
            | '\u{1680}'
            | '\u{2000}'..='\u{200a}'
            | '\u{2028}'
            | '\u{2029}'
            | '\u{202f}'
            | '\u{205f}'
            | '\u{3000}'
    )
}

/// The ASCII punctuation characters.
fn ascii_punctuation(c: char) -> bool {
    matches!(c, '!'..='/' | ':'..='@' | '['..='`' | '{'..='~')
}

#[test]
fn every_character_falls_into_its_class() {
    let mut buffer = [0u8; 4];
    let mut separators = 0;
    for code in 0..=0x10FFFFu32 {
        let c = match char::from_u32(code) {
            Some(c) => c,
            None => continue,
        };
        let text: &str = c.encode_utf8(&mut buffer);
        let mut lexer = Lexer::new(text);
        assert_eq!(lexer.next(), Some(Token::Begin));
        if white_space(c) || ascii_punctuation(c) {
            separators += 1;
            assert_eq!(lexer.next(), Some(Token::Punct(text)));
        } else {
            assert_eq!(lexer.next(), Some(Token::Punct("")));
            assert_eq!(lexer.next(), Some(Token::Word(text)));
            assert_eq!(lexer.next(), Some(Token::Punct("")));
        }
        assert_eq!(lexer.next(), Some(Token::End));
        assert_eq!(lexer.next(), None);
    }
    // 25 characters of white space and 32 of ASCII punctuation.
    assert_eq!(separators, 57);
}
