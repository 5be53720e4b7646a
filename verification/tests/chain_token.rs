use std::collections::VecDeque;

use wordmarkov::prelude::{MarkovToken, MarkovTokenOwned, Token, TokenList};

#[test]
fn markov_token_text_and_length() {
    let word = MarkovToken::Textlet("caf\u{e9}");
    assert_eq!(word.string_ref(), "caf\u{e9}");
    // Characters, not bytes.
    assert_eq!(word.len(), 4);
    assert!(!word.is_empty());
    assert_eq!(MarkovToken::Begin.len(), 0);
    assert_eq!(MarkovToken::End.len(), 0);
    assert!(MarkovToken::Begin.is_empty());
    assert!(MarkovToken::End.is_empty());
    assert!(MarkovToken::Textlet("").is_empty());
    assert_eq!(MarkovToken::End.string_ref(), "");
}

#[test]
fn tokens_convert() {
    assert_eq!(MarkovToken::from(&Token::Begin), MarkovToken::Begin);
    assert_eq!(MarkovToken::from(&Token::End), MarkovToken::End);
    assert_eq!(
        MarkovToken::from(&Token::Word("tea")),
        MarkovToken::Textlet("tea")
    );
    assert_eq!(
        MarkovToken::from(&Token::Punct(", ")),
        MarkovToken::Textlet(", ")
    );
    let owned = MarkovTokenOwned::Textlet("mate".to_string());
    assert_eq!(MarkovToken::from(&owned), MarkovToken::Textlet("mate"));
    assert_eq!(
        MarkovToken::from(&MarkovTokenOwned::Begin),
        MarkovToken::Begin
    );
    let text: &str = (&owned).into();
    assert_eq!(text, "mate");
    let text: &str = (&MarkovTokenOwned::End).into();
    assert_eq!(text, "");
    let token = MarkovToken::Textlet("hat");
    let text: &str = (&token).into();
    assert_eq!(text, "hat");
}

#[test]
fn token_list_joins_its_tokens() {
    let list = TokenList(VecDeque::from(vec![
        MarkovToken::Textlet(""),
        MarkovToken::Textlet("Fancy"),
        MarkovToken::Textlet(" "),
        MarkovToken::Textlet("hat"),
        MarkovToken::Textlet("."),
    ]));
    assert_eq!(list.to_string(), "Fancy hat.");
    assert_eq!(list.len(), 10);
    assert!(!list.is_empty());
    let tokens: Vec<&MarkovToken> = list.iter().collect();
    assert_eq!(tokens.len(), 5);
    assert_eq!(*tokens[1], MarkovToken::Textlet("Fancy"));
}

#[test]
fn token_list_without_text_is_empty() {
    let nothing = TokenList(VecDeque::new());
    assert!(nothing.is_empty());
    assert_eq!(nothing.len(), 0);
    assert_eq!(nothing.to_string(), "");
    let markers = TokenList(VecDeque::from(vec![
        MarkovToken::Begin,
        MarkovToken::Textlet(""),
        MarkovToken::End,
    ]));
    assert!(markers.is_empty());
    assert_eq!(markers.len(), 0);
}
