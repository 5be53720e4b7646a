use wordmarkov::sentence::token::Token;

#[test]
fn test_token_test_token_join_1() {
    let tokens: Vec<Token> = vec![
        Token::Begin,
        Token::Word("Fancy"),
        Token::Punct(" "),
        Token::Word("hat"),
        Token::Punct(","),
        Token::Punct(" "),
        Token::Word("mate"),
        Token::Punct("."),
        Token::End,
    ];

    assert_eq!(Token::recompose(&tokens), "Fancy hat, mate.");
}

#[test]
fn token_test_token_join_1() {
    let tokens: Vec<Token> = vec![
        Token::Begin,
        Token::Word("Fancy"),
        Token::Punct(" "),
        Token::Word("hat"),
        Token::Punct(","),
        Token::Punct(" "),
        Token::Word("mate"),
        Token::Punct("."),
        Token::End,
    ];

    assert_eq!(Token::recompose(&tokens), "Fancy hat, mate.");
}

#[test]
fn markers_contribute_no_text() {
    assert_eq!(Token::recompose(&[Token::Begin, Token::End]), "");
    assert_eq!(Token::recompose(&[]), "");
    assert_eq!(Token::Begin.as_str(), "");
    assert_eq!(Token::Word("tea").as_str(), "tea");
    assert_eq!(Token::Punct(", ").as_str(), ", ");
}
