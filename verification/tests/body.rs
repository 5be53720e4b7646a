use wordmarkov::prelude::{
    MarkovChain, MarkovError, MarkovSeed, MarkovToken, MarkovTraverseDir, StaticBestSelector,
    WeightedRandomSelector,
};

#[test]
fn test_chain_parsing() {
    let mut chain: MarkovChain = MarkovChain::new();

    chain.parse_sentence("Mary had a little lamb");

    assert_eq!(chain.len(), 9); // BEGIN and END count, as well as ' ' and ''!
    assert_eq!(chain.num_edges(), 6);
    assert_eq!(chain.num_textlets(), 9);

    // Order usually doesn't really matter, but psst,
    // if it's well-defined behaviour, might as well test
    // it. :)
    assert_eq!(chain.try_get_textlet_index(""), Some(2));
    assert_eq!(chain.try_get_textlet_index(" "), Some(4));
    assert_eq!(chain.try_get_textlet_index("."), None);
}

#[test]
fn test_chain_traversal() {
    let mut chain: MarkovChain = MarkovChain::new();

    chain.parse_sentence(
        "a lamb ate a lamb made a lamb wear a little lamb with a lamb on top of that one lamb who lambed over lamb with a cute lamb",
    );

    let max_len = 500;

    let new_sentence = chain
        .compose_sentence(
            MarkovSeed::Word("lamb"),
            &mut WeightedRandomSelector,
            Some(max_len),
        )
        .unwrap();

    assert!(new_sentence.len() < max_len);
    assert!(new_sentence.to_string().contains("lamb"));

    println!("Composed sentence: {}", new_sentence.to_string());
}

#[test]
fn greedy_walk_is_the_sentence_itself() {
    let mut chain = MarkovChain::new();
    chain.parse_sentence("Mary had a little lamb");
    let sentence = chain
        .compose_sentence(MarkovSeed::Word("little"), &mut StaticBestSelector, None)
        .unwrap();
    assert_eq!(sentence.to_string(), "Mary had a little lamb");
    assert_eq!(sentence.len(), 22);
}

#[test]
fn errors_name_what_went_wrong() {
    let mut chain = MarkovChain::new();
    assert_eq!(
        chain
            .compose_sentence(MarkovSeed::Random, &mut StaticBestSelector, None)
            .err(),
        Some(MarkovError::EmptyChain)
    );
    chain.parse_sentence("tea, mate");
    assert_eq!(
        chain
            .compose_sentence(MarkovSeed::Word("coffee"), &mut StaticBestSelector, None)
            .err(),
        Some(MarkovError::SeedNotFound)
    );
    // ", " is a textlet, but no edge starts or ends at punctuation.
    let comma = chain.try_get_textlet_index(", ").unwrap();
    assert_eq!(
        chain
            .compose_sentence(MarkovSeed::Word(", "), &mut StaticBestSelector, None)
            .err(),
        Some(MarkovError::DeadEnd(comma))
    );
    assert_eq!(
        chain
            .select_next_word(
                MarkovSeed::Id(chain.end()),
                &mut StaticBestSelector,
                MarkovTraverseDir::Forward
            )
            .err(),
        Some(MarkovError::DeadEnd(1))
    );
    assert_eq!(
        chain
            .compose_sentence(MarkovSeed::Id(99), &mut StaticBestSelector, None)
            .err(),
        Some(MarkovError::DeadEnd(99))
    );
}

#[test]
fn next_word_follows_an_edge() {
    let mut chain = MarkovChain::new();
    chain.parse_sentence("tea, mate");
    let (dest, punct, dest_id, punct_id) = chain
        .select_next_word(
            MarkovSeed::Word("tea"),
            &mut StaticBestSelector,
            MarkovTraverseDir::Forward,
        )
        .unwrap();
    assert_eq!(dest, MarkovToken::Textlet("mate"));
    assert_eq!(punct, MarkovToken::Textlet(", "));
    assert_eq!(Some(dest_id), chain.try_get_textlet_index("mate"));
    assert_eq!(Some(punct_id), chain.try_get_textlet_index(", "));
    let (dest, punct, dest_id, _) = chain
        .select_next_word(
            MarkovSeed::Word("tea"),
            &mut StaticBestSelector,
            MarkovTraverseDir::Reverse,
        )
        .unwrap();
    assert_eq!(dest, MarkovToken::Begin);
    assert_eq!(punct, MarkovToken::Textlet(""));
    assert_eq!(dest_id, chain.begin());
}
