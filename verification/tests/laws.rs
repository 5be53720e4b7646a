use wordmarkov::chain::compose::grown;
use wordmarkov::chain::reply::{prompt_words, seed_among, MAX_LEN};
use wordmarkov::prelude::{
    Edge, MarkovChain, MarkovError, MarkovSeed, MarkovSelector, MarkovToken, MarkovTraverseDir,
    NaiveRandomSelector, SelectionType, StaticBestSelector, Token, WeightedRandomSelector,
};

/// A selector that takes the first edge and writes down what it was asked.
struct Recorder {
    resets: usize,
    asked: Vec<(String, String, String, usize)>,
}

impl Recorder {
    fn new() -> Recorder {
        Recorder {
            resets: 0,
            asked: Vec::new(),
        }
    }
}

impl MarkovSelector for Recorder {
    fn reset(&mut self, _dir: MarkovTraverseDir) {
        self.resets += 1;
    }

    fn weight<'a>(
        &mut self,
        from: &MarkovToken<'a>,
        to: &MarkovToken<'a>,
        punct: &MarkovToken<'a>,
        occurrences: usize,
    ) -> u64 {
        self.asked.push((
            from.string_ref().to_string(),
            to.string_ref().to_string(),
            punct.string_ref().to_string(),
            occurrences,
        ));
        1
    }

    fn selection_type(&mut self) -> SelectionType {
        SelectionType::Highest
    }
}

fn hits_from(chain: &MarkovChain, word: &str) -> Vec<(String, String, String, usize)> {
    let mut recorder = Recorder::new();
    chain
        .select_next_word(
            MarkovSeed::Word(word),
            &mut recorder,
            MarkovTraverseDir::Forward,
        )
        .unwrap();
    assert_eq!(recorder.resets, 1);
    recorder.asked
}

#[test]
fn learning_a_sentence_again_counts_and_adds_no_edge() {
    let sentence = "Mary had a little lamb";
    let mut chain = MarkovChain::new();
    chain.parse_sentence(sentence);
    let edges = chain.num_edges();
    let textlets = chain.num_textlets();
    assert_eq!(
        hits_from(&chain, "had"),
        vec![("had".to_string(), "a".to_string(), " ".to_string(), 1)]
    );
    for _ in 1..5 {
        chain.parse_sentence(sentence);
    }
    assert_eq!(chain.num_edges(), edges);
    assert_eq!(chain.num_textlets(), textlets);
    for word in ["Mary", "had", "a", "little", "lamb"] {
        for (_, _, _, hits) in hits_from(&chain, word) {
            assert_eq!(hits, 5);
        }
    }
}

#[test]
fn repeated_steps_share_an_edge_and_new_steps_join_the_old() {
    let mut chain = MarkovChain::new();
    chain.parse_sentence("a b a c a b");
    // Begin-a, a-b, b-a, a-c, c-a, b-End: the second "a b" adds none.
    assert_eq!(chain.num_edges(), 6);
    assert_eq!(
        hits_from(&chain, "a"),
        vec![
            ("a".to_string(), "b".to_string(), " ".to_string(), 2),
            ("a".to_string(), "c".to_string(), " ".to_string(), 1),
        ]
    );
    // The same words over other punctuation are another edge.
    chain.parse_sentence("a, b");
    assert_eq!(chain.num_edges(), 7);
    assert_eq!(hits_from(&chain, "a").len(), 3);
}

#[test]
fn empty_sentence_teaches_nothing() {
    let mut chain = MarkovChain::new();
    chain.parse_sentence("");
    assert!(chain.is_empty());
    assert_eq!(chain.num_edges(), 0);
    assert_eq!(chain.num_textlets(), 2);
    chain.parse_sentence("?!");
    assert!(!chain.is_empty());
    assert_eq!(chain.num_edges(), 1);
    assert_eq!(chain.try_get_textlet_index("?!"), Some(2));
}

#[test]
fn interning_is_stable() {
    let mut chain = MarkovChain::default();
    assert_eq!(chain.begin(), 0);
    assert_eq!(chain.end(), 1);
    let tea = chain.ensure_textlet_index("tea");
    assert_eq!(tea, 2);
    assert_eq!(chain.ensure_textlet_index("tea"), tea);
    let mate = chain.ensure_textlet_index("mate");
    assert_ne!(mate, tea);
    assert_eq!(chain.ensure_textlet_index("tea"), tea);
    assert_eq!(chain.len(), 4);
    assert_eq!(chain.try_get_textlet_index("tea"), Some(tea));
    assert_eq!(chain.try_get_textlet_index("coffee"), None);
    assert_eq!(chain.get_textlet(tea), Some(MarkovToken::Textlet("tea")));
    assert_eq!(chain.get_textlet(0), Some(MarkovToken::Begin));
    assert_eq!(chain.get_textlet(1), Some(MarkovToken::End));
    assert_eq!(chain.get_textlet(4), None);
}

#[test]
fn tokens_are_interned_as_their_text() {
    let mut chain = MarkovChain::new();
    assert_eq!(chain.ensure_textlet_from_token(Token::Begin), 0);
    assert_eq!(chain.ensure_textlet_from_token(Token::End), 1);
    let word = chain.ensure_textlet_from_token(Token::Word("tea"));
    assert_eq!(chain.ensure_textlet_from_token(Token::Punct("tea")), word);
    assert_eq!(chain.num_textlets(), 3);
}

#[test]
fn edges_name_their_textlets() {
    let mut chain = MarkovChain::new();
    chain.parse_sentence("tea, mate");
    let edge = Edge {
        src_idx: chain.try_get_textlet_index("tea").unwrap(),
        dst_idx: chain.try_get_textlet_index("mate").unwrap(),
        hits: 1,
        pct_idx: chain.try_get_textlet_index(", ").unwrap(),
    };
    assert_eq!(edge.get_source(&chain), MarkovToken::Textlet("tea"));
    assert_eq!(edge.get_dest(&chain), MarkovToken::Textlet("mate"));
    assert_eq!(edge.get_punct(&chain), MarkovToken::Textlet(", "));
}

#[test]
fn composition_keeps_to_the_cap() {
    let mut chain = MarkovChain::new();
    chain.parse_sentence("one two three four five six seven eight nine ten");
    for cap in [0, 3, 8, 9, 10, 20, 21, 47, 48, 49, 1000] {
        let sentence = chain
            .compose_sentence(MarkovSeed::Word("five"), &mut StaticBestSelector, Some(cap))
            .unwrap();
        let text = sentence.to_string();
        assert!(text.contains("five"));
        assert!(sentence.len() <= cap.max(4));
        assert!("one two three four five six seven eight nine ten".contains(&text));
    }
}

#[test]
fn composition_goes_back_within_half_the_cap_then_forward_within_all_of_it() {
    let mut chain = MarkovChain::new();
    chain.parse_sentence("one two three four five six seven eight nine ten");
    // Half of 20 lets " " and "four" in front of "five" (9) and then
    // stops before "three" (15); forward, " six" (13) and " seven" (19)
    // fit, " eight" (25) does not.
    let sentence = chain
        .compose_sentence(MarkovSeed::Word("five"), &mut StaticBestSelector, Some(20))
        .unwrap();
    assert_eq!(sentence.to_string(), "four five six seven");
    // A cap that lets everything in reaches both markers.
    let sentence = chain
        .compose_sentence(MarkovSeed::Word("five"), &mut StaticBestSelector, Some(200))
        .unwrap();
    assert_eq!(
        sentence.to_string(),
        "one two three four five six seven eight nine ten"
    );
    // Exactly at the cap is within it.
    let sentence = chain
        .compose_sentence(MarkovSeed::Word("ten"), &mut StaticBestSelector, Some(16))
        .unwrap();
    assert_eq!(sentence.to_string(), "nine ten");
}

#[test]
fn composition_from_the_markers() {
    let mut chain = MarkovChain::new();
    chain.parse_sentence("tea, mate.");
    let from_begin = chain
        .compose_sentence(MarkovSeed::Id(chain.begin()), &mut StaticBestSelector, None)
        .unwrap();
    assert_eq!(from_begin.to_string(), "tea, mate.");
    let from_end = chain
        .compose_sentence(MarkovSeed::Id(chain.end()), &mut StaticBestSelector, None)
        .unwrap();
    assert_eq!(from_end.to_string(), "tea, mate.");
}

#[test]
fn random_seeds_and_random_selectors_stay_within_the_chain() {
    let mut chain = MarkovChain::new();
    chain.parse_sentence("a lamb ate a lamb made a lamb wear a little lamb");
    chain.parse_sentence("the little lamb ate");
    for _ in 0..200 {
        let sentence = chain
            .compose_sentence(MarkovSeed::Random, &mut WeightedRandomSelector, Some(60))
            .unwrap();
        assert!(sentence.len() <= 60);
        assert!(!sentence.is_empty());
        let sentence = chain
            .compose_sentence(MarkovSeed::Random, &mut NaiveRandomSelector, Some(60))
            .unwrap();
        assert!(sentence.len() <= 60);
    }
}

#[test]
fn random_steps_take_every_edge_sooner_or_later() {
    let mut chain = MarkovChain::new();
    chain.parse_sentence("a b");
    chain.parse_sentence("a c");
    chain.parse_sentence("a c");
    let mut seen_b = false;
    let mut seen_c = false;
    for _ in 0..500 {
        let (dest, _, _, _) = chain
            .select_next_word(
                MarkovSeed::Word("a"),
                &mut NaiveRandomSelector,
                MarkovTraverseDir::Forward,
            )
            .unwrap();
        match dest {
            MarkovToken::Textlet("b") => seen_b = true,
            MarkovToken::Textlet("c") => seen_c = true,
            other => panic!("no edge leads from a to {:?}", other),
        }
    }
    assert!(seen_b && seen_c);
    // The greedy selector always takes the edge that was seen twice.
    let (dest, _, _, _) = chain
        .select_next_word(
            MarkovSeed::Word("a"),
            &mut StaticBestSelector,
            MarkovTraverseDir::Forward,
        )
        .unwrap();
    assert_eq!(dest, MarkovToken::Textlet("c"));
    // And its counterpart the one that was seen once.
    let (dest, _, _, _) = chain
        .select_next_word(
            MarkovSeed::Word("a"),
            &mut wordmarkov::chain::selectors::fixed::NaiveRandomSelector,
            MarkovTraverseDir::Forward,
        )
        .unwrap();
    assert_eq!(dest, MarkovToken::Textlet("b"));
}

#[test]
fn selectors_weigh_as_they_say() {
    let from = MarkovToken::Textlet("a");
    let to = MarkovToken::Textlet("b");
    let punct = MarkovToken::Textlet(" ");
    assert_eq!(StaticBestSelector.weight(&from, &to, &punct, 7), 7);
    assert_eq!(StaticBestSelector.selection_type(), SelectionType::Highest);
    assert_eq!(WeightedRandomSelector.weight(&from, &to, &punct, 7), 7);
    assert_eq!(
        WeightedRandomSelector.selection_type(),
        SelectionType::WeightedRandom
    );
    assert_eq!(NaiveRandomSelector.weight(&from, &to, &punct, 7), 1);
    assert_eq!(
        NaiveRandomSelector.selection_type(),
        SelectionType::WeightedRandom
    );
    let mut least = wordmarkov::chain::selectors::fixed::NaiveRandomSelector;
    assert_eq!(least.weight(&from, &to, &punct, 7), 7);
    assert_eq!(least.selection_type(), SelectionType::Lowest);
}

#[test]
fn lengths_grow_within_the_limit_only() {
    assert_eq!(grown(4, 1, 5, 10), Some(10));
    assert_eq!(grown(4, 1, 6, 10), None);
    assert_eq!(grown(0, 0, 0, 0), Some(0));
    assert_eq!(grown(usize::MAX, 0, 0, usize::MAX), Some(usize::MAX));
    assert_eq!(grown(usize::MAX, 1, 0, usize::MAX), None);
    assert_eq!(grown(1, usize::MAX, usize::MAX, usize::MAX), None);
    assert_eq!(grown(11, 0, 0, 10), None);
}

#[test]
fn prompts_are_answered_around_one_of_their_words() {
    assert_eq!(
        prompt_words("Nice tea, mate."),
        vec!["Nice", "tea", "mate"]
    );
    assert!(prompt_words(" ... ").is_empty());
    assert!(prompt_words("").is_empty());
    let mut rng = rand::thread_rng();
    assert_eq!(seed_among(&vec![], &mut rng), MarkovSeed::Random);
    let words = vec!["tea", "mate"];
    let mut seen = [false, false];
    for _ in 0..200 {
        match seed_among(&words, &mut rng) {
            MarkovSeed::Word("tea") => seen[0] = true,
            MarkovSeed::Word("mate") => seen[1] = true,
            other => panic!("{:?} is no word of the prompt", other),
        }
    }
    assert_eq!(seen, [true, true]);

    let mut chain = MarkovChain::new();
    assert_eq!(
        chain.produce("tea").1.err(),
        Some(MarkovError::EmptyChain)
    );
    chain.parse_sentence("Nice tea, mate.");
    for prompt in ["tea", "mate tea", "", "?"] {
        let (seed, answer) = chain.produce(prompt);
        match seed {
            MarkovSeed::Word(word) => assert!(prompt.contains(word)),
            MarkovSeed::Random => assert!(prompt_words(prompt).is_empty()),
            MarkovSeed::Id(_) => panic!("no prompt gives an id"),
        }
        let answer = answer.unwrap();
        assert_eq!(answer.to_string(), "Nice tea, mate.");
        assert!(answer.len() <= MAX_LEN);
    }
    let (seed, answer) = chain.produce("coffee");
    assert_eq!(seed, MarkovSeed::Word("coffee"));
    assert_eq!(answer.err(), Some(MarkovError::SeedNotFound));
}

#[test]
fn counts_add_up_to_the_triples_learned() {
    let sentence = "Mary had a little lamb";
    let mut chain = MarkovChain::new();
    for times in 1..=5 {
        chain.parse_sentence(sentence);
        let mut sum = 0;
        for id in 0..chain.num_textlets() {
            let mut recorder = Recorder::new();
            let step = chain.select_next_word(
                MarkovSeed::Id(id),
                &mut recorder,
                MarkovTraverseDir::Forward,
            );
            if step.is_ok() {
                sum += recorder.asked.iter().map(|asked| asked.3).sum::<usize>();
            }
        }
        // Five words: six triples each time.
        assert_eq!(sum, times * 6);
    }
}

#[test]
fn composed_sentences_hold_no_marker_and_few_tokens() {
    let mut chain = MarkovChain::new();
    chain.parse_sentence("a lamb ate a lamb made a lamb wear a little lamb");
    chain.parse_sentence("tea, mate.");
    for cap in [0, 1, 5, 12, 40] {
        for _ in 0..50 {
            let sentence = chain
                .compose_sentence(MarkovSeed::Word("lamb"), &mut WeightedRandomSelector, Some(cap))
                .unwrap();
            let tokens: Vec<&MarkovToken> = sentence.iter().collect();
            assert!(tokens.len() <= 2 * cap + 3);
            assert!(tokens.len() <= 2 * sentence.len() + 3);
            for token in tokens {
                assert!(matches!(token, MarkovToken::Textlet(_)));
            }
        }
    }
    // From a marker, the marker is the one token that is no text.
    let sentence = chain
        .compose_sentence(
            MarkovSeed::Id(chain.begin()),
            &mut StaticBestSelector,
            Some(40),
        )
        .unwrap();
    let markers = sentence
        .iter()
        .filter(|token| !matches!(token, MarkovToken::Textlet(_)))
        .count();
    assert_eq!(markers, 1);
}

/// A selector that gives no edge any weight.
struct Weightless;

impl MarkovSelector for Weightless {
    fn reset(&mut self, _dir: MarkovTraverseDir) {}

    fn weight<'a>(
        &mut self,
        _from: &MarkovToken<'a>,
        _to: &MarkovToken<'a>,
        _punct: &MarkovToken<'a>,
        _occurrences: usize,
    ) -> u64 {
        0
    }

    fn selection_type(&mut self) -> SelectionType {
        SelectionType::WeightedRandom
    }
}

#[test]
fn a_random_choice_without_weights_takes_the_first_edge() {
    let mut chain = MarkovChain::new();
    chain.parse_sentence("a b");
    chain.parse_sentence("a c");
    for _ in 0..20 {
        let (dest, _, _, _) = chain
            .select_next_word(
                MarkovSeed::Word("a"),
                &mut Weightless,
                MarkovTraverseDir::Forward,
            )
            .unwrap();
        assert_eq!(dest, MarkovToken::Textlet("b"));
    }
}
