use markov::chain::{Chain, Choices, ChoiceWeight, State, WordId};

#[test]
fn new_chain_has_only_the_sentinel() {
    let chain = Chain::new();
    assert_eq!(chain.word_count(), 1);
    assert_eq!(chain.context_count(), 0);
    assert_eq!(chain.get_name(WordId(0)), Some(""));
    assert_eq!(chain.get_name(WordId(1)), None);
}

#[test]
fn push_word_is_idempotent() {
    let mut chain = Chain::new();
    let a = chain.push_word("hello");
    let b = chain.push_word("hello");
    assert_eq!(a, b);
    assert_eq!(chain.find_word("hello"), Some(a));
    assert_eq!(chain.word_count(), 2);
}

#[test]
fn sentinel_aliases_resolve_to_zero() {
    let mut chain = Chain::new();
    assert_eq!(chain.push_word(""), WordId(0));
    assert_eq!(chain.push_word("\"\""), WordId(0));
    assert_eq!(chain.find_word(""), Some(WordId(0)));
    assert_eq!(chain.find_word("\"\""), Some(WordId(0)));
    assert_eq!(chain.word_count(), 1);
}

#[test]
fn find_word_misses_unknown_words() {
    let mut chain = Chain::new();
    chain.push_word("known");
    assert_eq!(chain.find_word("unknown"), None);
}

#[test]
fn identifiers_are_assigned_densely() {
    let mut chain = Chain::new();
    assert_eq!(chain.push_word("one"), WordId(1));
    assert_eq!(chain.push_word("two"), WordId(2));
    assert_eq!(chain.push_word("one"), WordId(1));
    assert_eq!(chain.get_name(WordId(2)), Some("two"));
}

#[test]
fn state_push_slides_the_window() {
    let mut state = State(WordId(1), WordId(2), WordId(3));
    state.push(WordId(4));
    assert_eq!(state, State(WordId(2), WordId(3), WordId(4)));
}

#[test]
fn train_choice_accumulates_weights_and_total() {
    let mut chain = Chain::new();
    let a = chain.push_word("a");
    let b = chain.push_word("b");
    let begin = chain.begin();
    chain.train_choice(begin, a);
    chain.train_choice(begin, a);
    chain.train_choice(begin, b);
    let bucket = chain.lookup_choices(("\"\"", "\"\"", "\"\"")).unwrap();
    assert_eq!(bucket.total, 3);
    assert_eq!(bucket.choices.len(), 2);
    assert_eq!(bucket.choices[0], ChoiceWeight { item: a, weight: 2 });
    assert_eq!(bucket.choices[1], ChoiceWeight { item: b, weight: 1 });
    let sum: u32 = bucket.choices.iter().map(|c| c.weight).sum();
    assert_eq!(bucket.total, sum);
}

#[test]
fn lookup_choices_misses_unknown_words_and_contexts() {
    let mut chain = Chain::new();
    let a = chain.push_word("a");
    let begin = chain.begin();
    chain.train_choice(begin, a);
    assert!(chain.lookup_choices(("nope", "\"\"", "\"\"")).is_none());
    assert!(chain.lookup_choices(("a", "a", "a")).is_none());
    assert!(chain.lookup_choices(("\"\"", "\"\"", "\"\"")).is_some());
}

#[test]
fn select_walks_weights_in_insertion_order() {
    let bucket = Choices {
        choices: vec![
            ChoiceWeight { item: WordId(1), weight: 2 },
            ChoiceWeight { item: WordId(2), weight: 3 },
        ],
        total: 5,
    };
    assert_eq!(bucket.select(0), 0);
    assert_eq!(bucket.select(1), 0);
    assert_eq!(bucket.select(2), 1);
    assert_eq!(bucket.select(3), 1);
    assert_eq!(bucket.select(4), 1);
}

#[test]
fn select_skips_zero_weight_entries() {
    let bucket = Choices {
        choices: vec![
            ChoiceWeight { item: WordId(1), weight: 0 },
            ChoiceWeight { item: WordId(2), weight: 1 },
        ],
        total: 1,
    };
    assert_eq!(bucket.select(0), 1);
}

#[test]
fn next_word_returns_only_recorded_successors() {
    let mut chain = Chain::new();
    let a = chain.push_word("a");
    let b = chain.push_word("b");
    let begin = chain.begin();
    chain.train_choice(begin, a);
    chain.train_choice(begin, b);
    for _ in 0..50 {
        let mut state = chain.begin();
        let word = chain.next_word(&mut state).unwrap();
        assert!(word == "a" || word == "b");
        let expected = if word == "a" { a } else { b };
        assert_eq!(state, State(WordId(0), WordId(0), expected));
    }
}

#[test]
fn sampling_frequency_tracks_weights() {
    let mut chain = Chain::new();
    let rare = chain.push_word("rare");
    let common = chain.push_word("common");
    let begin = chain.begin();
    chain.train_choice(begin, rare);
    for _ in 0..9 {
        chain.train_choice(begin, common);
    }
    let mut rare_count = 0;
    let mut common_count = 0;
    for _ in 0..500 {
        let mut state = chain.begin();
        match chain.next_word(&mut state).unwrap().as_str() {
            "rare" => rare_count += 1,
            "common" => common_count += 1,
            other => panic!("sampled a word outside the bucket: {}", other),
        }
    }
    // With weights 1 against 9 over 500 draws, both successors all but
    // surely appear, and the heavier one all but surely leads.
    assert!(rare_count > 0);
    assert!(common_count > rare_count);
}

#[test]
fn next_word_halts_on_unknown_context() {
    let chain = Chain::new();
    let mut state = chain.begin();
    assert_eq!(chain.next_word(&mut state), None);
    assert_eq!(state, chain.begin());
}

#[test]
fn generate_sequence_emits_at_most_max_length_words() {
    let mut chain = Chain::new();
    let mut trainer = markov::training::StrTrainer::new("a b c d e f g h");
    markov::training::Trainer::train(&mut trainer, &mut chain);
    let text = chain.generate_sequence(3);
    let words: Vec<&str> = text.split_whitespace().collect();
    assert!(words.len() <= 3);
}

#[test]
fn generate_sequence_is_empty_without_training() {
    let chain = Chain::new();
    assert_eq!(chain.generate_sequence(50), "");
}

#[test]
fn generate_sequence_follows_a_single_path_exactly() {
    let mut chain = Chain::new();
    let mut trainer = markov::training::StrTrainer::new("x y z");
    markov::training::Trainer::train(&mut trainer, &mut chain);
    assert_eq!(chain.generate_sequence(10), "x y z ");
    assert_eq!(chain.generate_sequence(2), "x y ");
}

#[test]
fn iterator_walks_the_single_path() {
    let mut chain = Chain::new();
    let mut trainer = markov::training::StrTrainer::new("x y z");
    markov::training::Trainer::train(&mut trainer, &mut chain);
    let mut it = chain.iter();
    assert_eq!(it.next().as_deref(), Some("x"));
    assert_eq!(it.next().as_deref(), Some("y"));
    assert_eq!(it.next().as_deref(), Some("z"));
    assert_eq!(it.next(), None);
}

#[test]
fn clear_empty_zeroes_the_first_word_and_is_idempotent() {
    let mut chain = Chain::new();
    let mut trainer = markov::training::StrTrainer::new("a b");
    markov::training::Trainer::train(&mut trainer, &mut chain);
    // "a" got identifier 1 and is the begin-state bucket's only entry.
    chain.clear_empty();
    {
        let bucket = chain.lookup_choices(("\"\"", "\"\"", "\"\"")).unwrap();
        assert_eq!(bucket.choices.len(), 1);
        assert_eq!(bucket.choices[0], ChoiceWeight { item: WordId(1), weight: 0 });
        assert_eq!(bucket.total, 0);
    }
    chain.clear_empty();
    {
        let bucket = chain.lookup_choices(("\"\"", "\"\"", "\"\"")).unwrap();
        assert_eq!(bucket.choices[0].weight, 0);
        assert_eq!(bucket.total, 0);
    }
}

#[test]
fn clear_empty_without_begin_bucket_does_nothing() {
    let mut chain = Chain::new();
    chain.clear_empty();
    assert_eq!(chain.context_count(), 0);
}

#[test]
fn check_wf_accepts_trained_chains() {
    let mut chain = Chain::new();
    let mut trainer = markov::training::StrTrainer::new("a b a");
    markov::training::Trainer::train(&mut trainer, &mut chain);
    assert!(chain.check_wf());
}

#[test]
fn check_wf_rejects_a_broken_total() {
    let mut chain = Chain::new();
    let a = chain.push_word("a");
    let begin = chain.begin();
    chain.train_choice(begin, a);
    chain.graph[0].bucket.total = 7;
    assert!(!chain.check_wf());
}
