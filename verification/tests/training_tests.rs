use markov::chain::{Chain, State, WordId};
use markov::training::{MultilineTrainer, StrTrainer, Trainer};

fn weight_of(chain: &Chain, context: (&str, &str, &str), word: &str) -> Option<u32> {
    let id = chain.find_word(word)?;
    let bucket = chain.lookup_choices(context)?;
    bucket.choices.iter().find(|c| c.item == id).map(|c| c.weight)
}

#[test]
fn deterministic_training_of_a_b_a_b_a() {
    let mut chain = Chain::new();
    let mut trainer = StrTrainer::new("a b a b a");
    trainer.train(&mut chain);

    assert_eq!(weight_of(&chain, ("\"\"", "\"\"", "\"\""), "a"), Some(1));
    assert_eq!(weight_of(&chain, ("\"\"", "\"\"", "a"), "b"), Some(1));
    assert_eq!(weight_of(&chain, ("\"\"", "a", "b"), "a"), Some(1));
    assert_eq!(weight_of(&chain, ("a", "b", "a"), "b"), Some(1));
    assert_eq!(weight_of(&chain, ("b", "a", "b"), "a"), Some(1));
    assert_eq!(chain.context_count(), 5);
    for context in [
        ("\"\"", "\"\"", "\"\""),
        ("\"\"", "\"\"", "a"),
        ("\"\"", "a", "b"),
        ("a", "b", "a"),
        ("b", "a", "b"),
    ] {
        let bucket = chain.lookup_choices(context).unwrap();
        assert_eq!(bucket.total, 1);
        assert_eq!(bucket.choices.len(), 1);
    }
    assert_eq!(chain.word_count(), 3);
}

#[test]
fn empty_input_trains_nothing() {
    let mut chain = Chain::new();
    let mut trainer = StrTrainer::new("   \t  ");
    trainer.train(&mut chain);
    assert_eq!(chain.word_count(), 1);
    assert_eq!(chain.context_count(), 0);
}

#[test]
fn repeated_training_doubles_weights() {
    let mut chain = Chain::new();
    StrTrainer::new("a b").train(&mut chain);
    StrTrainer::new("a b").train(&mut chain);
    assert_eq!(weight_of(&chain, ("\"\"", "\"\"", "\"\""), "a"), Some(2));
    assert_eq!(weight_of(&chain, ("\"\"", "\"\"", "a"), "b"), Some(2));
    let bucket = chain.lookup_choices(("\"\"", "\"\"", "\"\"")).unwrap();
    assert_eq!(bucket.total, 2);
}

#[test]
fn bridging_trains_line_two_as_continuation_of_line_one() {
    let mut chain = Chain::new();
    let mut trainer = MultilineTrainer::new(&chain);
    trainer.next("a b").train(&mut chain);
    trainer.next("c d").train(&mut chain);

    // Line one, under the one (agreeing) cursor.
    assert_eq!(weight_of(&chain, ("\"\"", "\"\"", "\"\""), "a"), Some(1));
    assert_eq!(weight_of(&chain, ("\"\"", "\"\"", "a"), "b"), Some(1));
    // Line two under the reset local cursor.
    assert_eq!(weight_of(&chain, ("\"\"", "\"\"", "\"\""), "c"), Some(1));
    assert_eq!(weight_of(&chain, ("\"\"", "\"\"", "c"), "d"), Some(1));
    // Line two under the bridging cursor seeded from line one's tail.
    assert_eq!(weight_of(&chain, ("\"\"", "a", "b"), "c"), Some(1));
    assert_eq!(weight_of(&chain, ("a", "b", "c"), "d"), Some(1));
    // No double-counting where the cursors agreed.
    let begin = chain.lookup_choices(("\"\"", "\"\"", "\"\"")).unwrap();
    assert_eq!(begin.total, 2);
    // Afterwards the carried cursor is line two's from-scratch tail (0, c, d),
    // not the compounded bridging cursor (b, c, d).
    let c = chain.find_word("c").unwrap();
    let d = chain.find_word("d").unwrap();
    assert_eq!(trainer.state, State(WordId(0), c, d));
}

#[test]
fn bridging_cursor_reaches_only_the_immediately_preceding_line() {
    let mut chain = Chain::new();
    let mut trainer = MultilineTrainer::new(&chain);
    trainer.next("a b").train(&mut chain);
    trainer.next("c d").train(&mut chain);
    trainer.next("e").train(&mut chain);

    // Line three bridges from line two's from-scratch tail (0, c, d)...
    assert_eq!(weight_of(&chain, ("\"\"", "c", "d"), "e"), Some(1));
    // ...not from the compounded cursor (b, c, d) that line one would give.
    assert_eq!(weight_of(&chain, ("b", "c", "d"), "e"), None);
}

#[test]
fn train_line_matches_entry_training() {
    let mut chain_a = Chain::new();
    let mut trainer_a = MultilineTrainer::new(&chain_a);
    trainer_a.next("one two").train(&mut chain_a);
    trainer_a.next("three").train(&mut chain_a);

    let mut chain_b = Chain::new();
    let mut trainer_b = MultilineTrainer::new(&chain_b);
    trainer_b.train_line("one two", &mut chain_b);
    trainer_b.train_line("three", &mut chain_b);

    assert_eq!(trainer_a.state, trainer_b.state);
    assert_eq!(chain_a.save(), chain_b.save());
}

#[test]
fn train_lines_matches_per_line_training() {
    let lines = vec!["one two".to_string(), "three".to_string(), "four five".to_string()];

    let mut chain_a = Chain::new();
    let mut trainer_a = MultilineTrainer::new(&chain_a);
    for line in &lines {
        trainer_a.next(line).train(&mut chain_a);
    }

    let mut chain_b = Chain::new();
    let mut trainer_b = MultilineTrainer::new(&chain_b);
    trainer_b.train_lines(&lines, &mut chain_b);

    assert_eq!(trainer_a.state, trainer_b.state);
    assert_eq!(chain_a.save(), chain_b.save());
}

#[test]
fn str_trainer_remembers_its_data() {
    let trainer = StrTrainer::new("some text");
    assert_eq!(trainer.data, "some text");
}
