use markov::chain::Chain;
use markov::training::{MultilineTrainer, StrTrainer, Trainer};

#[test]
fn empty_chain_round_trips() {
    let chain = Chain::new();
    let bytes = chain.save().unwrap();
    let loaded = Chain::load(&bytes).unwrap();
    assert_eq!(loaded.word_count(), 1);
    assert_eq!(loaded.context_count(), 0);
    assert_eq!(loaded.save().unwrap(), bytes);
}

#[test]
fn trained_chain_round_trips() {
    let mut chain = Chain::new();
    StrTrainer::new("the quick brown fox jumps over the lazy dog").train(&mut chain);
    let mut trainer = MultilineTrainer::new(&chain);
    trainer.next("pack my box").train(&mut chain);
    trainer.next("with five dozen jugs").train(&mut chain);
    chain.clear_empty();

    let bytes = chain.save().unwrap();
    let loaded = Chain::load(&bytes).unwrap();

    assert_eq!(loaded.word_count(), chain.word_count());
    assert_eq!(loaded.context_count(), chain.context_count());
    for word in ["the", "quick", "box", "jugs", ""] {
        assert_eq!(loaded.find_word(word), chain.find_word(word));
    }
    for context in [("\"\"", "\"\"", "\"\""), ("the", "quick", "brown"), ("pack", "my", "box")] {
        let a = chain.lookup_choices(context).unwrap();
        let b = loaded.lookup_choices(context).unwrap();
        assert_eq!(a.total, b.total);
        assert_eq!(a.choices, b.choices);
    }
    // Serializing the loaded chain reproduces the bytes exactly.
    assert_eq!(loaded.save().unwrap(), bytes);
}

#[test]
fn unicode_words_round_trip() {
    let mut chain = Chain::new();
    StrTrainer::new("naïve 音楽 🦀").train(&mut chain);
    let bytes = chain.save().unwrap();
    let loaded = Chain::load(&bytes).unwrap();
    assert!(loaded.find_word("音楽").is_some());
    assert_eq!(loaded.find_word("🦀"), chain.find_word("🦀"));
    assert_eq!(loaded.save().unwrap(), bytes);
}

#[test]
fn garbage_bytes_do_not_load() {
    assert!(Chain::load(&vec![]).is_none());
    assert!(Chain::load(&vec![1, 2, 3]).is_none());
    assert!(Chain::load(&vec![0xff; 64]).is_none());
}

#[test]
fn truncated_saves_do_not_load() {
    let mut chain = Chain::new();
    StrTrainer::new("a b c").train(&mut chain);
    let bytes = chain.save().unwrap();
    for cut in [1, 5, bytes.len() / 2, bytes.len() - 1] {
        let truncated: Vec<u8> = bytes[..cut].to_vec();
        assert!(Chain::load(&truncated).is_none());
    }
}

#[test]
fn trailing_bytes_do_not_load() {
    let chain = Chain::new();
    let mut bytes = chain.save().unwrap();
    bytes.push(0);
    assert!(Chain::load(&bytes).is_none());
}

#[test]
fn corrupted_totals_do_not_load() {
    let mut chain = Chain::new();
    StrTrainer::new("a b").train(&mut chain);
    let mut bytes = chain.save().unwrap();
    // The file ends with the last bucket's cached total; breaking it breaks
    // weight conservation, which loading checks.
    let last = bytes.len() - 4;
    bytes[last] = bytes[last].wrapping_add(1);
    assert!(Chain::load(&bytes).is_none());
}
