use celtic_names::markov_chain::MarkovChain;
use celtic_names::markov_chain::ValueFrequency;
use celtic_names::markov_chain::Word;

#[test]
fn test_text_generation() {
    let mut markov_chain = MarkovChain::new(2);
    markov_chain.feed_str("abab");
    let text_size = 10;
    let random_text = markov_chain.generate_str(text_size);

    // The name is random we just assert it is of the right size
    assert_eq!(random_text.len(), text_size);
}

#[test]
fn test_random_word() {
    let mut markov_chain = MarkovChain::new(2);
    markov_chain.feed_str("aaaa");

    let a_word = markov_chain.pick_random_word();

    assert_eq!(a_word, "aa");
}

#[test]
fn test_markov_chain_display() {
    let mut markov_chain = MarkovChain::new(1);
    markov_chain.feed_str("aaab");

    let display_text = format!("{}\n", markov_chain.display_string());
    let expected_output = "a: \n\ta => 2\n\tb => 1\n\n\n";

    assert_eq!(display_text, expected_output.to_string())
}

#[test]
fn test_word() {
    let word_from_str = Word::from_str("abcdee");
    let word_from_slice = Word::from_char_slice(&['a', 'b', 'c', 'd', 'e', 'e']);

    assert_eq!(word_from_slice, word_from_str);
}

#[test]
fn test_value_frequency() {
    let mut value_freq = ValueFrequency::new();

    for chr in vec!['a', 'a', 'v', 'b', 'b', 'c', 'd'] {
        value_freq.insert(chr);
    }

    value_freq.sort();

    assert_eq!(value_freq.get_letters(), vec!['a', 'b', 'v', 'c', 'd']);
    assert_eq!(value_freq.get_weights(), vec![2, 2, 1, 1, 1]);
}

#[test]
fn distribution_after_training() {
    // Order 1, "aaab": the key "a" maps to a:2 then b:1, in that order.
    let mut chain = MarkovChain::new(1);
    chain.feed_str("aaab");
    assert_eq!(chain.display_string(), "a: \n\ta => 2\n\tb => 1\n\n");
}

#[test]
fn train_order_two_keys() {
    // Order 2, "abab": keys "ab" and "ba", one successor each.
    let mut chain = MarkovChain::new(2);
    chain.feed_str("abab");
    assert_eq!(chain.display_string(), "ab: \n\ta => 1\n\nba: \n\tb => 1\n\n");
}

#[test]
fn cumulative_training() {
    // Repeated calls accumulate counts instead of replacing them.
    let mut chain = MarkovChain::new(1);
    chain.feed_str("ab");
    chain.feed_str("ab");
    assert_eq!(chain.display_string(), "a: \n\tb => 2\n\n");
}

#[test]
fn resort_after_later_training() {
    // A later call can overtake an earlier count; the table re-sorts.
    let mut chain = MarkovChain::new(1);
    chain.feed_str("aab");
    assert_eq!(chain.display_string(), "a: \n\ta => 1\n\tb => 1\n\n");
    chain.feed_str("abbb");
    assert_eq!(
        chain.display_string(),
        "a: \n\tb => 2\n\ta => 1\n\nb: \n\tb => 2\n\n"
    );
}

#[test]
fn generate_deterministic_chain() {
    // Order 2, "aaaa": the only key is "aa" and the only successor 'a',
    // so every generated string is forced.
    let mut chain = MarkovChain::new(2);
    chain.feed_str("aaaa");
    assert_eq!(chain.generate_str(5), "Aaaaa");
    // A target at or below the order still emits the full seed window.
    assert_eq!(chain.generate_str(2), "Aa");
    assert_eq!(chain.generate_str(0), "Aa");
}

#[test]
fn generate_on_empty_table() {
    let chain = MarkovChain::new(2);
    assert_eq!(chain.generate_str(5), "");
}

#[test]
fn short_text_contributes_nothing() {
    // Training text shorter than order + 1 adds no windows.
    let mut chain = MarkovChain::new(3);
    chain.feed_str("ab");
    assert_eq!(chain.display_string(), "");
    assert_eq!(chain.generate_str(4), "");
}

#[test]
fn generate_stops_at_dead_end() {
    // Order 1, "ab": the only key is "a", so generation is forced to
    // "ab" and stops early at the unknown window "b".
    let mut chain = MarkovChain::new(1);
    chain.feed_str("ab");
    assert_eq!(chain.generate_str(5), "Ab");
}
