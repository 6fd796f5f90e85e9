use celtic_names::markov_chain::MarkovChain;
use celtic_names::name_generator::CrateChain;
use celtic_names::name_generator::NameGenerator;

#[test]
fn test_custom_markov() {
    let mut boxed_markov = CrateChain::new();

    let name_generator: &mut dyn NameGenerator = &mut boxed_markov as &mut dyn NameGenerator;
    name_generator.feed("aabdc".to_string());

    let mut markov = CrateChain::new();
    markov.feed("aabdc".to_string());

    let name_size = 4;

    let first_name = name_generator.generate(name_size);
    let second_name = markov.generate(name_size);

    assert_eq!(boxed_markov, markov);
    // Names are random, just assert they at least have the same length
    assert_eq!(first_name.len(), second_name.len());
}

#[test]
fn test_crate_markov() {
    let arbitrary_markov_order = 3;
    let mut boxed_markov = MarkovChain::new(arbitrary_markov_order);

    let name_generator: &mut dyn NameGenerator = &mut boxed_markov as &mut dyn NameGenerator;
    name_generator.feed("aabdc".to_string());

    let mut markov = MarkovChain::new(3);
    markov.feed("aabdc".to_string());

    let name_size = 4;

    let first_name = name_generator.generate(name_size);
    let second_name: String = markov.generate_str(name_size);

    assert_eq!(boxed_markov, markov);
    // Names are random, just assert they at least have the same length
    assert_eq!(first_name.len(), second_name.len());
}

#[test]
fn crate_chain_untrained_is_empty() {
    let chain = CrateChain::new();
    assert_eq!(chain.generate(5), "");
}

#[test]
fn crate_chain_capitalizes_and_cuts() {
    // Order 1 over "abcd" leaves a single forced walk; the first letter is
    // upper-cased and the output cut to the requested size.
    let mut chain = CrateChain::new();
    chain.feed("abcd".to_string());
    let name = chain.generate(3);
    assert_eq!(name, "Abc");
}
