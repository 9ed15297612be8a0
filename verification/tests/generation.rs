use rand::prng::XorShiftRng;
use rand::rngs::mock::StepRng;
use rand::SeedableRng;
use warkov::table::ContextTable;
use warkov::{weighted_choice, ChainError, Distribution, MarkovChain};

fn seeded() -> XorShiftRng {
    XorShiftRng::from_seed([1, 2, 3, 4, 5, 6, 7, 8, 9, 10, 11, 12, 13, 14, 15, 16])
}

/// A generator whose draws below `bound` all give `r`.
fn always(r: u64, bound: u64) -> StepRng {
    let scaled = ((r as u128) << 64) / (bound as u128);
    let value = if (scaled * bound as u128) >> 64 == r as u128 { scaled } else { scaled + 1 };
    StepRng::new(value as u64, 0)
}

fn word(symbols: Vec<char>) -> String {
    symbols.into_iter().collect()
}

#[test]
fn equal_seeds_and_equal_training_give_equal_output() {
    let mut first = MarkovChain::new_with_rng(3, seeded());
    let mut second = MarkovChain::new_with_rng(3, seeded());
    for term in ["alpha", "beta", "gamma", "delta", "epsilon"] {
        first.train(term.chars());
        second.train(term.chars());
    }
    for _ in 0..200 {
        assert_eq!(first.generate(), second.generate());
    }
    first.set_rng(seeded());
    second.set_rng(seeded());
    for look in [1, 2, 3, 1, 2, 3] {
        assert_eq!(first.generate_max_look(look), second.generate_max_look(look));
    }
}

#[test]
fn replacing_the_source_keeps_what_was_learnt() {
    let mut mc = MarkovChain::new_with_rng(2, seeded());
    mc.train("abc".chars());
    mc.train("bbc".chars());
    mc.train("acb".chars());
    let before: Vec<String> = (0..5).map(|_| word(mc.generate())).collect();
    mc.set_rng(seeded());
    let after: Vec<String> = (0..5).map(|_| word(mc.generate())).collect();
    assert_eq!(before, after);
    assert_eq!(before[0], "abc");
    assert_eq!(mc.occurrences(&[Some('a')], &Some('b')), 2);
}

#[test]
fn output_holds_trained_symbols_only() {
    let mut mc = MarkovChain::new_with_rng(2, seeded());
    for term in ["abc", "bcd", "cda"] {
        mc.train(term.chars());
    }
    for _ in 0..500 {
        for symbol in mc.generate() {
            assert!("abcd".contains(symbol));
        }
    }
}

#[test]
fn an_untrained_chain_generates_nothing() {
    let mut mc: MarkovChain<char, XorShiftRng> = MarkovChain::new_with_rng(3, seeded());
    assert_eq!(mc.generate(), Vec::<char>::new());
    assert_eq!(mc.generate_max_look(1), Vec::<char>::new());
    assert_eq!(mc.try_generate_max_look(2), Ok(Vec::<char>::new()));
}

#[test]
fn a_zero_order_is_refused() {
    assert!(matches!(
        MarkovChain::<char, XorShiftRng>::try_new_with_rng(0, seeded()),
        Err(ChainError::InvalidConfig)
    ));
    assert!(matches!(MarkovChain::<char, _>::try_new(0), Err(ChainError::InvalidConfig)));
    assert!(MarkovChain::<char, XorShiftRng>::try_new_with_rng(1, seeded()).is_ok());
    let mc = MarkovChain::<char, _>::try_new(4).unwrap();
    assert_eq!(mc.max_order(), 4);
}

#[test]
fn a_lookbehind_outside_the_order_is_refused() {
    let mut mc = MarkovChain::new_with_rng(2, seeded());
    mc.train("abc".chars());
    assert_eq!(mc.try_generate_max_look(0), Err(ChainError::InvalidArgument));
    assert_eq!(mc.try_generate_max_look(3), Err(ChainError::InvalidArgument));
    assert_eq!(mc.try_generate_max_look(usize::MAX), Err(ChainError::InvalidArgument));
    assert_eq!(mc.try_generate_max_look(2).map(word), Ok("abc".to_string()));
    assert_eq!(mc.try_generate_max_look(1).map(word), Ok("abc".to_string()));
}

#[test]
fn the_smallest_draw_follows_the_smallest_keys() {
    let mut mc = MarkovChain::new_with_rng(2, StepRng::new(0, 0));
    mc.train("abc".chars());
    mc.train("bbc".chars());
    mc.train("acb".chars());
    assert_eq!(word(mc.generate()), "abc");
    assert_eq!(word(mc.generate_max_look(1)), "ab");

    let mut ending = MarkovChain::new_with_rng(2, StepRng::new(0, 0));
    ending.train("abc".chars());
    ending.train("".chars());
    assert_eq!(word(ending.generate()), "");
}

#[test]
fn pick_walks_the_keys_in_ascending_order() {
    let mut data = Distribution::new();
    data.record(Some('b'));
    data.record(Some('a'));
    data.record(None);
    data.record(Some('b'));
    data.record(None);
    data.record(None);
    assert_eq!(data.total(), 6);
    assert_eq!(data.len(), 3);
    let picked: Vec<Option<char>> = (0..6).map(|r| data.pick(r)).collect();
    assert_eq!(picked, vec![None, None, None, Some('a'), Some('b'), Some('b')]);
    assert_eq!(data.pick(6), Some('b'));
    assert_eq!(data.pick(usize::MAX), Some('b'));
    assert_eq!(data.count(&None), 3);
    assert_eq!(data.count(&Some('a')), 1);
    assert_eq!(data.count(&Some('c')), 0);
    assert!(data.contains_key(&Some('b')));
    assert!(!data.contains_key(&Some('z')));
}

#[test]
fn a_drawn_number_selects_its_key() {
    let mut data = Distribution::new();
    data.record('a');
    data.record('b');
    data.record('b');
    assert_eq!(weighted_choice(&mut always(0, 3), &data), 'a');
    assert_eq!(weighted_choice(&mut always(1, 3), &data), 'b');
    assert_eq!(weighted_choice(&mut always(2, 3), &data), 'b');
}

#[test]
fn backing_off_answers_from_the_shorter_context() {
    let a = Some('a');
    let b = Some('b');
    let mut table: ContextTable<Option<char>> = ContextTable::new();
    table.record(&[b], Some('x'));
    table.record(&[b], Some('x'));
    table.record(&[b], None);
    assert!(!table.contains(&[a, b]));
    assert!(table.contains(&[b]));

    let (dropped, found) = table.longest_known(&[a, b]);
    assert_eq!(dropped, 1);
    let stats = found.unwrap();
    assert_eq!(stats.total(), 3);
    assert_eq!(stats.count(&Some('x')), 2);
    assert_eq!(stats.count(&None), 1);

    let (dropped, found) = table.longest_known(&[b, a, b]);
    assert_eq!(dropped, 2);
    assert_eq!(found.unwrap().total(), 3);

    let (dropped, found) = table.longest_known(&[b, a]);
    assert_eq!(dropped, 1);
    assert!(found.is_none());

    table.record(&[a, b], Some('y'));
    let (dropped, found) = table.longest_known(&[a, b]);
    assert_eq!(dropped, 0);
    assert_eq!(found.unwrap().count(&Some('y')), 1);
    let (dropped, found) = table.longest_known(&[b, a, b]);
    assert_eq!(dropped, 1);
    assert_eq!(found.unwrap().total(), 1);
}
