use rand::prng::XorShiftRng;
use rand::{Rng, SeedableRng};
use warkov::MarkovChain;

fn seeded() -> XorShiftRng {
    XorShiftRng::from_seed([9, 8, 7, 6, 5, 4, 3, 2, 1, 0, 1, 2, 3, 4, 5, 6])
}

fn framed(word: &str) -> Vec<Option<char>> {
    let mut aug: Vec<Option<char>> = vec![None];
    aug.extend(word.chars().map(Some));
    aug.push(None);
    aug
}

fn keys() -> Vec<Option<char>> {
    let mut keys: Vec<Option<char>> = vec![None];
    keys.extend("abcdefghijklmnopqrstuvwxyz".chars().map(Some));
    keys
}

#[test]
fn every_window_up_to_the_order_is_a_context() {
    for order in 1..=4 {
        let mut mc = MarkovChain::new_with_rng(order, seeded());
        mc.train("hello".chars());
        let aug = framed("hello");
        for idx in 1..aug.len() {
            for len in 1..=idx {
                let window = &aug[idx - len..idx];
                assert_eq!(mc.has_context(window), len <= order, "{:?}", window);
            }
        }
    }
}

#[test]
fn contexts_of_abc_with_order_two() {
    let mut mc = MarkovChain::new_with_rng(2, seeded());
    mc.train("abc".chars());
    let a = Some('a');
    let b = Some('b');
    let c = Some('c');
    for known in [vec![None], vec![None, a], vec![a], vec![a, b], vec![b], vec![b, c], vec![c]] {
        assert!(mc.has_context(&known), "{:?}", known);
    }
    assert_eq!(mc.occurrences(&[c], &None), 2);
    for unknown in [
        vec![None, a, b],
        vec![a, b, c],
        vec![None, None],
        vec![a, c],
        vec![c, None],
        vec![],
    ] {
        assert!(!mc.has_context(&unknown), "{:?}", unknown);
    }
}

#[test]
fn shorter_contexts_count_once_for_every_recorded_length() {
    let mut mc = MarkovChain::new_with_rng(3, seeded());
    mc.train("abc".chars());
    let a = Some('a');
    let b = Some('b');
    let c = Some('c');
    assert_eq!(mc.occurrences(&[None], &a), 1);
    assert_eq!(mc.occurrences(&[a], &b), 2);
    assert_eq!(mc.occurrences(&[None, a], &b), 1);
    assert_eq!(mc.occurrences(&[b], &c), 3);
    assert_eq!(mc.occurrences(&[a, b], &c), 2);
    assert_eq!(mc.occurrences(&[None, a, b], &c), 1);
    assert_eq!(mc.occurrences(&[c], &None), 3);
    assert_eq!(mc.occurrences(&[b, c], &None), 2);
    assert_eq!(mc.occurrences(&[a, b, c], &None), 1);
    assert_eq!(mc.occurrences(&[b], &a), 0);
    assert_eq!(mc.occurrences(&[c], &a), 0);

    mc.train("abd".chars());
    assert_eq!(mc.occurrences(&[a], &b), 4);
    assert_eq!(mc.occurrences(&[a, b], &c), 2);
    assert_eq!(mc.occurrences(&[a, b], &Some('d')), 2);
    assert_eq!(mc.context_total(&[a, b]), 4);
    assert_eq!(mc.context_total(&[None]), 2);
}

#[test]
fn stored_totals_are_the_sums_of_the_counts() {
    let mut mc = MarkovChain::new_with_rng(3, seeded());
    let words = ["banana", "bandana", "", "cabana", "a"];
    for word in words {
        mc.train(word.chars());
        let mut symbols = 0;
        for key in keys() {
            if let Some(symbol) = key {
                symbols += mc.symbol_count(&symbol);
            }
        }
        assert_eq!(mc.symbols_total(), symbols);
        for trained in words {
            let aug = framed(trained);
            for idx in 1..aug.len() {
                for len in 1..=idx.min(3) {
                    let window = &aug[idx - len..idx];
                    let mut sum = 0;
                    for key in keys() {
                        sum += mc.occurrences(window, &key);
                    }
                    assert_eq!(mc.context_total(window), sum, "{:?}", window);
                }
            }
        }
    }
    assert_eq!(mc.symbols_total(), 6 + 7 + 6 + 1);
    assert_eq!(mc.positions_learnt(), 6 + 7 + 6 + 1 + 5);
}

#[test]
fn symbols_are_counted_by_themselves() {
    let mut mc = MarkovChain::new_with_rng(2, seeded());
    mc.train("abca".chars());
    mc.train("ad".chars());
    assert_eq!(mc.symbol_count(&'a'), 3);
    assert_eq!(mc.symbol_count(&'b'), 1);
    assert_eq!(mc.symbol_count(&'d'), 1);
    assert_eq!(mc.symbol_count(&'z'), 0);
    assert_eq!(mc.symbols_total(), 6);
}

#[test]
fn the_empty_sequence_records_an_immediate_end() {
    let mut mc: MarkovChain<char, XorShiftRng> = MarkovChain::new_with_rng(2, seeded());
    mc.train("".chars());
    assert!(mc.has_context(&[None]));
    assert_eq!(mc.occurrences(&[None], &None), 1);
    assert_eq!(mc.context_total(&[None]), 1);
    assert!(!mc.has_context(&[None, None]));
    assert_eq!(mc.symbols_total(), 0);
    assert_eq!(mc.positions_learnt(), 1);
    for _ in 0..10 {
        assert_eq!(mc.generate(), Vec::<char>::new());
    }
}

#[test]
fn training_slices_and_iterators_agree() {
    let mut by_iterator = MarkovChain::new_with_rng(3, seeded());
    let mut by_slice = MarkovChain::new_with_rng(3, seeded());
    for word in ["markov", "chain", "order"] {
        by_iterator.train(word.chars());
        let symbols: Vec<char> = word.chars().collect();
        by_slice.train_slice(&symbols);
    }
    for _ in 0..50 {
        assert_eq!(by_iterator.generate(), by_slice.generate());
    }
}

#[test]
fn there_is_room_for_ordinary_sequences() {
    let mut mc = MarkovChain::new_with_rng(3, seeded());
    assert!(mc.room_for(0));
    assert!(mc.room_for(1_000_000));
    assert!(!mc.room_for(usize::MAX));
    assert!(!mc.room_for(usize::MAX / 2));
    assert!(mc.room_for(usize::MAX / 3 - 1));
    assert!(!mc.room_for(usize::MAX / 3));
    mc.train("abc".chars());
    assert!(mc.room_for(usize::MAX / 3 - 5));
    assert!(!mc.room_for(usize::MAX / 3 - 4));
}

#[test]
fn a_larger_corpus_keeps_its_books() {
    let mut words = seeded();
    let mut mc = MarkovChain::new_with_rng(3, seeded());
    let letters: Vec<char> = "abcdefghijklmnopqrstuvwxyz".chars().collect();
    let mut symbols = 0;
    let mut sequences = 0;
    for _ in 0..3000 {
        let len = words.gen_range(0, 12);
        let word: Vec<char> = (0..len).map(|_| letters[words.gen_range(0, 26)]).collect();
        assert!(mc.room_for(word.len()));
        symbols += word.len();
        sequences += 1;
        mc.train(word.into_iter());
    }
    assert_eq!(mc.symbols_total(), symbols);
    assert_eq!(mc.positions_learnt(), symbols + sequences);
    assert_eq!(mc.context_total(&[None]), sequences);
    let mut by_letter = 0;
    for letter in &letters {
        by_letter += mc.symbol_count(letter);
        let mut followers = 0;
        for key in keys() {
            followers += mc.occurrences(&[Some(*letter)], &key);
        }
        assert_eq!(mc.context_total(&[Some(*letter)]), followers);
        let leading = mc.context_total(&[None, Some(*letter)]);
        assert_eq!(followers, 3 * mc.symbol_count(letter) - leading);
    }
    assert_eq!(by_letter, symbols);
    for _ in 0..1000 {
        for symbol in mc.generate() {
            assert!(mc.symbol_count(&symbol) > 0);
        }
    }
}
