use rand::prng::XorShiftRng;
use rand::{Rng, SeedableRng};
use std::collections::HashMap;
use warkov::chain::MarkovChain;
use warkov::distribution::Distribution;
use warkov::random::weighted_choice;

fn context_of(k: &str) -> Vec<Option<char>> {
    k.chars().map(Some).collect()
}

fn has_key<R: Rng>(mc: &MarkovChain<char, R>, k: &str) -> bool {
    mc.has_context(&context_of(k))
}

fn has_key_w_none_prefix<R: Rng>(mc: &MarkovChain<char, R>, k: &str) -> bool {
    let mut k = context_of(k);
    k.insert(0, None);
    mc.has_context(&k)
}

fn has_key_w_none_predict<R: Rng>(mc: &MarkovChain<char, R>, k: &str) -> bool {
    mc.occurrences(&context_of(k), &None) > 0
}

fn easy_rng() -> XorShiftRng {
    XorShiftRng::from_seed([1, 2, 3, 4, 5, 6, 7, 8, 9, 10, 11, 12, 13, 14, 15, 16])
}

fn prediction_result<R: Rng>(mc: &mut MarkovChain<char, R>) -> String {
    mc.generate().into_iter().map(|c| c.to_string()).collect::<Vec<String>>().join("")
}

fn prediction_result_size<R: Rng>(mc: &mut MarkovChain<char, R>, size: usize) -> String {
    mc.generate_max_look(size).into_iter().map(|c| c.to_string()).collect::<Vec<String>>().join("")
}

fn distribution_of(counts: &[(char, usize)]) -> Distribution<Option<char>> {
    let mut data = Distribution::new();
    for (key, count) in counts {
        for _ in 0..*count {
            data.record(Some(*key));
        }
    }
    data
}

#[test]
fn simple1() {
    let mut mc = MarkovChain::new(2);

    mc.train("abc".chars());
    assert!(mc.has_context(&vec![None]));
    assert!(has_key_w_none_prefix(&mc, "a"));
    assert!(!has_key_w_none_prefix(&mc, "ab"));
    assert!(!has_key_w_none_prefix(&mc, "abc"));

    assert!(has_key_w_none_predict(&mc, "c"));
    assert!(has_key_w_none_predict(&mc, "bc"));
    assert!(!has_key_w_none_predict(&mc, "abc"));

    assert!(has_key(&mc, "ab"));
    assert!(has_key(&mc, "ab"));
    assert!(has_key(&mc, "bc"));
    assert!(!has_key(&mc, "ac"));

    assert!(has_key(&mc, "a"));
    assert!(has_key(&mc, "b"));
    assert!(has_key(&mc, "c"));
    assert!(!has_key(&mc, "d"));
}

#[test]
fn simple2() {
    let mut mc = MarkovChain::new(3);

    mc.train("abc".chars());
    assert!(mc.has_context(&vec![None]));
    assert!(has_key_w_none_prefix(&mc, "a"));
    assert!(has_key_w_none_prefix(&mc, "ab"));
    assert!(!has_key_w_none_prefix(&mc, "abc"));

    assert!(has_key(&mc, "abc"));

    assert!(has_key(&mc, "ab"));
    assert!(has_key(&mc, "ab"));
    assert!(has_key(&mc, "bc"));
    assert!(!has_key(&mc, "ac"));

    assert!(has_key(&mc, "a"));
    assert!(has_key(&mc, "b"));
    assert!(has_key(&mc, "c"));
    assert!(!has_key(&mc, "d"));

    mc.train("rust".chars());
    assert!(mc.has_context(&vec![None]));
    assert!(has_key_w_none_prefix(&mc, "r"));
    assert!(has_key_w_none_prefix(&mc, "ru"));
    assert!(!has_key_w_none_prefix(&mc, "rus"));
    assert!(!has_key_w_none_prefix(&mc, "rust"));
    assert!(has_key(&mc, "r"));
    assert!(has_key(&mc, "u"));
    assert!(has_key(&mc, "s"));
    assert!(has_key(&mc, "t"));
    assert!(has_key(&mc, "ru"));
    assert!(has_key(&mc, "us"));
    assert!(has_key(&mc, "st"));
    assert!(has_key(&mc, "rus"));
    assert!(has_key(&mc, "ust"));
    assert!(!has_key(&mc, "rust"));
}

#[test]
fn weighted_choice1() {
    let mut rng = easy_rng();
    let data = distribution_of(&[('a', 1), ('b', 2)]);
    let mut stats: HashMap<Option<char>, usize> = HashMap::new();

    for _ in 0..1000 {
        let choice = weighted_choice(&mut rng, &data);
        *stats.entry(choice).or_default() += 1;
    }
    assert_eq!(stats[&Some('a')], 328);
    assert_eq!(stats[&Some('b')], 672);
}

#[test]
fn weighted_choice2() {
    let mut rng = easy_rng();
    let data = distribution_of(&[('a', 1), ('b', 200), ('c', 200), ('d', 200)]);
    let mut stats: HashMap<Option<char>, usize> = HashMap::new();

    for _ in 0..10_000 {
        let choice = weighted_choice(&mut rng, &data);
        *stats.entry(choice).or_default() += 1;
    }
    assert_eq!(stats[&Some('a')], 15);
    assert_eq!(stats[&Some('b')], 3293);
    assert_eq!(stats[&Some('c')], 3405);
    assert_eq!(stats[&Some('d')], 3287);
}

#[test]
fn predict1() {
    let mut mc = MarkovChain::new_with_rng(2, easy_rng());

    mc.train("abc".chars());
    mc.train("bbc".chars());
    mc.train("acb".chars());

    assert_eq!(prediction_result(&mut mc), "abc");
    assert_eq!(prediction_result(&mut mc), "bbc");
    assert_eq!(prediction_result(&mut mc), "bbc");

    assert_eq!(prediction_result_size(&mut mc, 1), "abbbc");
    assert_eq!(prediction_result_size(&mut mc, 1), "bc");
    assert_eq!(prediction_result_size(&mut mc, 1), "acbc");
    assert_eq!(prediction_result_size(&mut mc, 1), "ac");
}
