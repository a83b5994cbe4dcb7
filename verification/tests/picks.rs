use markov_mania::markov_chain::Chain;
use markov_mania::source::RandomSource;

fn looped() -> Chain {
    let mut chain = Chain::new();
    chain.train(vec!["x y x y x z"]);
    chain
}

#[test]
fn picks_select_followers_in_order() {
    let chain = looped();
    assert_eq!(chain.generate_from_picks(3, Some("x"), &vec![2, 0, 1]), "x z");
    assert_eq!(chain.generate_from_picks(3, Some("x"), &vec![0, 0, 2]), "x y x z");
    assert_eq!(chain.generate_from_picks(3, Some("x"), &vec![1, 1, 1]), "x y x y");
    assert_eq!(chain.generate_from_picks(4, Some("x"), &vec![1, 1, 1, 0]), "x y x y x");
}

#[test]
fn first_pick_selects_the_opening_word() {
    let chain = looped();
    assert_eq!(chain.generate_from_picks(2, None, &vec![1, 0, 2]), "y x z");
    assert_eq!(chain.generate_from_picks(2, None, &vec![0, 0, 1]), "x y x");
    assert_eq!(chain.generate_from_picks(0, None, &vec![1]), "y");
    assert_eq!(chain.generate_from_picks(0, None, &vec![0]), "x");
}

#[test]
fn picks_count_around() {
    let chain = looped();
    assert_eq!(chain.generate_from_picks(2, Some("x"), &vec![5, 7]), "x z");
    assert_eq!(chain.generate_from_picks(2, Some("x"), &vec![3, 7]), "x y x");
    assert_eq!(chain.generate_from_picks(1, None, &vec![3, 4]), "y x");
    assert_eq!(chain.generate_from_picks(1, None, &vec![usize::MAX - 1, usize::MAX]), "x y");
}

#[test]
fn missing_picks_count_as_zero() {
    let chain = looped();
    assert_eq!(chain.generate_from_picks(3, None, &Vec::new()), "x y x y");
    assert_eq!(chain.generate_from_picks(3, Some("y"), &vec![1]), "y x y x");
    assert_eq!(chain.generate_from_picks(2, None, &vec![1]), "y x y");
}

#[test]
fn empty_seed_counts_as_none() {
    let chain = looped();
    assert_eq!(chain.generate_from_picks(1, Some(""), &vec![1, 2]), "y x");
    assert_eq!(chain.generate_from_picks(1, None, &vec![1, 2]), "y x");
    let mut rng = RandomSource::seeded(4);
    for _ in 0..50 {
        let text = chain.generate(0, Some(""), &mut rng);
        assert!(text == "x" || text == "y");
    }
}

#[test]
fn seed_of_white_space_gives_nothing() {
    let chain = looped();
    assert_eq!(chain.generate_from_picks(3, Some("  \t "), &vec![1, 2]), "");
    let mut rng = RandomSource::seeded(4);
    assert_eq!(chain.generate(3, Some(" "), &mut rng), "");
}

#[test]
fn seed_words_are_kept_as_they_are() {
    let chain = looped();
    assert_eq!(chain.generate_from_picks(1, Some("  q   r \n x "), &vec![2]), "q r x z");
    assert_eq!(chain.generate_from_picks(5, Some("x q"), &vec![2]), "x q");
    assert_eq!(chain.generate_from_picks(0, Some("x"), &vec![2]), "x");
}

#[test]
fn cycles_use_up_the_limit() {
    let mut chain = Chain::new();
    chain.train(vec!["a a"]);
    assert_eq!(chain.generate_from_picks(4, Some("a"), &vec![9, 9, 9, 9]), "a a a a a");
    let mut rng = RandomSource::seeded(6);
    assert_eq!(chain.generate(6, None, &mut rng), "a a a a a a a");
    assert_eq!(chain.generate(0, None, &mut rng), "a");
}

#[test]
fn random_numbers_stay_below_the_bound() {
    let mut rng = RandomSource::seeded(17);
    let mut seen = vec![false; 5];
    for _ in 0..500 {
        let pick = rng.below(5);
        assert!(pick < 5);
        seen[pick] = true;
    }
    assert!(seen.iter().all(|s| *s));
    for _ in 0..50 {
        assert_eq!(rng.below(1), 0);
    }
}

#[test]
fn different_seeds_give_different_numbers() {
    let mut one = RandomSource::seeded(1);
    let mut two = RandomSource::seeded(2);
    let first: Vec<usize> = (0..32).map(|_| one.below(1000)).collect();
    let second: Vec<usize> = (0..32).map(|_| two.below(1000)).collect();
    assert_ne!(first, second);
    let mut again = RandomSource::seeded(1);
    let third: Vec<usize> = (0..32).map(|_| again.below(1000)).collect();
    assert_eq!(first, third);
}
