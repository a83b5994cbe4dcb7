use markov_mania::markov_chain::Chain;
use markov_mania::source::RandomSource;

fn strings(words: &[&str]) -> Vec<String> {
    words.iter().map(|w| w.to_string()).collect()
}

#[test]
fn two_lines_share_a_table() {
    let mut chain = Chain::new();
    chain.train(vec!["the cat sat", "the cat ran"]);
    assert_eq!(chain.followers_of("the"), strings(&["cat", "cat"]));
    assert_eq!(chain.followers_of("cat"), strings(&["sat", "ran"]));
    assert_eq!(chain.followers_of("sat"), Vec::<String>::new());
    assert_eq!(chain.followers_of("ran"), Vec::<String>::new());
    assert_eq!(chain.known_words(), strings(&["the", "cat"]));
    let mut rng = RandomSource::seeded(7);
    for _ in 0..20 {
        assert_eq!(chain.generate(1, Some("the"), &mut rng), "the cat");
    }
}

#[test]
fn seed_without_followers_stands_alone() {
    let mut chain = Chain::new();
    chain.train(vec!["a b"]);
    let mut rng = RandomSource::seeded(1);
    assert_eq!(chain.generate(5, Some("b"), &mut rng), "b");
    assert_eq!(chain.generate_from_picks(5, Some("b"), &vec![3, 1, 4]), "b");
}

#[test]
fn nothing_learned_gives_nothing() {
    let mut chain = Chain::new();
    chain.train(Vec::new());
    let mut rng = RandomSource::seeded(1);
    assert_eq!(chain.generate(10, None, &mut rng), "");
    assert_eq!(chain.generate_from_picks(10, None, &vec![5, 6]), "");
    assert!(chain.known_words().is_empty());
}

#[test]
fn untrained_chain_gives_nothing() {
    let chain = Chain::new();
    let mut rng = RandomSource::seeded(3);
    assert_eq!(chain.generate(4, None, &mut rng), "");
    assert_eq!(chain.generate(4, Some(""), &mut rng), "");
    assert_eq!(chain.generate(4, Some("hello there"), &mut rng), "hello there");
}

#[test]
fn frequent_followers_are_chosen_more_often() {
    let mut chain = Chain::new();
    chain.train(vec!["x y x y x z"]);
    assert_eq!(chain.followers_of("x"), strings(&["y", "y", "z"]));
    assert_eq!(chain.followers_of("y"), strings(&["x", "x"]));
    let mut rng = RandomSource::seeded(2024);
    let trials = 6000;
    let mut to_y = 0;
    let mut to_z = 0;
    for _ in 0..trials {
        let text = chain.generate(1, Some("x"), &mut rng);
        if text == "x y" {
            to_y += 1;
        } else {
            assert_eq!(text, "x z");
            to_z += 1;
        }
    }
    assert_eq!(to_y + to_z, trials);
    let ratio = to_y as f64 / to_z as f64;
    assert!(ratio > 1.7 && ratio < 2.3, "ratio {}", ratio);
}

#[test]
fn long_walks_visit_followers_by_frequency() {
    let mut chain = Chain::new();
    chain.train(vec!["x y x y x z"]);
    let mut rng = RandomSource::seeded(11);
    let mut to_y = 0;
    let mut to_z = 0;
    for _ in 0..2000 {
        let text = chain.generate(50, Some("x"), &mut rng);
        let words: Vec<&str> = text.split(' ').collect();
        for pair in words.windows(2) {
            if pair[0] == "x" {
                if pair[1] == "y" {
                    to_y += 1;
                } else {
                    assert_eq!(pair[1], "z");
                    to_z += 1;
                }
            }
        }
        assert_eq!(words[words.len() - 1], "z");
    }
    let ratio = to_y as f64 / to_z as f64;
    assert!(ratio > 1.7 && ratio < 2.3, "ratio {}", ratio);
}

#[test]
fn same_seed_gives_same_text() {
    let mut chain = Chain::new();
    chain.train(vec!["the cat sat on the mat", "the dog sat on the log", "a cat ran to a dog"]);
    let mut first = RandomSource::seeded(99);
    let mut second = RandomSource::seeded(99);
    for limit in 0..40 {
        let one = chain.generate(limit, None, &mut first);
        let two = chain.generate(limit, None, &mut second);
        assert_eq!(one, two);
        let one = chain.generate(limit, Some("the"), &mut first);
        let two = chain.generate(limit, Some("the"), &mut second);
        assert_eq!(one, two);
    }
}

#[test]
fn same_picks_give_same_text() {
    let mut chain = Chain::new();
    chain.train(vec!["the cat sat on the mat", "the dog sat on the log"]);
    let picks = vec![4, 1, 0, 3, 2, 7, 1];
    let one = chain.generate_from_picks(6, None, &picks);
    let two = chain.generate_from_picks(6, None, &picks);
    assert_eq!(one, two);
    assert_eq!(chain.clone().generate_from_picks(6, None, &picks), one);
}

#[test]
fn unseeded_text_has_between_one_and_limit_plus_one_words() {
    let mut chain = Chain::new();
    chain.train(vec!["the cat sat on the mat", "a b", "x y x y x z"]);
    let mut rng = RandomSource::seeded(5);
    for limit in 0..12 {
        for _ in 0..200 {
            let text = chain.generate(limit, None, &mut rng);
            let count = text.split_whitespace().count();
            assert!(count >= 1 && count <= limit + 1, "{:?} with limit {}", text, limit);
        }
    }
}

#[test]
fn text_begins_with_the_words_of_the_seed() {
    let mut chain = Chain::new();
    chain.train(vec!["the cat sat on the mat", "the dog sat on the log"]);
    let mut rng = RandomSource::seeded(8);
    for seed in ["the", "the cat", "never seen", "  spaced \t out\nthe ", "mat", "on"] {
        for limit in 0..6 {
            let text = chain.generate(limit, Some(seed), &mut rng);
            let wanted: Vec<&str> = seed.split_whitespace().collect();
            let got: Vec<&str> = text.split_whitespace().collect();
            assert!(got.len() >= wanted.len());
            assert!(got.len() <= wanted.len() + limit);
            assert_eq!(&got[..wanted.len()], &wanted[..]);
        }
    }
}

#[test]
fn every_step_follows_the_table() {
    let mut chain = Chain::new();
    chain.train(vec!["the cat sat on the mat", "the dog sat on the log", "a cat ran"]);
    let mut rng = RandomSource::seeded(21);
    for _ in 0..300 {
        let limit = rng.below(14) + 1;
        let text = chain.generate(limit, None, &mut rng);
        let words: Vec<&str> = text.split(' ').collect();
        assert!(chain.known_words().contains(&words[0].to_string()));
        for pair in words.windows(2) {
            assert!(chain.followers_of(pair[0]).contains(&pair[1].to_string()));
        }
        if words.len() < limit + 1 {
            assert!(chain.followers_of(words[words.len() - 1]).is_empty());
        }
    }
}

#[test]
fn unseeded_text_starts_at_every_known_word() {
    let mut chain = Chain::new();
    chain.train(vec!["a b c d"]);
    let mut rng = RandomSource::seeded(13);
    let mut starts = vec![0usize; 3];
    for _ in 0..3000 {
        let text = chain.generate(0, None, &mut rng);
        let at = chain.known_words().iter().position(|w| *w == text).unwrap();
        starts[at] += 1;
    }
    for count in starts {
        assert!(count > 850 && count < 1150, "count {}", count);
    }
}
