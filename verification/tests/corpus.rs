use markov_mania::markov_chain::Chain;
use markov_mania::corpus::sentences;

fn strings(words: &[&str]) -> Vec<String> {
    words.iter().map(|w| w.to_string()).collect()
}

fn by_the_standard_library(text: &str) -> Vec<String> {
    text.split("\n").filter(|s| !s.trim().is_empty()).map(|s| s.to_string()).collect()
}

#[test]
fn sentences_are_the_lines_that_are_not_blank() {
    assert_eq!(sentences("the cat sat\nthe cat ran\n"), strings(&["the cat sat", "the cat ran"]));
    assert_eq!(sentences("one\n\n  \t \ntwo"), strings(&["one", "two"]));
    assert_eq!(sentences(""), Vec::<String>::new());
    assert_eq!(sentences("\n\n\n"), Vec::<String>::new());
    assert_eq!(sentences("  \n \u{3000} \n"), Vec::<String>::new());
    assert_eq!(sentences("last line has no feed"), strings(&["last line has no feed"]));
}

#[test]
fn sentences_keep_their_white_space() {
    assert_eq!(sentences("  a  b \r\n c\t"), strings(&["  a  b \r", " c\t"]));
    assert_eq!(sentences("x\u{2028}y\nz"), strings(&["x\u{2028}y", "z"]));
}

#[test]
fn sentences_agree_with_split_and_trim() {
    let texts = [
        "",
        "\n",
        "a",
        "a\n",
        "\na",
        "a\nb",
        "a\n\nb\n",
        " \n\t\n a b \n\r\n c",
        "the cat sat\nthe cat ran\n\n\nx y x y x z\n   \n",
        "caf\u{e9}\n\u{a0}\nna\u{ef}ve\u{85}\n",
    ];
    for text in texts {
        assert_eq!(sentences(text), by_the_standard_library(text), "{:?}", text);
    }
}

#[test]
fn a_chain_learns_the_sentences_of_a_text() {
    let chain = Chain::from_text("the cat sat\n\n  \nthe cat ran\nalone\n");
    assert_eq!(chain.known_words(), strings(&["the", "cat"]));
    assert_eq!(chain.followers_of("the"), strings(&["cat", "cat"]));
    assert_eq!(chain.followers_of("cat"), strings(&["sat", "ran"]));
    assert!(chain.followers_of("sat").is_empty());
    assert!(chain.followers_of("alone").is_empty());
}

#[test]
fn a_text_of_blank_lines_teaches_nothing() {
    let chain = Chain::from_text(" \n\n\t\n");
    assert!(chain.known_words().is_empty());
    assert_eq!(chain.generate_from_picks(5, None, &vec![1, 2, 3]), "");
    assert_eq!(chain.generate_from_picks(5, Some(""), &vec![1, 2, 3]), "");
}
