use markov_mania::text::{is_whitespace, join, tokenize};

fn strings(words: &[&str]) -> Vec<String> {
    words.iter().map(|w| w.to_string()).collect()
}

#[test]
fn white_space_is_what_the_standard_library_says() {
    for code in 0..=0x10FFFFu32 {
        if let Some(c) = char::from_u32(code) {
            assert_eq!(is_whitespace(c), c.is_whitespace(), "U+{:04X}", code);
        }
    }
}

#[test]
fn white_space_characters_by_name() {
    for c in [' ', '\t', '\n', '\r', '\u{b}', '\u{c}', '\u{85}', '\u{a0}', '\u{1680}', '\u{2000}',
        '\u{200a}', '\u{2028}', '\u{2029}', '\u{202f}', '\u{205f}', '\u{3000}']
    {
        assert!(is_whitespace(c));
    }
    for c in ['a', 'Z', '0', ',', '.', '_', '\u{8}', '\u{e}', '\u{1f}', '\u{200b}', '\u{180e}',
        '\u{feff}', '\u{2060}', '\u{e9}']
    {
        assert!(!is_whitespace(c));
    }
}

#[test]
fn tokens_are_the_runs_between_white_space() {
    assert_eq!(tokenize("the cat sat"), strings(&["the", "cat", "sat"]));
    assert_eq!(tokenize("  the   cat\tsat\n"), strings(&["the", "cat", "sat"]));
    assert_eq!(tokenize("word, word"), strings(&["word,", "word"]));
    assert_eq!(tokenize("one"), strings(&["one"]));
    assert_eq!(tokenize(""), Vec::<String>::new());
    assert_eq!(tokenize(" \t\r\n "), Vec::<String>::new());
    assert_eq!(tokenize("a"), strings(&["a"]));
    assert_eq!(tokenize(" a"), strings(&["a"]));
    assert_eq!(tokenize("a "), strings(&["a"]));
    assert_eq!(tokenize("caf\u{e9}\u{3000}na\u{ef}ve"), strings(&["caf\u{e9}", "na\u{ef}ve"]));
}

#[test]
fn tokens_agree_with_split_whitespace() {
    let lines = [
        "",
        " ",
        "a",
        "a b",
        " a  b ",
        "the quick\tbrown\nfox\r\njumps",
        "\u{a0}no\u{2003}break\u{3000}",
        "tabs\t\tand\u{b}more\u{c}here",
        "end.\u{2028}start\u{2029}again",
        "zero\u{200b}width is no space",
        "emoji \u{1f600} too",
    ];
    for line in lines {
        let wanted: Vec<String> = line.split_whitespace().map(|w| w.to_string()).collect();
        assert_eq!(tokenize(line), wanted, "{:?}", line);
    }
}

#[test]
fn joining_puts_one_space_between_words() {
    assert_eq!(join(&Vec::new()), "");
    assert_eq!(join(&strings(&["a"])), "a");
    assert_eq!(join(&strings(&["a", "b"])), "a b");
    assert_eq!(join(&strings(&["the", "cat", "sat"])), "the cat sat");
    assert_eq!(join(&strings(&["", ""])), " ");
}

#[test]
fn cutting_what_was_joined_gives_the_words_back() {
    for words in [strings(&[]), strings(&["a"]), strings(&["the", "cat,", "sat."]),
        strings(&["x", "y", "x", "y", "x", "z"])]
    {
        assert_eq!(tokenize(&join(&words)), words);
    }
}
