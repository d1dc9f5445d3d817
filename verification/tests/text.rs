use intelligence_fn_rs::chars::{char_is_alphanumeric, char_is_whitespace, char_to_lowercase};
use intelligence_fn_rs::text::{lowercase_text, normalize_text, tokenize, tokenize_set};
use intelligence_fn_rs::wordlist::WordList;
use intelligence_fn_rs::wordset::WordSet;

fn words_of(list: &[&str]) -> Vec<String> {
    list.iter().map(|w| w.to_string()).collect()
}

#[test]
fn character_classes_agree_with_std() {
    for code in 0u32..=0x10FFFF {
        if let Some(c) = char::from_u32(code) {
            assert_eq!(char_is_whitespace(c), c.is_whitespace(), "white space at {code:#x}");
            assert_eq!(
                char_is_alphanumeric(c),
                c.is_ascii_alphanumeric(),
                "alphanumeric at {code:#x}"
            );
            assert_eq!(char_to_lowercase(c), c.to_ascii_lowercase(), "lower case at {code:#x}");
        }
    }
}

#[test]
fn normalize_collapses_whitespace() {
    assert_eq!(normalize_text("  hello \t\n world  "), "hello world");
    assert_eq!(normalize_text("a\u{a0}b\u{2003}\u{2003}c"), "a b c");
    assert_eq!(normalize_text("one"), "one");
    assert_eq!(normalize_text("Keeps, Punctuation!  And Case"), "Keeps, Punctuation! And Case");
}

#[test]
fn normalize_of_blank_text_is_empty() {
    assert_eq!(normalize_text(""), "");
    assert_eq!(normalize_text(" \u{3000}\t\r\n "), "");
}

#[test]
fn normalize_agrees_with_split_whitespace() {
    let samples = [
        "",
        " ",
        "x",
        " leading",
        "trailing ",
        "two  spaces",
        "tabs\tand\nlines\r\n",
        "\u{85}next\u{2028}line\u{2029}",
        "\u{1680}ogham\u{205f}math\u{202f}narrow",
        "\u{200b}zero width is no space",
    ];
    for sample in samples {
        let expected = sample.split_whitespace().collect::<Vec<_>>().join(" ");
        assert_eq!(normalize_text(sample), expected);
    }
}

#[test]
fn normalize_is_idempotent() {
    let once = normalize_text("  a   b \n c ");
    assert_eq!(normalize_text(&once), once);
}

#[test]
fn tokenize_splits_and_lowercases() {
    assert_eq!(
        tokenize("Great support, FAST replies!"),
        vec!["great", "support", "fast", "replies"]
    );
    assert_eq!(tokenize("a1-b2__C3"), vec!["a1", "b2", "c3"]);
    assert_eq!(tokenize("caf\u{e9} au lait"), vec!["caf", "au", "lait"]);
}

#[test]
fn tokenize_keeps_duplicates_and_order() {
    assert_eq!(tokenize("good bad good"), vec!["good", "bad", "good"]);
}

#[test]
fn tokenize_without_tokens_is_empty() {
    assert!(tokenize("").is_empty());
    assert!(tokenize("... !!! \u{4f60}\u{597d}").is_empty());
}

#[test]
fn tokenize_agrees_with_std() {
    let samples = ["Hello, World!", "x", "  ", "MiXeD123 case_and-dash", "\u{c9}t\u{e9} 2024"];
    for sample in samples {
        let expected: Vec<String> = sample
            .split(|c: char| !c.is_ascii_alphanumeric())
            .filter(|part| !part.trim().is_empty())
            .map(|part| part.to_ascii_lowercase())
            .collect();
        assert_eq!(tokenize(sample), expected);
    }
}

#[test]
fn lowercase_text_lowers_ascii_only() {
    assert_eq!(lowercase_text("GoOD \u{c9}T\u{c9}"), "good \u{c9}t\u{c9}");
    assert_eq!(lowercase_text(""), "");
}

#[test]
fn tokenize_set_filters_short_and_stop_words() {
    let stop = WordList::from_words(words_of(&["the", "and"]));
    let set = tokenize_set("The cat and the dog ate an ox, and THE CAT slept", &stop);
    assert_eq!(set.len(), 4);
    for word in ["cat", "dog", "ate", "slept"] {
        assert!(set.contains(&word.to_string()), "{word} is a member");
    }
    for word in ["the", "and", "an", "ox", "The", "CAT"] {
        assert!(!set.contains(&word.to_string()), "{word} is no member");
    }
}

#[test]
fn tokenize_set_of_short_words_is_empty() {
    let stop = WordList::from_words(words_of(&["the"]));
    let set = tokenize_set("it is ok, the", &stop);
    assert!(set.is_empty());
    assert_eq!(set.len(), 0);
}

#[test]
fn word_set_takes_a_word_once() {
    let mut set = WordSet::from_words(words_of(&["b", "a", "b"]));
    assert_eq!(set.len(), 2);
    assert_eq!(set.get(0), "b");
    assert_eq!(set.get(1), "a");
    assert!(!set.insert("a".to_string()));
    assert!(set.insert("c".to_string()));
    assert_eq!(set.len(), 3);
    assert_eq!(set.position(&"c".to_string()), Some(2));
    assert_eq!(set.position(&"z".to_string()), None);
    assert!(WordSet::new().is_empty());
}

#[test]
fn word_list_finds_its_words() {
    let words = ["pear", "apple", "fig", "apple", "", "Zebra", "\u{e9}t\u{e9}", "figs", "a"];
    let list = WordList::from_words(words_of(&words));
    for word in words {
        assert!(list.contains(&word.to_string()), "{word:?} is a member");
    }
    for word in ["pea", "pears", "apples", "b", "zebra", "ete", " ", "fi"] {
        assert!(!list.contains(&word.to_string()), "{word:?} is no member");
    }
    assert!(!list.is_empty());
}

#[test]
fn empty_word_list_finds_nothing() {
    let list = WordList::from_words(Vec::new());
    assert!(list.is_empty());
    assert!(!list.contains(&String::new()));
    assert!(!list.contains(&"word".to_string()));
}

#[test]
fn word_list_agrees_with_a_linear_search() {
    let mut words: Vec<String> = Vec::new();
    let mut seed: u32 = 11;
    for _ in 0..200 {
        seed = seed.wrapping_mul(1_103_515_245).wrapping_add(12_345);
        words.push(format!("w{}", (seed >> 16) % 150));
    }
    let list = WordList::from_words(words.clone());
    for n in 0..160 {
        let word = format!("w{n}");
        assert_eq!(list.contains(&word), words.contains(&word), "{word}");
    }
}
