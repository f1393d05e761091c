use text_search::{
    build_word_counts, clean_words, is_blank, normalize_token, split_query_into_words, tokenize,
    trim,
};

fn strings(v: &[&str]) -> Vec<String> {
    v.iter().map(|s| s.to_string()).collect()
}

#[test]
fn normalize_strips_punctuation_and_lowercases() {
    assert_eq!(normalize_token("Don't!"), "dont");
    assert_eq!(normalize_token("HeLLo,"), "hello");
    assert_eq!(normalize_token("..."), "");
    assert_eq!(normalize_token("ÄBC"), "äbc");
    assert_eq!(normalize_token("İx"), "ix");
}

#[test]
fn tokenize_drops_empty_tokens() {
    assert_eq!(
        tokenize("Hello, World! ... 123 -- x"),
        strings(&["hello", "world", "123", "x"])
    );
    assert!(tokenize("").is_empty());
    assert!(tokenize("  \t\n ").is_empty());
}

#[test]
fn tokens_are_lowercase_alphanumeric_and_nonempty() {
    let texts = [
        "The Quick, brown fox!! jumps -- over 2 lazy DOGS.",
        "  a\tb\nc  ",
        "¿Qué? Ünïcödé TEXT 42nd İstanbul",
        "",
        "!!! ??? ...",
    ];
    for text in texts.iter() {
        for t in tokenize(text) {
            assert!(!t.is_empty());
            assert!(t.chars().all(|c| c.is_alphanumeric()));
            assert_eq!(t, t.to_lowercase());
        }
    }
}

#[test]
fn word_counts_total_equals_token_count() {
    let texts = [
        "the cat and the hat",
        "One one ONE two",
        "",
        "a. b! c? a",
    ];
    for text in texts.iter() {
        let wc = build_word_counts(text);
        assert_eq!(wc.total_words(), tokenize(text).len());
    }
}

#[test]
fn word_counts_count_each_token() {
    let wc = build_word_counts("The cat, the hat. THE end");
    assert_eq!(wc.get(&"the".to_string()), 3);
    assert_eq!(wc.get(&"cat".to_string()), 1);
    assert_eq!(wc.get(&"hat".to_string()), 1);
    assert_eq!(wc.get(&"dog".to_string()), 0);
    assert_eq!(wc.total_words(), 6);
}

#[test]
fn split_query_splits_on_whitespace() {
    assert_eq!(
        split_query_into_words("  apple \t banana\ncherry  "),
        strings(&["apple", "banana", "cherry"])
    );
    assert!(split_query_into_words("   ").is_empty());
}

#[test]
fn clean_words_trims_and_drops_blank() {
    let words = strings(&[" apple ", "", "   ", "banana"]);
    assert_eq!(clean_words(&words), strings(&["apple", "banana"]));
}

#[test]
fn trim_and_blank() {
    assert_eq!(trim("  hi there \n"), "hi there");
    assert_eq!(trim(""), "");
    assert!(is_blank(" \t\n"));
    assert!(is_blank(""));
    assert!(!is_blank(" x "));
}
