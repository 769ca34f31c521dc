use lexsearch::helpers::format_word;
use lexsearch::helpers::stem;
use lexsearch::helpers::tokenize_term;

fn toks(phrase: &str) -> Vec<String> {
    tokenize_term(&String::from(phrase))
}

#[test]
fn format_word_keeps_only_token_characters() {
    let out = format_word("It's a.m.!Now");
    assert_eq!(out, "its am now");
    for c in out.chars() {
        assert!(c.is_ascii_lowercase() || c.is_ascii_digit() || c == ' ');
    }
}

#[test]
fn format_word_lowercases() {
    assert_eq!(format_word("ABC"), "abc");
    assert_eq!(format_word("MiXeD42"), "mixed42");
}

#[test]
fn format_word_unicode_lowercase_can_reach_ascii() {
    // U+212A (the Kelvin sign) lowercases to a plain ascii 'k'.
    assert_eq!(format_word("\u{212A}"), "k");
}

#[test]
fn format_word_strips_apostrophes_and_periods() {
    assert_eq!(format_word("don't."), "dont");
    assert_eq!(format_word("a.b'c"), "abc");
}

#[test]
fn normalize_roman_numeral_to_decimal() {
    assert_eq!(stem(&String::from("xiv")), "14");
    assert_eq!(toks("xiv"), vec!["14".to_string()]);
    assert_eq!(toks("MCMXCIX"), vec!["1999".to_string()]);
}

#[test]
fn invalid_numeral_is_left_alone() {
    // "iiii" is not the canonical numeral of any value.
    assert_eq!(stem(&String::from("iiii")), "iiii");
}

#[test]
fn normalize_stems_like_the_reference_stemmer() {
    assert_eq!(stem(&String::from("running")), "run");
    assert_eq!(toks("running"), toks("run"));
}

#[test]
fn tokenize_splits_and_orders() {
    assert_eq!(
        toks("Hello, cruel world 42"),
        vec![
            "hello".to_string(),
            "cruel".to_string(),
            "world".to_string(),
            "42".to_string()
        ]
    );
}

#[test]
fn tokenize_keeps_duplicates() {
    assert_eq!(
        toks("run run"),
        vec!["run".to_string(), "run".to_string()]
    );
}

#[test]
fn tokenize_empty_and_whitespace() {
    assert_eq!(toks(""), Vec::<String>::new());
    assert_eq!(toks("  \t \n "), Vec::<String>::new());
}

#[test]
fn tokenize_stable_under_rejoin() {
    for phrase in ["The Matrix! second run", "hello world 42", "XIV legion"] {
        let first = toks(phrase);
        let rejoined = first.join(" ");
        assert_eq!(toks(&rejoined), first);
    }
}
