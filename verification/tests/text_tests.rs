use rag_system::strings::{chars_of, string_of};
use rag_system::text::{char_is_whitespace, split_words};

fn std_words(text: &str) -> Vec<String> {
    text.split_whitespace().map(|w| w.to_string()).collect()
}

#[test]
fn whitespace_agrees_with_std_on_every_char() {
    let mut code: u32 = 0;
    while code <= 0x10FFFF {
        if let Some(c) = char::from_u32(code) {
            assert_eq!(char_is_whitespace(c), c.is_whitespace(), "U+{:04X}", code);
        }
        code += 1;
    }
}

#[test]
fn whitespace_named_characters() {
    assert!(char_is_whitespace(' '));
    assert!(char_is_whitespace('\t'));
    assert!(char_is_whitespace('\n'));
    assert!(char_is_whitespace('\r'));
    assert!(char_is_whitespace('\u{0B}'));
    assert!(char_is_whitespace('\u{0C}'));
    assert!(char_is_whitespace('\u{85}'));
    assert!(char_is_whitespace('\u{A0}'));
    assert!(char_is_whitespace('\u{1680}'));
    assert!(char_is_whitespace('\u{2000}'));
    assert!(char_is_whitespace('\u{200A}'));
    assert!(char_is_whitespace('\u{2028}'));
    assert!(char_is_whitespace('\u{2029}'));
    assert!(char_is_whitespace('\u{202F}'));
    assert!(char_is_whitespace('\u{205F}'));
    assert!(char_is_whitespace('\u{3000}'));
    assert!(!char_is_whitespace('a'));
    assert!(!char_is_whitespace('_'));
    assert!(!char_is_whitespace('\u{08}'));
    assert!(!char_is_whitespace('\u{0E}'));
    assert!(!char_is_whitespace('\u{200B}'));
    assert!(!char_is_whitespace('\u{180E}'));
    assert!(!char_is_whitespace('\u{FEFF}'));
}

#[test]
fn split_words_simple() {
    assert_eq!(split_words("a b c d e"), vec!["a", "b", "c", "d", "e"]);
    assert_eq!(split_words("hello world"), vec!["hello", "world"]);
    assert_eq!(split_words("single"), vec!["single"]);
}

#[test]
fn split_words_of_blank_text_is_empty() {
    assert_eq!(split_words(""), Vec::<String>::new());
    assert_eq!(split_words(" "), Vec::<String>::new());
    assert_eq!(split_words(" \t\r\n\u{A0}\u{3000} "), Vec::<String>::new());
}

#[test]
fn split_words_skips_runs_of_whitespace() {
    assert_eq!(split_words("  lead"), vec!["lead"]);
    assert_eq!(split_words("trail  "), vec!["trail"]);
    assert_eq!(split_words("\n\ta \t\n b\r\n"), vec!["a", "b"]);
    assert_eq!(split_words("x\u{2003}y\u{85}z"), vec!["x", "y", "z"]);
}

#[test]
fn split_words_keeps_other_characters() {
    assert_eq!(split_words("naïve café — 東京"), vec!["naïve", "café", "—", "東京"]);
    assert_eq!(split_words("a\u{200B}b c"), vec!["a\u{200B}b", "c"]);
    assert_eq!(split_words("end. (start)"), vec!["end.", "(start)"]);
}

#[test]
fn split_words_agrees_with_std() {
    let samples = [
        "",
        " ",
        "a",
        " a",
        "a ",
        "a b",
        "a  b",
        "The quick\tbrown\nfox  jumps\r\nover the lazy dog.",
        "\u{A0}non\u{A0}breaking\u{A0}",
        "tabs\t\tand\u{0B}vertical\u{0C}feeds",
        "ideographic\u{3000}space and\u{2028}line\u{2029}separators",
        "mixed 🙂 emoji\u{1680}ogham",
        "zero\u{200B}width is no space",
    ];
    for sample in samples {
        assert_eq!(split_words(sample), std_words(sample), "{:?}", sample);
    }
}

#[test]
fn chars_of_gives_the_characters_in_order() {
    assert_eq!(chars_of("abc"), vec!['a', 'b', 'c']);
    assert_eq!(chars_of(""), Vec::<char>::new());
    assert_eq!(chars_of("é 東"), vec!['é', ' ', '東']);
}

#[test]
fn string_of_gives_the_string_of_the_characters() {
    assert_eq!(string_of(&vec!['a', 'b', 'c']), "abc");
    assert_eq!(string_of(&Vec::new()), "");
    assert_eq!(string_of(&vec!['é', ' ', '東']), "é 東");
    assert_eq!(string_of(&chars_of("round trip")), "round trip");
}
