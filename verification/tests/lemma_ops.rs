use kirum::lemma::Lemma;
use kirum::transforms::{LetterArrayValues, LetterPlaceType};

#[test]
fn test_char_array() {
    let mut vec_word: Lemma = Lemma::from_token_strs(vec!["k", "i", "r", "u", "m"]);
    let test_array = vec![
        LetterArrayValues::Place(0),
        LetterArrayValues::Char("t".to_string()),
        LetterArrayValues::Char("q".to_string()),
        LetterArrayValues::Place(1),
    ];
    vec_word.modify_with_array(&test_array);

    let golden: Lemma = Lemma::from_token_strs(vec!["k", "t", "q", "i"]);

    assert_eq!(vec_word, golden);
}

#[test]
fn test_remove() {
    let mut vec_word: Lemma = Lemma::from_token_strs(vec!["k", "i", "r", "u", "m"]);
    vec_word.remove_char("i", &LetterPlaceType::All);

    // compare the word, and the placement of the tokens
    let golden_word: Lemma = Lemma::from_token_strs(vec!["k", "r", "u", "m"]);

    assert_eq!(vec_word, golden_word);
}

#[test]
fn test_replace_all() {
    let mut vec_word: Lemma = Lemma::from_token_strs(vec!["k", "i", "r", "u", "m"]);
    vec_word.replace("i", "e", &LetterPlaceType::All);

    assert_eq!(vec_word.string_without_sep(), "kerum".to_string());

    let mut str_word: Lemma = Lemma::new("kirum");
    str_word.replace("i", "e", &LetterPlaceType::All);

    assert_eq!(str_word.string_without_sep(), "kerum".to_string());
}

#[test]
fn test_replace_first() {
    let mut vec_word: Lemma = Lemma::from_token_strs(vec!["k", "i", "r", "u", "u"]);
    vec_word.replace("u", "h", &LetterPlaceType::First);

    assert_eq!(vec_word.string_without_sep(), "kirhu".to_string());
}

#[test]
fn test_replace_last() {
    let mut vec_word: Lemma = Lemma::from_token_strs(vec!["u", "i", "r", "u"]);
    vec_word.replace("u", "h", &LetterPlaceType::Last);

    assert_eq!(vec_word.string_without_sep(), "uirh".to_string());
}

#[test]
fn test_double_all() {
    let mut string_word: Lemma = Lemma::new("test");
    string_word.double("t", &LetterPlaceType::All);

    assert_eq!(string_word.string_without_sep(), String::from("ttestt"));
}

#[test]
fn test_double_first() {
    let mut string_word: Lemma = Lemma::new("test");
    string_word.double("t", &LetterPlaceType::First);

    assert_eq!(string_word.string_without_sep(), String::from("ttest"));
}

#[test]
fn test_double_last() {
    let mut string_word: Lemma = Lemma::new("test");
    string_word.double("t", &LetterPlaceType::Last);

    assert_eq!(string_word.string_without_sep(), String::from("testt"));
}

#[test]
fn test_dedouble_all() {
    let mut string_word: Lemma = Lemma::new("ttestt");
    string_word.dedouble("t", &LetterPlaceType::All);

    assert_eq!(string_word.string_without_sep(), String::from("test"));
}

#[test]
fn test_dedouble_first() {
    let mut string_word: Lemma = Lemma::new("ttestt");
    string_word.dedouble("t", &LetterPlaceType::First);

    assert_eq!(string_word.string_without_sep(), String::from("testt"));
}

#[test]
fn test_dedouble_last() {
    let mut string_word: Lemma = Lemma::new("ttestt");
    string_word.dedouble("t", &LetterPlaceType::Last);

    assert_eq!(string_word.string_without_sep(), String::from("ttest"));
}

#[test]
fn test_match_replace() {
    let mut string_word: Lemma = Lemma::new("kirum");
    string_word.match_replace(&Lemma::new("rum"), &Lemma::new("teh"));

    assert_eq!(string_word.string_without_sep(), String::from("kiteh"));
}

#[test]
fn test_push_and_push_char() {
    let mut word = Lemma::new("ki");
    word.push(Lemma::new("rum"));
    assert_eq!(word.string_without_sep(), "kirum".to_string());
    assert_eq!(word.len(), 5);

    let mut built = Lemma::default();
    assert!(built.is_empty());
    built.push_char("hʷ");
    built.push_char("a");
    built.push_char("");
    assert_eq!(built.len(), 2);
    assert_eq!(built.string_without_sep(), "hʷa".to_string());
}

#[test]
fn test_prefix_postfix_tokens() {
    let mut word = Lemma::new("rum");
    word.add_prefix(&Lemma::new("ki"));
    assert_eq!(word.string_without_sep(), "kirum".to_string());
    word.add_postfix(&Lemma::new("uh"));
    assert_eq!(word.string_without_sep(), "kirumuh".to_string());
}

#[test]
fn test_multi_codepoint_tokens() {
    // a token may hold several codepoints and still count as one letter
    let word = Lemma::from_token_strs(vec!["hʷ", "a", "n"]);
    assert_eq!(word.len(), 3);
    assert_eq!(word.clone().chars(), vec!["hʷ".to_string(), "a".to_string(), "n".to_string()]);
    assert_eq!(word.string_without_sep(), "hʷan".to_string());
}

#[test]
fn test_replace_empty_search_is_noop() {
    let mut word = Lemma::new("kirum");
    word.replace("", "x", &LetterPlaceType::All);
    assert_eq!(word.string_without_sep(), "kirum".to_string());
}

#[test]
fn test_match_replace_bad_pattern_unchanged() {
    let mut word = Lemma::new("kirum");
    word.match_replace(&Lemma::new("(unclosed"), &Lemma::new("x"));
    assert_eq!(word.string_without_sep(), "kirum".to_string());
}

#[test]
fn test_grapheme_roundtrip() {
    // splitting the display form of a string-built lemma yields the
    // lemma's own tokens again
    for text in ["kirum", "hʷan", "", "a"] {
        let built = Lemma::new(text);
        let reread = Lemma::new(&built.string_without_sep());
        assert_eq!(built, reread);
        assert_eq!(built.string_without_sep(), text.to_string());
    }
}

#[test]
fn test_from_tokens_drops_delimited_tokens() {
    // a verbatim token holding the reserved delimiter is dropped, so the
    // display form can never leak a delimiter
    let word = Lemma::from_tokens(vec![
        "a".to_string(),
        "b\u{200B}c".to_string(),
        "\u{200B}".to_string(),
        "d".to_string(),
    ]);
    assert_eq!(word.clone().chars(), vec!["a".to_string(), "d".to_string()]);
    assert_eq!(word.string_without_sep(), "ad".to_string());
}
