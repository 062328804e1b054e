use kirum::errors::TransformError;
use kirum::kirum::Lexis;
use kirum::lemma::Lemma;
use kirum::matching::{EqualValue, LexisMatch, Value, ValueMatch};
use kirum::transforms::{LetterPlaceType, LetterValues, Transform, TransformFunc};
use std::io::Write;

#[test]
fn test_replace_all_multiple_matches() {
    let mut word = Lexis { word: Some(Lemma::new("kirum")), ..Default::default() };
    let transform = Transform {
        name: "test".to_string(),
        lex_match: None,
        transforms: vec![
            TransformFunc::LetterReplace {
                letter: LetterValues { old_letter: "k".to_string(), new_letter: "o".to_string() },
                replace: LetterPlaceType::All,
            },
            TransformFunc::LetterReplace {
                letter: LetterValues { old_letter: "m".to_string(), new_letter: "n".to_string() },
                replace: LetterPlaceType::All,
            },
        ],
    };

    transform.transform(&mut word).unwrap();

    assert_eq!(word.word.unwrap().string_without_sep(), "oirun".to_string())
}

#[test]
fn test_letter_replace() {
    let letter_logic = LetterValues { old_letter: "u".to_string(), new_letter: "a".to_string() };
    let test_transform = TransformFunc::LetterReplace {
        letter: letter_logic,
        replace: LetterPlaceType::All,
    };
    let mut old_word = Lexis { word: Some(Lemma::new("kurum")), ..Default::default() };

    test_transform.transform(&mut old_word).unwrap();
    assert_eq!("karam".to_string(), old_word.word.unwrap().string_without_sep());
}

#[test]
fn test_letter_array() {
    let test_transform = TransformFunc::LetterArray {
        letters: vec![
            kirum::transforms::LetterArrayValues::Place(0),
            kirum::transforms::LetterArrayValues::Place(1),
            kirum::transforms::LetterArrayValues::Char("u".to_string()),
        ],
    };
    let mut old_word = Lexis { word: Some(Lemma::new("krm")), ..Default::default() };

    test_transform.transform(&mut old_word).unwrap();
    assert_eq!("kru".to_string(), old_word.word.unwrap().string_without_sep());
}

#[test]
fn test_postfix() {
    let test_transform = TransformFunc::Postfix { value: Lemma::new("uh") };
    let mut old_word = Lexis { word: Some(Lemma::new("kurum")), ..Default::default() };

    test_transform.transform(&mut old_word).unwrap();
    assert_eq!("kurumuh".to_string(), old_word.word.unwrap().string_without_sep())
}

#[test]
fn test_prefix() {
    let test_transform = TransformFunc::Prefix { value: Lemma::new("tur") };
    let mut old_word = Lexis { word: Some(Lemma::new("kurum")), ..Default::default() };

    test_transform.transform(&mut old_word).unwrap();
    assert_eq!("turkurum".to_string(), old_word.word.unwrap().string_without_sep());
}

#[test]
fn test_guard_rejection_leaves_lexis_unchanged() {
    let mut word = Lexis {
        word: Some(Lemma::new("kirum")),
        language: "gauntlet".to_string(),
        tags: vec!["root".to_string()],
        ..Default::default()
    };
    let guarded = Transform {
        name: "never".to_string(),
        lex_match: Some(LexisMatch {
            language: Some(Value::Match(ValueMatch::Equals(EqualValue::Text(
                "frost".to_string(),
            )))),
            ..Default::default()
        }),
        transforms: vec![TransformFunc::Prefix { value: Lemma::new("xx") }],
    };
    let applied = guarded.transform_option(&mut word).unwrap();
    assert!(!applied);
    assert_eq!(word.word.unwrap().string_without_sep(), "kirum".to_string());
    assert_eq!(word.language, "gauntlet".to_string());
    assert_eq!(word.tags, vec!["root".to_string()]);
}

#[test]
fn test_transform_without_word_is_noop() {
    let mut word = Lexis { word: None, ..Default::default() };
    let t = TransformFunc::Postfix { value: Lemma::new("uh") };
    t.transform(&mut word).unwrap();
    assert!(word.word.is_none());
}

#[test]
fn test_rhai_missing_script_fails() {
    let mut word = Lexis { word: Some(Lemma::new("example")), ..Default::default() };
    let t = TransformFunc::RhaiScript { file: "does_not_exist_anywhere.rhai".to_string() };
    match t.transform(&mut word) {
        Err(TransformError::EvalError(_)) => {},
        other => panic!("expected an evaluation error, got {:?}", other.is_ok()),
    }
}

fn rhai_setup() -> Lexis {
    Lexis {
        language: "testlang".to_string(),
        word: Some(Lemma::new("example")),
        pos: Some(kirum::word::PartOfSpeech::Noun),
        tags: vec!["test".to_string()],
        historical_metadata: kirum::metadata::MetadataMap::from_pairs(vec![(
            "test".to_string(),
            "true".to_string(),
        )]),
        ..Default::default()
    }
}

fn run_script(script: &str, word: &mut Lexis) {
    let mut file = tempfile::Builder::new().suffix(".rhai").tempfile().unwrap();
    file.write_all(script.as_bytes()).unwrap();
    file.flush().unwrap();
    let transform = Transform {
        name: "test".to_string(),
        lex_match: None,
        transforms: vec![TransformFunc::RhaiScript {
            file: file.path().to_str().unwrap().to_string(),
        }],
    };
    transform.transform(word).unwrap();
}

#[test]
fn test_rhai_script_metadata_tags() {
    let mut word = rhai_setup();
    run_script("lemma_string + \"-\" + tags[0] + \"&map:\" + metadata[\"test\"]", &mut word);
    assert_eq!(word.word.unwrap().string_without_sep(), "example-test&map:true".to_string())
}

#[test]
fn test_rhai_return_array() {
    let mut word = rhai_setup();
    run_script(
        "let out = []; for l in lemma_array { out.push(\"+\"); out.push(l); } out",
        &mut word,
    );
    assert_eq!(word.word.unwrap().string_without_sep(), "+e+x+a+m+p+l+e".to_string())
}

#[test]
fn test_rhai_pos() {
    let mut word = rhai_setup();
    run_script("lemma_string + \"-\" + pos", &mut word);
    assert_eq!(word.word.unwrap().string_without_sep(), "example-noun".to_string())
}

#[test]
fn test_rhai_language() {
    let mut word = rhai_setup();
    run_script("lemma_string + \"-\" + language", &mut word);
    assert_eq!(word.word.unwrap().string_without_sep(), "example-testlang".to_string())
}

#[test]
fn test_rhai_complex_unicode_lemma() {
    let mut word = Lexis {
        language: "testlang".to_string(),
        word: Some(Lemma::from_tokens(vec!["h\u{2b7}".to_string(), "a".to_string(), "n".to_string()])),
        pos: Some(kirum::word::PartOfSpeech::Noun),
        tags: vec!["test".to_string()],
        historical_metadata: kirum::metadata::MetadataMap::from_pairs(vec![(
            "test".to_string(),
            "true".to_string(),
        )]),
        ..Default::default()
    };
    run_script(
        "let first = lemma_array[0]; [first.sub_string(0, 1), lemma_array[1], lemma_array[2] + first.sub_string(1)]",
        &mut word,
    );
    assert_eq!(word.word.unwrap().string_without_sep(), "han\u{2b7}".to_string())
}

#[test]
fn test_rhai_script_rewrites_word() {
    let mut file = tempfile::Builder::new().suffix(".rhai").tempfile().unwrap();
    let script = "lemma_string + \"-\" + language";
    file.write_all(script.as_bytes()).unwrap();
    file.flush().unwrap();

    let mut word = Lexis {
        word: Some(Lemma::new("example")),
        language: "testlang".to_string(),
        ..Default::default()
    };
    let t = TransformFunc::RhaiScript { file: file.path().to_str().unwrap().to_string() };
    t.transform(&mut word).unwrap();
    assert_eq!(word.word.unwrap().string_without_sep(), "example-testlang".to_string());
}

#[test]
fn test_rhai_script_returns_array() {
    let mut file = tempfile::Builder::new().suffix(".rhai").tempfile().unwrap();
    let script = "let out = []; for l in lemma_array { out.push(\"+\"); out.push(l); } out";
    file.write_all(script.as_bytes()).unwrap();
    file.flush().unwrap();

    let mut word = Lexis { word: Some(Lemma::new("abc")), ..Default::default() };
    let t = TransformFunc::RhaiScript { file: file.path().to_str().unwrap().to_string() };
    t.transform(&mut word).unwrap();
    assert_eq!(word.word.unwrap().string_without_sep(), "+a+b+c".to_string());
}

#[test]
fn test_rhai_script_bad_return_type() {
    let mut file = tempfile::Builder::new().suffix(".rhai").tempfile().unwrap();
    let script = "40 + 2";
    file.write_all(script.as_bytes()).unwrap();
    file.flush().unwrap();

    let mut word = Lexis { word: Some(Lemma::new("example")), ..Default::default() };
    let t = TransformFunc::RhaiScript { file: file.path().to_str().unwrap().to_string() };
    match t.transform(&mut word) {
        Err(TransformError::ScriptReturnValueError(_)) => {},
        other => panic!("expected a return-value error, got {:?}", other.is_ok()),
    }
}
