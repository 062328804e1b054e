use kirum::kirum::Lexis;
use kirum::matching::{EqualValue, LexisMatch, Value, ValueMatch};

#[test]
fn test_lexis_match() {
    let test_lexis = Lexis {
        id: String::new(),
        word: Some(kirum::lemma::Lemma::new("kirum")),
        lexis_type: "".to_string(),
        language: "Old Babylonian".to_string(),
        pos: None,
        definition: "".to_string(),
        archaic: false,
        tags: vec!["tag1".to_string(), "tag2".to_string()],
        word_create: None,
        ..Default::default()
    };

    let test_match = LexisMatch {
        id: None,
        word: None,
        language: Some(Value::Match(ValueMatch::Equals(EqualValue::Text(
            "Old Babylonian".to_string(),
        )))),
        pos: None,
        archaic: Some(false),
        lexis_type: None,
        tags: Some(Value::Match(ValueMatch::OneOf(vec!["tag1".to_string(), "tag3".to_string()]))),
    };
    assert_eq!(test_match.matches(&test_lexis), true);
}

#[test]
fn test_lexis_tags() {
    let test_lexis = Lexis {
        tags: vec!["tag1".to_string(), "tag2".to_string()],
        ..Default::default()
    };
    let tags_all = LexisMatch {
        tags: Some(Value::Match(ValueMatch::Equals(EqualValue::Vector(vec![
            "tag1".to_string(),
            "tag2".to_string(),
        ])))),
        ..Default::default()
    };
    assert_eq!(tags_all.matches(&test_lexis), true);

    let tags_not_all = LexisMatch {
        tags: Some(Value::Not(ValueMatch::Equals(EqualValue::Vector(vec![
            "tag3".to_string(),
            "tag4".to_string(),
        ])))),
        ..Default::default()
    };
    assert_eq!(tags_not_all.matches(&test_lexis), true);

    let tags_not_oneof = LexisMatch {
        tags: Some(Value::Not(ValueMatch::OneOf(vec!["tag3".to_string(), "tag4".to_string()]))),
        ..Default::default()
    };
    assert_eq!(tags_not_oneof.matches(&test_lexis), true);
}

#[test]
fn test_value_negation() {
    // a negated match accepts exactly where the plain match rejects
    let inner = ValueMatch::Equals(EqualValue::Text("gauntlet".to_string()));
    let plain = Value::Match(inner.clone());
    let negated = Value::Not(inner);
    for target in ["gauntlet", "new gauntlet", ""] {
        assert_eq!(plain.is_true(target), !negated.is_true(target));
    }
}

#[test]
fn test_equals_vector_on_scalar_field_is_false() {
    let m = LexisMatch {
        language: Some(Value::Match(ValueMatch::Equals(EqualValue::Vector(vec![
            "gauntlet".to_string(),
        ])))),
        ..Default::default()
    };
    let lex = Lexis { language: "gauntlet".to_string(), ..Default::default() };
    assert!(!m.matches(&lex));
}

#[test]
fn test_oneof_on_scalar_field() {
    let m = LexisMatch {
        language: Some(Value::Match(ValueMatch::OneOf(vec![
            "gauntlet".to_string(),
            "frost".to_string(),
        ]))),
        ..Default::default()
    };
    let lex = Lexis { language: "frost".to_string(), ..Default::default() };
    assert!(m.matches(&lex));
}
