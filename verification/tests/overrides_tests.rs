use kirum::overrides::parse;
use kirum::word::PartOfSpeech;

#[test]
fn test_override() {
    let list = vec!["generate=test_gen".to_string(), "pos=noun".to_string()];
    let parsed = parse(list).unwrap();
    assert_eq!(parsed.generate, Some(String::from("test_gen")));
    assert_eq!(parsed.part_of_speech, Some(PartOfSpeech::Noun));
}

#[test]
fn test_override_later_wins() {
    let list = vec!["language=frost".to_string(), "language=gauntlet".to_string()];
    let parsed = parse(list).unwrap();
    assert_eq!(parsed.language, Some("gauntlet".to_string()));
}

#[test]
fn test_override_word_and_tag() {
    let list = vec!["word=kirum".to_string(), "tag=loan".to_string(), "archaic=true".to_string()];
    let parsed = parse(list).unwrap();
    assert_eq!(parsed.word.unwrap().string_without_sep(), "kirum".to_string());
    assert_eq!(parsed.tags, Some(vec!["loan".to_string()]));
    assert!(parsed.archaic);
}

#[test]
fn test_override_rejects_bad_items() {
    assert!(parse(vec!["no-equals-here".to_string()]).is_err());
    assert!(parse(vec!["colour=red".to_string()]).is_err());
    assert!(parse(vec!["pos=interjection".to_string()]).is_err());
    assert!(parse(vec!["archaic=maybe".to_string()]).is_err());
}

#[test]
fn test_pos_parse() {
    assert_eq!(PartOfSpeech::parse("NOUN").unwrap(), PartOfSpeech::Noun);
    assert_eq!(PartOfSpeech::parse("adj").unwrap(), PartOfSpeech::Adjective);
    assert_eq!(PartOfSpeech::parse("Verb").unwrap(), PartOfSpeech::Verb);
    assert!(PartOfSpeech::parse("pronoun").is_err());
    assert_eq!(PartOfSpeech::Adjective.to_string(), "adjective".to_string());
}
