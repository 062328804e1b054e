use kirum::lexcreate::{CreateValue, LexPhonology, PhoneticReference};

#[test]
fn test_bad_phonetic_input() {
    let bad = CreateValue::parse("Ci");
    assert!(bad.is_err())
}

#[test]
fn test_spaces_bad_input() {
    let test_phon = CreateValue::parse("C wV i C r rw");
    assert!(test_phon.is_err())
}

#[test]
fn test_new_no_space() {
    let test_phon: PhoneticReference = PhoneticReference::parse("CCCC").unwrap();
    let expected = PhoneticReference(vec![
        CreateValue::Reference('C'),
        CreateValue::Reference('C'),
        CreateValue::Reference('C'),
        CreateValue::Reference('C'),
    ]);
    assert_eq!(test_phon, expected)
}

#[test]
fn test_new_spaces() {
    let test_phon: PhoneticReference = PhoneticReference::parse("C V i C r rw").unwrap();

    let expected = PhoneticReference(vec![
        CreateValue::Reference('C'),
        CreateValue::Reference('V'),
        CreateValue::Phoneme("i".to_string()),
        CreateValue::Reference('C'),
        CreateValue::Phoneme("r".to_string()),
        CreateValue::Phoneme("rw".to_string()),
    ]);
    assert_eq!(test_phon, expected)
}

#[test]
fn test_new_no_space_mix() {
    let test_phon: PhoneticReference = PhoneticReference::parse("CCrC").unwrap();
    let expected = PhoneticReference(vec![
        CreateValue::Reference('C'),
        CreateValue::Reference('C'),
        CreateValue::Phoneme("r".to_string()),
        CreateValue::Reference('C'),
    ]);
    assert_eq!(test_phon, expected)
}

fn phon(s: &str) -> PhoneticReference {
    PhoneticReference::parse(s).unwrap()
}

#[test]
fn test_basic_gen() {
    let test_phon = LexPhonology {
        groups: vec![('C', vec![phon("t"), phon("r")]), ('V', vec![phon("u"), phon("i")]), (
            'S',
            vec![phon("CV"), phon("VC")],
        )],
        lexis_types: vec![("words".to_string(), vec![phon("S"), phon("SS")])],
    };

    let res = test_phon.create_word("words");
    assert_eq!(true, res.is_some());
    assert!(res.clone().unwrap().len() > 0);
    println!("got: {}", res.unwrap().string_without_sep());
}

#[test]
fn test_gen_structure() {
    // every produced letter is drawn from the terminals, and the
    // display is 2 or 4 characters long for these rules
    let test_phon = LexPhonology {
        groups: vec![('C', vec![phon("t"), phon("r")]), ('V', vec![phon("u"), phon("i")]), (
            'S',
            vec![phon("CV"), phon("VC")],
        )],
        lexis_types: vec![("words".to_string(), vec![phon("S"), phon("SS")])],
    };
    for _ in 0..32 {
        let shown = test_phon.create_word("words").unwrap().string_without_sep();
        assert!(shown.len() == 2 || shown.len() == 4);
        assert!(shown.chars().all(|c| c == 't' || c == 'r' || c == 'u' || c == 'i'));
    }
}

#[test]
fn test_gen_missing_type() {
    let test_phon = LexPhonology {
        groups: vec![('C', vec![phon("t")])],
        lexis_types: vec![("words".to_string(), vec![phon("C")])],
    };
    assert!(test_phon.create_word("prefixes").is_none());
}

#[test]
fn test_gen_missing_group() {
    // a reference that resolves to nothing collapses the attempt
    let test_phon = LexPhonology {
        groups: vec![],
        lexis_types: vec![("words".to_string(), vec![phon("C")])],
    };
    assert!(test_phon.create_word("words").is_none());
}
