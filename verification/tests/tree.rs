use kirum::kirum::{LanguageTree, Lexis};
use kirum::lemma::Lemma;
use kirum::lexcreate::{LexPhonology, PhoneticReference};
use kirum::matching::{EqualValue, LexisMatch, Value, ValueMatch};
use kirum::metadata::MetadataMap;
use kirum::transforms::{
    GlobalTransform, LetterArrayValues, LetterPlaceType, LetterValues, Transform, TransformFunc,
};

fn create_basic_words() -> LanguageTree {
    let parent = Lexis {
        id: "parent".to_string(),
        word: Some(Lemma::new("wrh")),
        language: "gauntlet".to_string(),
        historical_metadata: MetadataMap::from_pairs(vec![("test".to_string(), "t".to_string())]),
        lexis_type: "root".to_string(),
        ..Default::default()
    };
    let derivative_one = Lexis {
        id: "derivative_one".to_string(),
        word: None,
        historical_metadata: MetadataMap::from_pairs(vec![(
            "derivative".to_string(),
            "one".to_string(),
        )]),
        lexis_type: "word".to_string(),
        ..parent.clone()
    };
    let derivative_two = Lexis {
        id: "derivative_two".to_string(),
        word: None,
        lexis_type: "word".to_string(),
        ..parent.clone()
    };

    let transform_one = Transform {
        name: "first_transform".to_string(),
        lex_match: None,
        transforms: vec![TransformFunc::LetterArray {
            letters: vec![
                LetterArrayValues::Place(0),
                LetterArrayValues::Char("a".to_string()),
                LetterArrayValues::Place(1),
                LetterArrayValues::Place(2),
            ],
        }],
    };

    let transform_two = Transform {
        name: "second_transform".to_string(),
        lex_match: None,
        transforms: vec![TransformFunc::Prefix { value: Lemma::new("au") }],
    };

    // a basic three-word graph, two words auto-generated
    let mut tree = LanguageTree::new();
    tree.connect_etymology(derivative_one.clone(), parent, vec![transform_one], None);
    tree.connect_etymology(derivative_two, derivative_one, vec![transform_two], None);

    tree
}

fn create_basic_with_globals() -> LanguageTree {
    let mut test_tree = create_basic_words();
    let transforms = vec![GlobalTransform {
        lex_match: LexisMatch {
            id: None,
            word: None,
            language: Some(Value::Match(ValueMatch::Equals(EqualValue::Text(
                "New Gauntlet".to_string(),
            )))),
            ..Default::default()
        },
        etymon_match: Some(LexisMatch {
            language: Some(Value::Match(ValueMatch::Equals(EqualValue::Text(
                "gauntlet".to_string(),
            )))),
            ..Default::default()
        }),
        transforms: vec![TransformFunc::Prefix { value: Lemma::new("ka") }],
    }];
    test_tree.global_transforms = Some(transforms);

    test_tree
}

#[test]
fn basic_global_transforms() {
    let mut test_tree = create_basic_with_globals();

    let derivative_lang = Lexis {
        id: "derivative_lang".to_string(),
        word: None,
        lexis_type: "word".to_string(),
        language: "New Gauntlet".to_string(),
        ..Default::default()
    };

    test_tree.connect_etymology_id(
        derivative_lang,
        "derivative_two".to_string(),
        vec![Transform {
            name: "test".to_string(),
            lex_match: None,
            transforms: vec![TransformFunc::Prefix { value: Lemma::new("sur") }],
        }],
        None,
    );

    test_tree.compute_lexicon().unwrap();
    let test_word = test_tree.to_vec_etymons(|f| f.language == "New Gauntlet".to_string());
    assert_eq!(test_word[0].0.word.clone().unwrap(), Lemma::new("kasurauwarh"))
}

#[test]
fn test_metadata_derives() {
    let mut test_tree = create_basic_with_globals();
    test_tree.compute_lexicon().unwrap();

    let final_dict = test_tree.to_vec();
    for word in final_dict {
        assert_eq!(Some(&"t".to_string()), word.historical_metadata.get("test"))
    }
}

#[test]
fn metadata_multiple_object() {
    let mut test_tree = create_basic_with_globals();
    test_tree.compute_lexicon().unwrap();

    let final_dict = test_tree.to_vec();
    for word in final_dict {
        match word.id.as_str() {
            "parent" => {
                assert_eq!(
                    MetadataMap::from_pairs(vec![("test".to_string(), "t".to_string())]),
                    word.historical_metadata
                )
            },
            "derivative_one" => {
                assert_eq!(
                    MetadataMap::from_pairs(vec![
                        ("test".to_string(), "t".to_string()),
                        ("derivative".to_string(), "one".to_string()),
                    ]),
                    word.historical_metadata
                )
            },
            "derivative_two" => {
                assert_eq!(
                    MetadataMap::from_pairs(vec![
                        ("test".to_string(), "t".to_string()),
                        ("derivative".to_string(), "one".to_string()),
                    ]),
                    word.historical_metadata
                )
            },
            _ => {
                assert!(false, "bad map value in test")
            },
        }
    }
}

#[test]
fn metadata_out_of_order() {
    let parent = Lexis {
        id: "parent".to_string(),
        word: Some(Lemma::new("wrh")),
        language: "gauntlet".to_string(),
        historical_metadata: MetadataMap::from_pairs(vec![("test".to_string(), "t".to_string())]),
        lexis_type: "root".to_string(),
        ..Default::default()
    };
    let derivative_one = Lexis {
        id: "derivative_one".to_string(),
        word: None,
        historical_metadata: MetadataMap::from_pairs(vec![(
            "derivative".to_string(),
            "one".to_string(),
        )]),
        lexis_type: "word".to_string(),
        ..parent.clone()
    };
    let derivative_two = Lexis {
        id: "derivative_two".to_string(),
        word: None,
        lexis_type: "word".to_string(),
        ..parent.clone()
    };

    let transform_one = Transform {
        name: "first_transform".to_string(),
        lex_match: None,
        transforms: vec![TransformFunc::LetterArray {
            letters: vec![
                LetterArrayValues::Place(0),
                LetterArrayValues::Char("a".to_string()),
                LetterArrayValues::Place(1),
                LetterArrayValues::Place(2),
            ],
        }],
    };

    let transform_two = Transform {
        name: "second_transform".to_string(),
        lex_match: None,
        transforms: vec![TransformFunc::Prefix { value: Lemma::new("au") }],
    };

    let mut tree = LanguageTree::new();

    tree.add_lexis(derivative_one.clone());
    tree.connect_etymology_id(derivative_two, derivative_one.id.clone(), vec![transform_two], None);
    tree.connect_etymology(derivative_one, parent, vec![transform_one], None);

    tree.compute_lexicon().unwrap();

    let final_dict = tree.to_vec();
    for word in final_dict {
        assert_eq!(Some(&"t".to_string()), word.historical_metadata.get("test"))
    }
}

#[test]
fn global_with_local_transform() {
    let mut test_tree = create_basic_with_globals();

    let derivative_lang = Lexis {
        id: "derivative_lang".to_string(),
        word: None,
        lexis_type: "word".to_string(),
        language: "New Gauntlet".to_string(),
        ..Default::default()
    };

    test_tree.connect_etymology_id(
        derivative_lang,
        "derivative_two".to_string(),
        vec![Transform {
            name: "test".to_string(),
            lex_match: None,
            transforms: vec![TransformFunc::Loanword],
        }],
        None,
    );

    test_tree.compute_lexicon().unwrap();
    let test_word = test_tree.to_vec_etymons(|f| f.language == "New Gauntlet".to_string());
    assert_eq!(test_word[0].0.word.clone().unwrap(), Lemma::new("kaauwarh"))
}

#[test]
fn global_with_downstream_transform() {
    let mut test_tree = create_basic_with_globals();
    let derivative_lang = Lexis {
        id: "derivative_lang".to_string(),
        word: None,
        lexis_type: "word".to_string(),
        language: "New Gauntlet".to_string(),
        ..Default::default()
    };

    let derivative_new_word = Lexis {
        id: "derivative_word".to_string(),
        word: None,
        lexis_type: "word".to_string(),
        language: "New Gauntlet".to_string(),
        ..Default::default()
    };

    test_tree.connect_etymology_id(
        derivative_lang,
        "derivative_two".to_string(),
        vec![Transform {
            name: "test".to_string(),
            lex_match: None,
            transforms: vec![TransformFunc::Loanword],
        }],
        None,
    );

    test_tree.connect_etymology_id(
        derivative_new_word,
        "derivative_lang".to_string(),
        vec![Transform {
            name: "test_downstream".to_string(),
            lex_match: None,
            transforms: vec![TransformFunc::Postfix { value: Lemma::new("`sh") }],
        }],
        None,
    );

    test_tree.compute_lexicon().unwrap();
    let test_words = test_tree.to_vec_etymons(|f| f.language == "New Gauntlet".to_string());
    assert_eq!(
        test_words.iter().find(|e| e.0.word == Some(Lemma::new("kaauwarh"))).is_some(),
        true
    );

    assert_eq!(
        test_words.iter().find(|e| e.0.word == Some(Lemma::new("kaauwarh`sh"))).is_some(),
        true
    );
}

#[test]
fn test_word_create() {
    let test_phon_rules = LexPhonology {
        groups: vec![
            (
                'C',
                vec![
                    PhoneticReference::parse("h").unwrap(),
                    PhoneticReference::parse("r").unwrap(),
                    PhoneticReference::parse("x").unwrap(),
                    PhoneticReference::parse("k").unwrap(),
                ],
            ),
            (
                'V',
                vec![
                    PhoneticReference::parse("u").unwrap(),
                    PhoneticReference::parse("i").unwrap(),
                ],
            ),
        ],
        lexis_types: vec![("root".to_string(), vec![PhoneticReference::parse("CCC").unwrap()])],
    };
    let parent = Lexis {
        id: "parent".to_string(),
        word: None,
        language: "gauntlet".to_string(),
        lexis_type: "root".to_string(),
        word_create: Some("root".to_string()),
        ..Default::default()
    };
    let derivative_one = Lexis {
        id: "derivative_one".to_string(),
        word: None,
        lexis_type: "word".to_string(),
        word_create: None,
        ..parent.clone()
    };
    let derivative_two = Lexis {
        id: "derivative_two".to_string(),
        word: None,
        lexis_type: "word".to_string(),
        word_create: None,
        ..parent.clone()
    };

    let transform_one = Transform {
        name: "first_transform".to_string(),
        lex_match: None,
        transforms: vec![TransformFunc::LetterArray {
            letters: vec![
                LetterArrayValues::Place(0),
                LetterArrayValues::Char("a".to_string()),
                LetterArrayValues::Place(1),
                LetterArrayValues::Place(2),
            ],
        }],
    };

    let transform_two = Transform {
        name: "second_transform".to_string(),
        lex_match: None,
        transforms: vec![TransformFunc::Prefix { value: Lemma::new("au") }],
    };
    let mut tree = LanguageTree::new();
    tree.connect_etymology(derivative_one.clone(), parent, vec![transform_one], None);
    tree.connect_etymology(derivative_two, derivative_one, vec![transform_two], None);
    tree.word_creator_phonology = test_phon_rules;
    tree.compute_lexicon().unwrap();

    let gen_parent = tree.get_by_id("parent").unwrap().word.unwrap().chars();
    let der_two = tree.get_by_id("derivative_two");
    println!("All words: {:?}", tree.to_vec());
    println!(
        "updated string is: {}",
        der_two.clone().unwrap().word.unwrap().string_without_sep()
    );

    let reconstructed = format!("au{}a{}{}", gen_parent[0], gen_parent[1], gen_parent[2]);
    assert_eq!(der_two.unwrap().word.unwrap().string_without_sep(), reconstructed);
}

#[test]
fn test_basic_tree() {
    let mut tree = create_basic_words();

    tree.compute_lexicon().unwrap();

    let out = tree.to_vec();
    println!("got words: {:?}", out);
    let out_words: Vec<String> =
        out.into_iter().map(|l| l.word.unwrap_or_default().string_without_sep()).collect();

    assert_eq!(out_words.contains(&"wrh".to_string()), true);
    assert_eq!(out_words.contains(&"warh".to_string()), true);
    assert_eq!(out_words.contains(&"auwarh".to_string()), true);
}

#[test]
fn test_agglutination() {
    let mut tree = create_basic_words();
    let parent_part = Lexis {
        id: "parent_part".to_string(),
        word: Some(Lemma::new("maark")),
        language: "gauntlet".to_string(),
        lexis_type: "word".to_string(),
        ..Default::default()
    };
    let combined_word = Lexis { id: "combined_words".to_string(), word: None, ..parent_part.clone() };

    let agg_transform = vec![Transform {
        name: "agg_transform".to_string(),
        lex_match: None,
        transforms: vec![TransformFunc::Loanword],
    }];

    tree.connect_etymology(combined_word.clone(), parent_part, agg_transform.clone(), Some(0));
    tree.connect_etymology_id(combined_word, "derivative_one".to_string(), agg_transform, Some(1));

    tree.compute_lexicon().unwrap();
    let out = tree.to_vec();
    println!("got words: {:?}", out);
    let out_words: Vec<String> =
        out.into_iter().map(|l| l.word.unwrap_or_default().string_without_sep()).collect();

    assert_eq!(out_words.contains(&"maarkwarh".to_string()), true);
}

#[test]
fn test_lexis_overwrite() {
    let proto_word = Lexis {
        id: "proto_word".to_string(),
        word: Some(Lemma::new("vrh")),
        language: "proto-gauntlet".to_string(),
        lexis_type: "stem".to_string(),
        ..Default::default()
    };
    let root = Lexis {
        id: "parent".to_string(),
        word: Some(Lemma::new("wrh")),
        language: "gauntlet".to_string(),
        lexis_type: "root".to_string(),
        ..Default::default()
    };

    let proto_transform = Transform {
        name: "proto-transform".to_string(),
        lex_match: None,
        transforms: vec![TransformFunc::LetterReplace {
            letter: LetterValues { old_letter: "w".to_string(), new_letter: "v".to_string() },
            replace: LetterPlaceType::All,
        }],
    };

    let mut tree = create_basic_words();
    tree.connect_etymology(root, proto_word, vec![proto_transform], None);

    tree.compute_lexicon().unwrap();
    let out = tree.to_vec();
    let out_words: Vec<String> =
        out.into_iter().map(|l| l.word.unwrap_or_default().string_without_sep()).collect();

    println!("{}", tree.graphviz());

    assert_eq!(out_words.contains(&"vrh".to_string()), true);
    assert_eq!(out_words.contains(&"varh".to_string()), true);
    assert_eq!(out_words.contains(&"auvarh".to_string()), true);
}

#[test]
fn test_idempotent() {
    let mut tree = create_basic_words();

    tree.compute_lexicon().unwrap();
    // run again
    tree.compute_lexicon().unwrap();

    let out = tree.to_vec();
    println!("got words: {:?}", out);
    let out_words: Vec<String> =
        out.into_iter().map(|l| l.word.unwrap_or_default().string_without_sep()).collect();

    assert_eq!(out_words.contains(&"wrh".to_string()), true);
    assert_eq!(out_words.contains(&"warh".to_string()), true);
    assert_eq!(out_words.contains(&"auwarh".to_string()), true);
}

#[test]
fn test_words_without_etymology() {
    let parent = Lexis {
        id: "isolate_one".to_string(),
        word: Some(Lemma::new("tree")),
        language: "gauntlet".to_string(),
        lexis_type: "word".to_string(),
        ..Default::default()
    };
    let lex_one = Lexis {
        id: "isolate_two".to_string(),
        word: Some(Lemma::new("frost")),
        lexis_type: "word".to_string(),
        ..parent.clone()
    };
    let lex_two = Lexis {
        id: "isolate_three".to_string(),
        word: Some(Lemma::new("rain")),
        lexis_type: "word".to_string(),
        ..parent.clone()
    };

    let mut tree = LanguageTree::new();
    tree.add_lexis(parent);
    tree.add_lexis(lex_one);
    tree.add_lexis(lex_two);
    tree.compute_lexicon().unwrap();

    let out = tree.to_vec();

    let out_words: Vec<String> =
        out.into_iter().map(|l| l.word.unwrap_or_default().string_without_sep()).collect();

    assert_eq!(out_words.contains(&"tree".to_string()), true);
    assert_eq!(out_words.contains(&"frost".to_string()), true);
    assert_eq!(out_words.contains(&"rain".to_string()), true);
}

#[test]
fn test_daughter_basic() {
    let mut tree = create_basic_words();

    let daughter_transforms = vec![Transform {
        name: "test_transform_1".to_string(),
        lex_match: Some(LexisMatch {
            id: None,
            word: None,
            language: None,
            pos: None,
            lexis_type: Some(Value::Match(ValueMatch::Equals(EqualValue::Text(
                "word".to_string(),
            )))),
            archaic: None,
            tags: None,
        }),
        transforms: vec![
            TransformFunc::LetterReplace {
                letter: LetterValues { old_letter: "w".to_string(), new_letter: "k".to_string() },
                replace: LetterPlaceType::All,
            },
            TransformFunc::LetterRemove {
                letter: "u".to_string(),
                position: LetterPlaceType::All,
            },
        ],
    }];

    tree.compute_lexicon().unwrap();

    tree.generate_daughter_language(
        "High Gauntlet".to_string(),
        daughter_transforms,
        |lex| lex.language == "gauntlet".to_string(),
        |lex| Lexis { tags: vec!["tested".to_string()], ..lex.clone() },
    )
    .unwrap();

    let out = tree.to_vec();
    println!("got words: {:?}", out);
    let out_words: Vec<String> = out
        .into_iter()
        .filter(|lex| lex.tags.len() > 0)
        .map(|l| l.word.unwrap_or_default().string_without_sep())
        .collect();

    assert_eq!(out_words.contains(&"karh".to_string()), true);
    assert_eq!(out_words.contains(&"akarh".to_string()), true);
}

#[test]
fn test_to_vec_sorted_by_word() {
    let mut tree = LanguageTree::new();
    for (id, w) in [("a", "rain"), ("b", "frost"), ("c", "tree")] {
        tree.add_lexis(Lexis {
            id: id.to_string(),
            word: Some(Lemma::new(w)),
            ..Default::default()
        });
    }
    let words: Vec<String> =
        tree.to_vec().into_iter().map(|l| l.word.unwrap().string_without_sep()).collect();
    assert_eq!(words, vec!["frost".to_string(), "rain".to_string(), "tree".to_string()]);
}

#[test]
fn test_connect_etymology_id_missing() {
    let mut tree = create_basic_words();
    let orphan = Lexis { id: "orphan".to_string(), ..Default::default() };
    let linked = tree.connect_etymology_id(orphan, "no_such_id".to_string(), vec![], None);
    assert!(!linked);
}

#[test]
fn test_walk_create_derivatives() {
    let mut tree = create_basic_words();
    tree.compute_lexicon().unwrap();
    let before = tree.len();
    tree.walk_create_derivatives(|lex| {
        if lex.id == "parent" {
            let mut der = lex.clone();
            der.id = "parent-walked".to_string();
            (Some(der), None)
        } else {
            (None, None)
        }
    });
    assert_eq!(tree.len(), before + 1);
    assert!(tree.get_by_id("parent-walked").is_some());
}
