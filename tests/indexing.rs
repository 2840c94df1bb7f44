use std::collections::BTreeSet;

use search_lib::columns::{IndexIdToMultipleParentIndirect, IndexIdToParent};
use search_lib::create::{valid_pair_to_parallel_arrays, BoostIndexOptions, FulltextIndexOptions, ValIdPair};
use search_lib::dictionary::{build_dictionary, search_terms};
use search_lib::index::{create_boost_index, create_fulltext_index, parse_u32, FulltextIndex, IndexBuildError};
use search_lib::normalize::normalize_text;
use search_lib::search::{find_terms_in_field, RequestSearchPart};
use search_lib::walk::{walk_path, JsonValue};

static TEST_DATA: &str = r#"[
        {
            "commonness": 123456,
            "ent_seq": "99999"
        },
        {
            "commonness": 20,
            "kanji": [
                { "text": "偉容", "commonness": 0},
                { "text": "威容","commonness": 5}
            ],
            "kana": [
                {
                    "text": "いよう",
                    "romaji": "Iyou",
                    "commonness": 5
                }
            ],
            "meanings": {
                "eng" : ["dignity", "majestic appearance", "will test"],
                "ger": ["majestätischer Anblick (m)", "majestätisches Aussehen (n)", "Majestät (f)"]
            },
            "ent_seq": "1587680"
        },
        {
            "commonness": 20,
            "kanji": [
                { "text": "意欲", "commonness": 40},
                { "text": "意慾", "commonness": 0}
            ],
            "kana": [
                {
                    "text": "いよく",
                    "romaji": "Iyoku",
                    "commonness": 40
                }
            ],
            "meanings": {
                "eng" : ["will", "desire", "urge", "having a long torso"],
                "ger": ["Wollen (n)", "Wille (m)", "Begeisterung (f)", "begeistern"]
            },
            "ent_seq": "1587690"
        },
        {
            "id": 1234566,
            "gender": "male",
            "birthDate": "1960-08-19",
            "address": [
                {
                    "line": [
                        "nuts strees"
                    ]
                }
            ],
            "commonness": 500,
            "kanji": [
                { "text": "意慾", "commonness": 20}
            ],
            "field1" : [{"text":"awesome", "rank":1}],
            "kana": [
                {
                    "text": "いよく"
                }
            ],
            "meanings": {
                "eng" : ["test1"],
                "ger": ["der test", "das ist ein guter Treffer"]
            },
            "ent_seq": "1587700"
        },
        {
            "id": 123456,
            "gender": "female",
            "birthDate": "1950-08-19",
            "address": [
                {
                    "line": [
                        "71955 Ilene Brook"
                    ]
                }
            ],
            "commonness": 551,
            "kanji": [
                {
                    "text": "何の",
                    "commonness": 526
                }
            ],
            "field1" : [{"text":"awesome"}, {"text":"nixhit"}],
            "kana": [
                {
                    "text": "どの",
                    "romaji": "Dono",
                    "commonness": 25
                }
            ],
            "meanings": {
                "ger": ["welch", "guter nicht Treffer", "alle meine Words"]
            },
            "ent_seq": "1920240"
        },
        {
            "pos": [
                "adj-i"
            ],
            "commonness": 1,
            "misc": [],
            "kanji": [
                {
                    "text": "柔らかい",
                    "commonness": 57
                }
            ],
            "kana": [
                {
                    "text": "やわらかい",
                    "romaji": "Yawarakai",
                    "commonness": 30
                }
            ],
            "meanings": {
                "ger": [
                    "(1) weich",
                    "stopword"
                ]
            },
            "ent_seq": "1605630"
        }
    ]"#;

fn to_json(v: &serde_json::Value) -> JsonValue {
    match v {
        serde_json::Value::Null => JsonValue::Null,
        serde_json::Value::Bool(b) => JsonValue::Bool(*b),
        serde_json::Value::Number(n) => JsonValue::Number(n.to_string()),
        serde_json::Value::String(s) => JsonValue::Text(s.clone()),
        serde_json::Value::Array(a) => JsonValue::Array(a.iter().map(to_json).collect()),
        serde_json::Value::Object(o) => JsonValue::Object(o.iter().map(|(k, v)| (k.clone(), to_json(v))).collect()),
    }
}

fn docs() -> Vec<JsonValue> {
    let value: serde_json::Value = serde_json::from_str(TEST_DATA).unwrap();
    value.as_array().unwrap().iter().map(to_json).collect()
}

fn options(stopwords: Option<Vec<&str>>) -> FulltextIndexOptions {
    FulltextIndexOptions { tokenize: true, stopwords: stopwords.map(|s| s.iter().map(|w| w.to_string()).collect()) }
}

fn column(mut edges: Vec<ValIdPair>) -> IndexIdToMultipleParentIndirect {
    let arrays = valid_pair_to_parallel_arrays(&mut edges);
    IndexIdToMultipleParentIndirect::new(&arrays)
}

fn part(path: &str, term: &str, distance: Option<u32>, starts_with: Option<bool>) -> RequestSearchPart {
    RequestSearchPart {
        path: path.to_string(),
        terms: vec![term.to_string()],
        levenshtein_distance: distance,
        starts_with,
        first_char_exact_match: None,
        ignore_case: None,
        return_term: None,
    }
}

/// The anchors whose values under `path` match the search part.
fn anchors(docs: &Vec<JsonValue>, path: &str, opts: &FulltextIndexOptions, p: &RequestSearchPart) -> BTreeSet<u32> {
    let index: FulltextIndex = create_fulltext_index(docs, path, opts).ok().unwrap();
    let terms: Vec<String> = index.terms.iter().map(|t| t.0.clone()).collect();
    let dict = build_dictionary(&terms).unwrap();
    let mut ids: BTreeSet<u32> = find_terms_in_field(&dict, p).unwrap().iter().map(|t| t.1 as u32).collect();
    let tokens = column(index.token_edges.iter().map(|e| ValIdPair { valid: e.valid, parent_val_id: e.parent_val_id }).collect());
    for id in ids.clone() {
        if let Some(parents) = tokens.get_values(id as u64) {
            ids.extend(parents);
        }
    }
    let text = column(index.text_edges.iter().map(|e| ValIdPair { valid: e.valid, parent_val_id: e.parent_val_id }).collect());
    let mut current: BTreeSet<u32> = BTreeSet::new();
    for id in ids {
        if let Some(values) = text.get_values(id as u64) {
            current.extend(values);
        }
    }
    for level in index.level_edges.iter().rev() {
        let col = column(level.iter().map(|e| ValIdPair { valid: e.valid, parent_val_id: e.parent_val_id }).collect());
        let mut next = BTreeSet::new();
        for id in current {
            if let Some(parents) = col.get_values(id as u64) {
                next.extend(parents);
            }
        }
        current = next;
    }
    current
}

#[test]
fn walk_levels_and_texts() {
    let docs = docs();
    let walk = walk_path(&docs, "address[].line[]");
    assert_eq!(walk.levels, vec![vec![3, 4], vec![0, 1]]);
    assert_eq!(walk.texts, vec![("nuts strees".to_string(), 0), ("71955 Ilene Brook".to_string(), 1)]);
    let walk = walk_path(&docs, "ent_seq");
    assert_eq!(walk.levels.len(), 0);
    assert_eq!(walk.texts.len(), 6);
    assert_eq!(walk.texts[4], ("1920240".to_string(), 4));
    let walk = walk_path(&docs, "commonness");
    assert_eq!(walk.texts[0], ("123456".to_string(), 0));
}

#[test]
fn fulltext_index_terms_and_edges() {
    let docs = docs();
    let index = create_fulltext_index(&docs, "meanings.ger[]", &options(Some(vec!["stopword"]))).ok().unwrap();
    let terms: Vec<&str> = index.terms.iter().map(|t| t.0.as_str()).collect();
    let mut sorted = terms.clone();
    sorted.sort();
    assert_eq!(terms, sorted);
    assert!(terms.contains(&"majestät"));
    assert!(terms.contains(&"majestätischer anblick"));
    assert!(terms.contains(&"anblick"));
    assert!(!terms.contains(&"stopword"));
    for (i, t) in index.terms.iter().enumerate() {
        assert_eq!(t.1.id, i as u32);
    }
    let guter = index.terms.iter().find(|t| t.0 == "guter").unwrap();
    assert_eq!(guter.1.num_occurences, 2);
    // one text edge per value that is no stopword, one level of ger[] elements
    assert_eq!(index.text_edges.len(), 13);
    assert_eq!(index.level_edges.len(), 1);
    assert_eq!(index.level_edges[0].len(), 14);
    assert_eq!(index.level_edges[0][0].parent_val_id, 1);
}

#[test]
fn scenario_fuzzy_first_char() {
    let docs = docs();
    let mut p = part("meanings.ger[]", "majestätischer", Some(1), None);
    p.first_char_exact_match = Some(true);
    let hits = anchors(&docs, "meanings.ger[]", &options(Some(vec!["stopword"])), &p);
    assert_eq!(hits, BTreeSet::from([1]));
    assert_eq!(walk_path(&docs, "ent_seq").texts[1].0, "1587680");
}

#[test]
fn scenario_and_or() {
    let docs = docs();
    let ger = anchors(&docs, "meanings.ger[]", &options(Some(vec!["stopword"])), &part("meanings.ger[]", "majestät", None, None));
    let eng = anchors(&docs, "meanings.eng[]", &options(None), &part("meanings.eng[]", "majestic", None, None));
    let urge = anchors(&docs, "meanings.eng[]", &options(None), &part("meanings.eng[]", "urge", None, None));
    assert_eq!(ger.intersection(&eng).count(), 1);
    assert_eq!(ger.intersection(&urge).count(), 0);
    assert_eq!(ger.union(&urge).count(), 2);
}

#[test]
fn scenario_nested_arrays() {
    let docs = docs();
    let hits = anchors(&docs, "address[].line[]", &options(None), &part("address[].line[]", "brook", Some(1), None));
    assert_eq!(hits, BTreeSet::from([4]));
    assert_eq!(walk_path(&docs, "id").texts[1], ("123456".to_string(), 4));
}

#[test]
fn scenario_known_path_without_matches_is_empty() {
    let docs = docs();
    let hits = anchors(&docs, "meanings.ger[]", &options(None), &part("meanings.ger[]", "zzzzzz", None, None));
    assert!(hits.is_empty());
}

#[test]
fn scenario_autosuggest() {
    let docs = docs();
    let index = create_fulltext_index(&docs, "meanings.ger[]", &options(Some(vec!["stopword"]))).ok().unwrap();
    let terms: Vec<String> = index.terms.iter().map(|t| t.0.clone()).collect();
    let dict = build_dictionary(&terms).unwrap();
    let mut found: Vec<String> = search_terms(&dict, &normalize_text("majes"), 0, true).unwrap().into_iter().map(|t| t.0).collect();
    found.sort();
    assert_eq!(found, vec!["majestät", "majestätischer", "majestätischer anblick", "majestätisches", "majestätisches aussehen"]);
}

#[test]
fn boost_index_of_integers() {
    let docs = docs();
    let int = BoostIndexOptions { boost_type: "int".to_string() };
    let entries = create_boost_index(&docs, "commonness", &int).ok().unwrap();
    let pairs: Vec<(u32, u32)> = entries.iter().map(|e| (e.valid, e.value)).collect();
    assert_eq!(pairs, vec![(0, 123456), (1, 20), (2, 20), (3, 500), (4, 551), (5, 1)]);
    let err = create_boost_index(&docs, "ent_seq", &int).ok();
    assert!(err.is_some());
    let err = create_boost_index(&docs, "meanings.ger[]", &int).err().unwrap();
    assert_eq!(err, IndexBuildError::NotAnInteger(0));
    let other = BoostIndexOptions { boost_type: "float".to_string() };
    assert!(create_boost_index(&docs, "commonness", &other).ok().unwrap().is_empty());
}

#[test]
fn parse_u32_values() {
    assert_eq!(parse_u32("0"), Some(0));
    assert_eq!(parse_u32("+42"), Some(42));
    assert_eq!(parse_u32("4294967295"), Some(u32::MAX));
    assert_eq!(parse_u32("4294967296"), None);
    assert_eq!(parse_u32(""), None);
    assert_eq!(parse_u32("+"), None);
    assert_eq!(parse_u32("-1"), None);
    assert_eq!(parse_u32("12a"), None);
}

#[test]
fn token_values_for_terms() {
    let docs = docs();
    let index = create_fulltext_index(&docs, "meanings.ger[]", &options(None)).ok().unwrap();
    let terms: Vec<String> = index.terms.iter().map(|t| t.0.clone()).collect();
    let dict = build_dictionary(&terms).unwrap();
    let entries = vec![
        ("begeisterung".to_string(), Some(20)),
        ("Begeisterung".to_string(), Some(5)),
        ("unbekannt".to_string(), Some(3)),
        ("wille".to_string(), None),
    ];
    let values = search_lib::index::token_values(&dict, &entries);
    let id = terms.iter().position(|t| t == "begeisterung").unwrap() as u32;
    assert_eq!(values.len(), 1);
    assert_eq!((values[0].valid, values[0].value), (id, 20));
}

#[test]
fn append_values_of_ids() {
    let store = search_lib::columns::ParallelArrays { values1: vec![0, 0, 2], values2: vec![7, 8, 9] };
    let mut out = vec![1];
    search_lib::columns::append_values_for_ids(&store, &[2, 1, 0], &mut out);
    assert_eq!(out, vec![1, 9, 7, 8]);
}
