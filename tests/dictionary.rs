use search_lib::create::TermInfo;
use search_lib::dictionary::{build_dictionary, exact_search, get_string_offsets, search_terms, set_ids};
use search_lib::normalize::normalize_text;
use search_lib::search::{distance, find_terms_in_field, get_shortest_result, search_field, FieldDictionaries, FieldError, RequestSearchPart};

fn german_meanings() -> Vec<&'static str> {
    vec![
        "majestätischer Anblick (m)",
        "majestätisches Aussehen (n)",
        "Majestät (f)",
        "Wollen (n)",
        "Wille (m)",
        "Begeisterung (f)",
        "begeistern",
        "der test",
        "das ist ein guter Treffer",
        "welch",
        "guter nicht Treffer",
        "alle meine Words",
    ]
}

/// The distinct normalized values and their tokens, sorted.
fn sorted_terms() -> Vec<String> {
    let mut terms: Vec<String> = vec![];
    for value in german_meanings() {
        let normalized = normalize_text(value);
        if normalized.split(' ').count() > 1 {
            for token in normalized.split(' ') {
                terms.push(token.to_string());
            }
        }
        terms.push(normalized);
    }
    terms.sort();
    terms.dedup();
    terms
}

#[test]
fn normalize_strips_tags_punctuation_and_case() {
    assert_eq!(normalize_text("majestätischer Anblick (m)"), "majestätischer anblick");
    assert_eq!(normalize_text("Majestät (f)"), "majestät");
    assert_eq!(normalize_text("(1) weich"), "weich");
    assert_eq!(normalize_text("(12) weich"), "weich");
    assert_eq!(normalize_text("  a\t\tb  "), "a b");
    assert_eq!(normalize_text("\"Hello,\" {world}. It's-here…"), "hello world itshere");
    assert_eq!(normalize_text("(Klammer)"), "klammer");
}

#[test]
fn normalize_is_idempotent_on_samples() {
    for value in german_meanings().into_iter().chain(vec!["  A  (n) (f)  B ", "x ( y ) z", "Ä-Ö…Ü"]) {
        let once = normalize_text(value);
        assert_eq!(normalize_text(&once), once);
    }
}

#[test]
fn dictionary_round_trip() {
    let terms = sorted_terms();
    let dict = build_dictionary(&terms).unwrap();
    for (i, term) in terms.iter().enumerate() {
        assert_eq!(exact_search(&dict, term), Some(i as u64));
        let hits = search_terms(&dict, term, 0, false).unwrap();
        assert_eq!(hits, vec![(term.clone(), i as u64)]);
    }
    assert_eq!(exact_search(&dict, "nicht da"), None);
}

#[test]
fn dictionary_needs_sorted_unique_terms() {
    assert!(build_dictionary(&vec!["b".to_string(), "a".to_string()]).is_none());
    assert!(build_dictionary(&vec!["a".to_string(), "a".to_string()]).is_none());
    assert!(build_dictionary(&vec![]).is_some());
}

#[test]
fn autosuggest_prefix_terms() {
    let terms = sorted_terms();
    let dict = build_dictionary(&terms).unwrap();
    let part = RequestSearchPart {
        path: "meanings.ger[]".to_string(),
        terms: vec!["majes".to_string()],
        levenshtein_distance: None,
        starts_with: Some(true),
        first_char_exact_match: None,
        ignore_case: None,
        return_term: Some(true),
    };
    let mut found: Vec<String> = find_terms_in_field(&dict, &part).unwrap().into_iter().map(|(t, _)| t).collect();
    found.sort();
    assert_eq!(found, vec!["majestät", "majestätischer", "majestätischer anblick", "majestätisches", "majestätisches aussehen"]);
}

#[test]
fn fuzzy_terms_within_distance() {
    let terms = sorted_terms();
    let dict = build_dictionary(&terms).unwrap();
    let part = RequestSearchPart {
        path: "meanings.ger[]".to_string(),
        terms: vec!["Majestätischer".to_string()],
        levenshtein_distance: Some(1),
        starts_with: None,
        first_char_exact_match: Some(true),
        ignore_case: None,
        return_term: None,
    };
    let mut found: Vec<String> = find_terms_in_field(&dict, &part).unwrap().into_iter().map(|(t, _)| t).collect();
    found.sort();
    assert_eq!(found, vec!["majestätischer", "majestätisches"]);
    let none = RequestSearchPart { terms: vec![], ..part };
    assert!(find_terms_in_field(&dict, &none).is_none());
}

#[test]
fn edit_distance_values() {
    assert_eq!(distance("kitten", "sitting"), 3);
    assert_eq!(distance("", "abc"), 3);
    assert_eq!(distance("abc", ""), 3);
    assert_eq!(distance("majestät", "majestät"), 0);
    assert_eq!(distance("äb", "ab"), 1);
}

#[test]
fn shortest_result_is_first_minimum() {
    assert_eq!(get_shortest_result(&[3, 1, 2, 1]), 1);
    assert_eq!(get_shortest_result(&[]), 0);
    assert_eq!(get_shortest_result(&[5]), 0);
}

#[test]
fn term_ids_are_ranks() {
    let mut terms = vec![
        ("b".to_string(), TermInfo { id: 0, num_occurences: 2 }),
        ("a".to_string(), TermInfo { id: 0, num_occurences: 1 }),
        ("ä".to_string(), TermInfo { id: 0, num_occurences: 3 }),
        ("ab".to_string(), TermInfo { id: 0, num_occurences: 4 }),
    ];
    set_ids(&mut terms);
    let ids: Vec<u32> = terms.iter().map(|t| t.1.id).collect();
    assert_eq!(ids, vec![2, 0, 3, 1]);
    assert_eq!(terms[2].1.num_occurences, 3);
}

#[test]
fn string_offsets_of_term_lines() {
    let terms = vec!["ab".to_string(), "ä".to_string(), "".to_string()];
    assert_eq!(get_string_offsets(&terms), vec![0, 3, 6, 7]);
}

#[test]
fn field_search_known_and_missing_paths() {
    let terms = sorted_terms();
    let dicts = FieldDictionaries { paths: vec!["meanings.ger[]".to_string()], dicts: vec![build_dictionary(&terms).unwrap()] };
    let mut part = RequestSearchPart {
        path: "meanings.ger[]".to_string(),
        terms: vec!["zzzz".to_string()],
        levenshtein_distance: None,
        starts_with: None,
        first_char_exact_match: None,
        ignore_case: None,
        return_term: None,
    };
    assert_eq!(search_field(&dicts, &part).ok().unwrap(), vec![]);
    part.terms = vec!["Wille".to_string()];
    let found = search_field(&dicts, &part).ok().unwrap();
    assert_eq!(found.len(), 1);
    assert_eq!(found[0].0, "wille");
    part.path = "meanings.fra[]".to_string();
    assert_eq!(search_field(&dicts, &part).err(), Some(FieldError::MissingPath));
}

#[test]
fn normalize_is_not_idempotent_around_a_lone_dash() {
    let once = normalize_text("a - b");
    assert_eq!(once, "a  b");
    assert_eq!(normalize_text(&once), "a b");
}
