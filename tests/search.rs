use monk_core::json::JsonValue;
use monk_core::search::{fuzzy_search, search_folded, value_contains_string};
use monk_core::text::{contains_folded, eq_ignore_ascii_case};

fn s(t: &str) -> JsonValue {
    JsonValue::Str(t.to_string())
}

fn obj(fields: Vec<(&str, JsonValue)>) -> JsonValue {
    JsonValue::Object(fields.into_iter().map(|(k, v)| (k.to_string(), v)).collect())
}

fn sample() -> Vec<JsonValue> {
    vec![
        obj(vec![("name", obj(vec![("en", s("Alexander")), ("mn", s("Александр"))]))]),
        obj(vec![("name", obj(vec![("en", s("Bo"))])), ("tags", JsonValue::Array(vec![s("Tarot"), s("Stars")]))]),
        obj(vec![("alexander", s("key only")), ("age", JsonValue::Number("40".to_string()))]),
        JsonValue::Null,
        JsonValue::Bool(true),
    ]
}

#[test]
fn empty_query_returns_input_unchanged() {
    assert_eq!(fuzzy_search(sample(), ""), sample());
    assert_eq!(fuzzy_search(Vec::new(), ""), Vec::<JsonValue>::new());
}

#[test]
fn search_ignores_case_of_query_and_text() {
    assert_eq!(fuzzy_search(sample(), "ALEX"), vec![sample().remove(0)]);
    assert_eq!(fuzzy_search(sample(), "alex"), vec![sample().remove(0)]);
}

#[test]
fn search_reaches_into_arrays() {
    assert_eq!(fuzzy_search(sample(), "star"), vec![sample().remove(1)]);
}

#[test]
fn keys_numbers_and_literals_never_match() {
    assert!(fuzzy_search(sample(), "key only").len() == 1);
    assert!(fuzzy_search(sample(), "age").is_empty());
    assert!(fuzzy_search(sample(), "40").is_empty());
    assert!(fuzzy_search(sample(), "true").is_empty());
    assert!(fuzzy_search(sample(), "null").is_empty());
}

#[test]
fn search_finds_non_latin_text() {
    assert_eq!(fuzzy_search(sample(), "АЛЕК"), vec![sample().remove(0)]);
}

#[test]
fn search_twice_gives_same_result() {
    for q in ["o", "ALEX", "star", "zzz", "a"] {
        let once = fuzzy_search(sample(), q);
        let twice = fuzzy_search(fuzzy_search(sample(), q), q);
        assert_eq!(once, twice);
    }
}

#[test]
fn search_keeps_input_order() {
    let out = fuzzy_search(sample(), "a");
    assert_eq!(out, vec![sample().remove(0), sample().remove(1)]);
}

#[test]
fn folded_search_compares_as_given() {
    assert!(search_folded(sample(), "ALEX").is_empty());
    assert_eq!(search_folded(sample(), "alex").len(), 1);
}

#[test]
fn value_check_lowercases_the_text() {
    assert!(value_contains_string(&s("Hello World"), "o w"));
    assert!(!value_contains_string(&s("Hello World"), "O W"));
    assert!(value_contains_string(&JsonValue::Array(vec![JsonValue::Null, s("xYz")]), "xyz"));
    assert!(!value_contains_string(&JsonValue::Array(Vec::new()), ""));
    assert!(value_contains_string(&s(""), ""));
}

#[test]
fn substring_check() {
    assert!(contains_folded("alexander", "xan"));
    assert!(contains_folded("alexander", ""));
    assert!(contains_folded("abc", "abc"));
    assert!(!contains_folded("abc", "abcd"));
    assert!(!contains_folded("abc", "B"));
    assert!(contains_folded("aab", "ab"));
}

#[test]
fn ascii_case_blind_comparison() {
    assert!(eq_ignore_ascii_case("Monday", "mONDAY"));
    assert!(!eq_ignore_ascii_case("Monday", "Mondays"));
    assert!(!eq_ignore_ascii_case("Monday", "Tuesday"));
    assert!(eq_ignore_ascii_case("", ""));
    assert!(!eq_ignore_ascii_case("Ä", "ä"));
    assert!(!eq_ignore_ascii_case("[", "{"));
}
