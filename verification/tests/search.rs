use unicode_util::index::{search, Index};
use unicode_util::query::QueryError;
use unicode_util::table::{build_table, Assoc};

fn assoc(name: &str, code: u32) -> Assoc {
    Assoc { name: name.to_string(), code }
}

fn two_letter_index() -> Index {
    let input = vec![
        assoc("LATIN SMALL LETTER A", 0x61),
        assoc("LATIN CAPITAL LETTER A", 0x41),
        assoc("GREEK SMALL LETTER ALPHA", 0x3B1),
    ];
    Index::build(&build_table(&input))
}

fn names(found: &[Assoc]) -> Vec<String> {
    found.iter().map(|a| a.name.clone()).collect()
}

#[test]
fn search_is_case_insensitive_and_sorted() {
    let ix = two_letter_index();
    for query in ["latin", "LATIN", "Latin"] {
        let found = search(&ix, query).unwrap();
        assert_eq!(
            names(&found),
            vec![
                "LATIN CAPITAL LETTER A".to_string(),
                "LATIN SMALL LETTER A".to_string()
            ]
        );
    }
}

#[test]
fn search_matches_substrings_anywhere() {
    let ix = two_letter_index();
    let found = search(&ix, "small letter").unwrap();
    assert_eq!(
        names(&found),
        vec![
            "GREEK SMALL LETTER ALPHA".to_string(),
            "LATIN SMALL LETTER A".to_string()
        ]
    );
    assert_eq!(found[0].code, 0x3B1);
    assert_eq!(found[1].code, 0x61);
}

#[test]
fn search_without_match_yields_empty_set() {
    let ix = two_letter_index();
    let found = search(&ix, "zzz").unwrap();
    assert!(found.is_empty());
}

#[test]
fn search_keeps_regex_meaning() {
    let ix = two_letter_index();
    let found = search(&ix, "(greek|capital)").unwrap();
    assert_eq!(
        names(&found),
        vec![
            "GREEK SMALL LETTER ALPHA".to_string(),
            "LATIN CAPITAL LETTER A".to_string()
        ]
    );
    // an unparenthesised alternation splits the whole wrapped pattern: the
    // query keeps its regular-expression meaning, it is not escaped
    let found = search(&ix, "greek|capital").unwrap();
    assert!(found.is_empty());
}

#[test]
fn equal_searches_yield_equal_results() {
    let ix = two_letter_index();
    let first = search(&ix, "latin").unwrap();
    let second = search(&ix, "latin").unwrap();
    assert_eq!(names(&first), names(&second));
    let codes: Vec<u32> = first.iter().map(|a| a.code).collect();
    let codes2: Vec<u32> = second.iter().map(|a| a.code).collect();
    assert_eq!(codes, codes2);
}

#[test]
fn search_reports_a_pattern_that_does_not_compile() {
    let ix = two_letter_index();
    let err = search(&ix, "(unclosed").unwrap_err();
    let QueryError::Compile { pattern, message } = err;
    assert_eq!(pattern, "(?i).*(unclosed.*".to_string());
    assert!(!message.is_empty());
}
