use unicode_util::index::{build_artifact, search, Index};
use unicode_util::table::{build_table, Assoc};

fn assoc(name: &str, code: u32) -> Assoc {
    Assoc { name: name.to_string(), code }
}

fn names_and_codes(t: &[Assoc]) -> Vec<(String, u32)> {
    t.iter().map(|a| (a.name.clone(), a.code)).collect()
}

#[test]
fn build_table_sorts_by_name() {
    let input = vec![assoc("DELTA", 3), assoc("ALPHA", 1), assoc("CHARLIE", 2)];
    let t = build_table(&input);
    assert_eq!(
        names_and_codes(&t),
        vec![
            ("ALPHA".to_string(), 1),
            ("CHARLIE".to_string(), 2),
            ("DELTA".to_string(), 3)
        ]
    );
}

#[test]
fn build_table_first_occurrence_wins() {
    let input = vec![assoc("A", 1), assoc("A", 2)];
    let t = build_table(&input);
    assert_eq!(names_and_codes(&t), vec![("A".to_string(), 1)]);

    let ix = Index::build(&t);
    let found = search(&ix, "A").unwrap();
    assert_eq!(names_and_codes(&found), vec![("A".to_string(), 1)]);
}

#[test]
fn build_table_accepts_empty_input() {
    let input: Vec<Assoc> = Vec::new();
    let t = build_table(&input);
    assert!(t.is_empty());
    let ix = Index::build(&t);
    let found = search(&ix, "anything").unwrap();
    assert!(found.is_empty());
}

#[test]
fn building_twice_yields_identical_artifacts() {
    let input = vec![
        assoc("LATIN SMALL LETTER A", 0x61),
        assoc("LATIN CAPITAL LETTER A", 0x41),
        assoc("GREEK SMALL LETTER ALPHA", 0x3B1),
        assoc("LATIN SMALL LETTER A", 0x1000),
    ];
    let b1 = build_artifact(&build_table(&input));
    let b2 = build_artifact(&build_table(&input));
    assert_eq!(b1, b2);
}

#[test]
fn artifact_round_trips_through_load() {
    let input = vec![assoc("LATIN SMALL LETTER A", 0x61), assoc("BULLET", 0x2022)];
    let t = build_table(&input);
    let bytes = build_artifact(&t);
    let ix = Index::from_artifact(bytes).unwrap();
    let found = search(&ix, "").unwrap();
    assert_eq!(
        names_and_codes(&found),
        vec![
            ("BULLET".to_string(), 0x2022),
            ("LATIN SMALL LETTER A".to_string(), 0x61)
        ]
    );
}

#[test]
fn garbage_bytes_are_refused() {
    let r = Index::from_artifact(vec![1, 2, 3, 4]);
    assert!(r.is_err());
}
