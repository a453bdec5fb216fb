//! Tests for the feature catalog loader.

use indus_corpus::catalog::build_catalog;
use indus_corpus::catalog::find_sign;
use indus_corpus::error::LoadError;
use indus_corpus::records::FeatureDescriptor;
use indus_corpus::records::FeatureFile;
use indus_corpus::text::check_code;

fn descriptor(tag: &str, description: &str) -> FeatureDescriptor {
    FeatureDescriptor { tag: tag.to_string(), description: description.to_string() }
}

fn sign(id: &str, parpola: &[&str], wells: &[&str], n_attrs: usize) -> FeatureFile {
    let mut features = Vec::new();
    let mut i = 0;
    while i < n_attrs {
        features.push(descriptor("tines", "number of tines on the pitchfork head"));
        i += 1;
    }
    FeatureFile {
        id: id.to_string(),
        description: format!("sign {id}"),
        parpola_graphemes: parpola.iter().map(|c| c.to_string()).collect(),
        wells_graphemes: wells.iter().map(|c| c.to_string()).collect(),
        mahadevan_graphemes: Vec::new(),
        features,
    }
}

fn entry(file_name: &str, record: FeatureFile) -> (String, FeatureFile) {
    (file_name.to_string(), record)
}

#[test]
fn single_sign_with_two_attributes_loads() {
    let entries = vec![entry("P102.json", sign("P102", &["V207"], &["W155"], 2))];
    let catalog = build_catalog(entries).expect("catalog should load");
    assert_eq!(catalog.len(), 1);
    let found = find_sign(&catalog, &"P102".to_string()).expect("P102 should be in the catalog");
    assert_eq!(found.get_feature_count(), 2);
    assert_eq!(found.id, "P102");
}

#[test]
fn internal_id_differing_from_file_name_is_rejected() {
    let entries = vec![entry("P102.json", sign("P103", &[], &[], 0))];
    match build_catalog(entries) {
        Err(LoadError::IdentifierMismatch { file_id, record_id }) => {
            assert_eq!(file_id, "P102");
            assert_eq!(record_id, "P103");
        },
        other => panic!("expected IdentifierMismatch, got {other:?}"),
    }
}

#[test]
fn allograph_code_repeated_across_files_is_rejected() {
    let entries = vec![
        entry("P102.json", sign("P102", &["V207"], &[], 0)),
        entry("P200.json", sign("P200", &["V207"], &[], 1)),
    ];
    match build_catalog(entries) {
        Err(LoadError::DuplicateCode { code }) => assert_eq!(code, "V207"),
        other => panic!("expected DuplicateCode, got {other:?}"),
    }
}

#[test]
fn allograph_code_repeated_within_one_file_is_rejected() {
    let entries = vec![entry("P102.json", sign("P102", &["V207", "V207"], &[], 0))];
    match build_catalog(entries) {
        Err(LoadError::DuplicateCode { code }) => assert_eq!(code, "V207"),
        other => panic!("expected DuplicateCode, got {other:?}"),
    }
}

#[test]
fn malformed_parpola_code_is_rejected() {
    let entries = vec![entry("P102.json", sign("P102", &["X207"], &[], 0))];
    match build_catalog(entries) {
        Err(LoadError::MalformedCode { code, sign_id }) => {
            assert_eq!(code, "X207");
            assert_eq!(sign_id, "P102");
        },
        other => panic!("expected MalformedCode, got {other:?}"),
    }
}

#[test]
fn short_code_is_rejected() {
    let entries = vec![entry("P102.json", sign("P102", &["V20"], &[], 0))];
    match build_catalog(entries) {
        Err(LoadError::MalformedCode { code, .. }) => assert_eq!(code, "V20"),
        other => panic!("expected MalformedCode, got {other:?}"),
    }
}

#[test]
fn parpola_code_in_wells_list_is_rejected() {
    let entries = vec![entry("P102.json", sign("P102", &[], &["V207"], 0))];
    match build_catalog(entries) {
        Err(LoadError::MalformedCode { code, sign_id }) => {
            assert_eq!(code, "V207");
            assert_eq!(sign_id, "P102");
        },
        other => panic!("expected MalformedCode, got {other:?}"),
    }
}

#[test]
fn same_code_under_both_schemes_is_allowed() {
    let entries = vec![
        entry("P102.json", sign("P102", &["V207"], &["W207"], 0)),
        entry("P103.json", sign("P103", &["V208"], &["W208"], 0)),
    ];
    let catalog = build_catalog(entries).expect("catalog should load");
    assert_eq!(catalog.len(), 2);
}

#[test]
fn template_file_is_skipped() {
    let entries = vec![
        entry("default_features.json", sign("anything", &["not-a-code"], &[], 0)),
        entry("P102.json", sign("P102", &["V207"], &[], 1)),
    ];
    let catalog = build_catalog(entries).expect("catalog should load");
    assert_eq!(catalog.len(), 1);
    assert_eq!(catalog[0].id, "P102");
    assert!(find_sign(&catalog, &"anything".to_string()).is_none());
}

#[test]
fn empty_directory_gives_empty_catalog() {
    let catalog = build_catalog(Vec::new()).expect("empty catalog should load");
    assert!(catalog.is_empty());
    assert!(find_sign(&catalog, &"P102".to_string()).is_none());
}

#[test]
fn loading_the_same_records_twice_gives_identical_catalogs() {
    let make = || {
        vec![
            entry("P102.json", sign("P102", &["V207"], &["W155"], 2)),
            entry("P103.json", sign("P103", &["V208"], &[], 0)),
        ]
    };
    let c1 = build_catalog(make()).expect("first load");
    let c2 = build_catalog(make()).expect("second load");
    assert_eq!(c1.len(), c2.len());
    for (a, b) in c1.iter().zip(c2.iter()) {
        assert_eq!(a.id, b.id);
        assert_eq!(a.get_feature_count(), b.get_feature_count());
        assert_eq!(a.parpola_graphemes, b.parpola_graphemes);
        assert_eq!(a.wells_graphemes, b.wells_graphemes);
    }
}

#[test]
fn reordering_the_directory_keeps_every_lookup() {
    let e1 = vec![
        entry("P102.json", sign("P102", &["V207"], &[], 2)),
        entry("P103.json", sign("P103", &["V208"], &[], 1)),
    ];
    let e2 = vec![
        entry("P103.json", sign("P103", &["V208"], &[], 1)),
        entry("P102.json", sign("P102", &["V207"], &[], 2)),
    ];
    let c1 = build_catalog(e1).expect("first order");
    let c2 = build_catalog(e2).expect("second order");
    for id in ["P102", "P103", "P999"] {
        let f1 = find_sign(&c1, &id.to_string());
        let f2 = find_sign(&c2, &id.to_string());
        match (f1, f2) {
            (Some(a), Some(b)) => {
                assert_eq!(a.id, b.id);
                assert_eq!(a.get_feature_count(), b.get_feature_count());
            },
            (None, None) => {},
            _ => panic!("lookup of {id} differs between the two orders"),
        }
    }
}

#[test]
fn check_code_accepts_exactly_the_pattern() {
    assert!(check_code(&"V207".to_string(), 'V'));
    assert!(check_code(&"W000".to_string(), 'W'));
    assert!(!check_code(&"V207".to_string(), 'W'));
    assert!(!check_code(&"v207".to_string(), 'V'));
    assert!(!check_code(&"V2070".to_string(), 'V'));
    assert!(!check_code(&"V20".to_string(), 'V'));
    assert!(!check_code(&"V2a7".to_string(), 'V'));
    assert!(!check_code(&"".to_string(), 'V'));
}
