//! Tests for the corpus loader and the shared text utilities.

use indus_corpus::catalog::build_catalog;
use indus_corpus::corpus::validate_corpus;
use indus_corpus::error::LoadError;
use indus_corpus::records::Artefact;
use indus_corpus::records::ArtefactFace;
use indus_corpus::records::FeatureDescriptor;
use indus_corpus::records::FeatureFile;
use indus_corpus::records::Grapheme;
use indus_corpus::text::base_name;
use indus_corpus::text::numeric_component;

fn sign(id: &str, parpola: &[&str], n_attrs: usize) -> FeatureFile {
    let mut features = Vec::new();
    let mut i = 0;
    while i < n_attrs {
        features.push(FeatureDescriptor {
            tag: "tines".to_string(),
            description: "number of tines".to_string(),
        });
        i += 1;
    }
    FeatureFile {
        id: id.to_string(),
        description: format!("sign {id}"),
        parpola_graphemes: parpola.iter().map(|c| c.to_string()).collect(),
        wells_graphemes: Vec::new(),
        mahadevan_graphemes: Vec::new(),
        features,
    }
}

fn face(id: &str, graphemes: Vec<Grapheme>) -> ArtefactFace {
    ArtefactFace { id: id.to_string(), description: "Unicorn IV seal".to_string(), graphemes }
}

fn occurrence(id: &str, values: &[u64]) -> Grapheme {
    Grapheme { id: id.to_string(), features: values.to_vec() }
}

fn catalog_with_p102() -> Vec<FeatureFile> {
    build_catalog(vec![("P102.json".to_string(), sign("P102", &["V207"], 2))])
        .expect("catalog should load")
}

#[test]
fn valid_corpus_loads_and_keeps_file_order() {
    let catalog = catalog_with_p102();
    let files: Vec<(String, Artefact)> = vec![
        (
            "m102.json".to_string(),
            vec![face("M-102A", vec![occurrence("P102", &[0, 1, 10, 4, 5])])],
        ),
        ("m103.json".to_string(), vec![face("M-103A", vec![])]),
    ];
    let artefacts = validate_corpus(files, &catalog).expect("corpus should load");
    assert_eq!(artefacts.len(), 2);
    assert_eq!(artefacts[0][0].id, "M-102A");
    assert_eq!(artefacts[1][0].id, "M-103A");
    assert_eq!(artefacts[0][0].graphemes[0].get_feature_count(), 5);
}

#[test]
fn face_number_differing_from_file_number_is_rejected() {
    let catalog = catalog_with_p102();
    let files: Vec<(String, Artefact)> =
        vec![("m102.json".to_string(), vec![face("M-103A", vec![])])];
    match validate_corpus(files, &catalog) {
        Err(LoadError::FaceIdMismatch { file_name, face_id, file_number, face_number }) => {
            assert_eq!(file_name, "m102");
            assert_eq!(face_id, "M-103A");
            assert_eq!(file_number, 102);
            assert_eq!(face_number, 103);
        },
        other => panic!("expected FaceIdMismatch, got {other:?}"),
    }
}

#[test]
fn reference_to_a_sign_absent_from_the_catalog_is_rejected() {
    let catalog = catalog_with_p102();
    let files: Vec<(String, Artefact)> = vec![(
        "m102.json".to_string(),
        vec![face("M-102A", vec![occurrence("P999", &[0, 1, 10])])],
    )];
    match validate_corpus(files, &catalog) {
        Err(LoadError::UnknownSign { sign_id }) => assert_eq!(sign_id, "P999"),
        other => panic!("expected UnknownSign, got {other:?}"),
    }
}

#[test]
fn wrong_attribute_value_count_is_rejected() {
    let catalog = catalog_with_p102();
    let files: Vec<(String, Artefact)> = vec![(
        "m102.json".to_string(),
        vec![face("M-102A", vec![occurrence("P102", &[0, 1, 10, 4])])],
    )];
    match validate_corpus(files, &catalog) {
        Err(LoadError::FeatureCountMismatch { sign_id, expected, actual, file_name }) => {
            assert_eq!(sign_id, "P102");
            assert_eq!(expected, 5);
            assert_eq!(actual, 4);
            assert_eq!(file_name, "m102");
        },
        other => panic!("expected FeatureCountMismatch, got {other:?}"),
    }
}

#[test]
fn file_name_without_a_number_is_rejected() {
    let catalog = catalog_with_p102();
    let files: Vec<(String, Artefact)> =
        vec![("seal.json".to_string(), vec![face("M-102A", vec![])])];
    match validate_corpus(files, &catalog) {
        Err(LoadError::ParseFailure { text }) => assert_eq!(text, "seal"),
        other => panic!("expected ParseFailure, got {other:?}"),
    }
}

#[test]
fn face_id_without_a_number_is_rejected() {
    let catalog = catalog_with_p102();
    let files: Vec<(String, Artefact)> =
        vec![("m102.json".to_string(), vec![face("M-A", vec![])])];
    match validate_corpus(files, &catalog) {
        Err(LoadError::ParseFailure { text }) => assert_eq!(text, "M-A"),
        other => panic!("expected ParseFailure, got {other:?}"),
    }
}

#[test]
fn overlong_number_is_rejected() {
    let catalog = catalog_with_p102();
    let files: Vec<(String, Artefact)> = vec![(
        "m99999999999999999999999.json".to_string(),
        vec![face("M-102A", vec![])],
    )];
    match validate_corpus(files, &catalog) {
        Err(LoadError::ParseFailure { text }) => assert_eq!(text, "m99999999999999999999999"),
        other => panic!("expected ParseFailure, got {other:?}"),
    }
}

#[test]
fn artefact_without_faces_needs_no_number() {
    let catalog = catalog_with_p102();
    let files: Vec<(String, Artefact)> = vec![("notes.json".to_string(), vec![])];
    let artefacts = validate_corpus(files, &catalog).expect("faceless artefact should pass");
    assert_eq!(artefacts.len(), 1);
    assert!(artefacts[0].is_empty());
}

#[test]
fn empty_corpus_loads() {
    let catalog = catalog_with_p102();
    let artefacts = validate_corpus(Vec::new(), &catalog).expect("empty corpus should load");
    assert!(artefacts.is_empty());
}

#[test]
fn loading_the_same_corpus_twice_gives_identical_artefacts() {
    let catalog = catalog_with_p102();
    let make = || -> Vec<(String, Artefact)> {
        vec![(
            "m102.json".to_string(),
            vec![face("M-102A", vec![occurrence("P102", &[7, 2, 0, 1, 3])])],
        )]
    };
    let a1 = validate_corpus(make(), &catalog).expect("first load");
    let a2 = validate_corpus(make(), &catalog).expect("second load");
    assert_eq!(a1.len(), a2.len());
    assert_eq!(a1[0][0].id, a2[0][0].id);
    assert_eq!(a1[0][0].graphemes[0].features, a2[0][0].graphemes[0].features);
}

#[test]
fn base_name_stops_at_the_first_dot() {
    assert_eq!(base_name("P102.json"), "P102");
    assert_eq!(base_name("m102.v2.json"), "m102");
    assert_eq!(base_name("README"), "README");
    assert_eq!(base_name(".hidden"), "");
    assert_eq!(base_name(""), "");
}

#[test]
fn numeric_component_reads_digits_in_order() {
    assert_eq!(numeric_component("m102"), Some(102));
    assert_eq!(numeric_component("M-103A"), Some(103));
    assert_eq!(numeric_component("a1b2c3"), Some(123));
    assert_eq!(numeric_component("007"), Some(7));
    assert_eq!(numeric_component("18446744073709551615"), Some(u64::MAX));
    assert_eq!(numeric_component("18446744073709551616"), None);
    assert_eq!(numeric_component("no digits"), None);
    assert_eq!(numeric_component(""), None);
}
