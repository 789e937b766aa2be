//! The fingerprints of persisted generations.
use octasoma::generation_fingerprint::{
    validate_value, GenerationFingerprint, MAX_FINGERPRINT_BYTES, SCIRUST_REVISION,
};

#[test]
fn canonical_fingerprint_is_bound_to_reviewed_scirust_revision() {
    let fingerprint = GenerationFingerprint::canonical("embed:v1", "jl:42", "f32", "simhash:256")
        .with_calibration("rcps:sha256:abc");
    fingerprint.validate().unwrap();
    assert_eq!(fingerprint.scirust_revision, SCIRUST_REVISION);
}

#[test]
fn multiline_and_empty_fields_are_rejected() {
    let mut fingerprint =
        GenerationFingerprint::canonical("embed:v1", "jl:42", "f32", "simhash:256");
    fingerprint.embedding.clear();
    assert!(fingerprint.validate().is_err());
    fingerprint.embedding = "model\nforged=1".into();
    assert!(fingerprint.validate().is_err());
}

#[test]
fn every_field_counts() {
    let a = GenerationFingerprint::canonical("e", "p", "q", "i");
    assert!(a.same_as(&a.clone()));
    assert!(!a.same_as(&GenerationFingerprint::canonical("e2", "p", "q", "i")));
    assert!(!a.same_as(&GenerationFingerprint::canonical("e", "p2", "q", "i")));
    assert!(!a.same_as(&GenerationFingerprint::canonical("e", "p", "q2", "i")));
    assert!(!a.same_as(&GenerationFingerprint::canonical("e", "p", "q", "i2")));
    assert!(!a.same_as(&a.clone().with_calibration("c")));
}

#[test]
fn a_value_has_a_longest_length() {
    let longest = "x".repeat(MAX_FINGERPRINT_BYTES);
    assert!(validate_value("embedding", &longest).is_ok());
    let longer = "x".repeat(MAX_FINGERPRINT_BYTES + 1);
    assert!(validate_value("embedding", &longer).is_err());
    assert!(validate_value("embedding", "").is_err());
}
