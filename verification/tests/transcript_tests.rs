//! Tests of the Fiat-Shamir transcript: challenges must agree with direct
//! Keccak-256 computations and be deterministic in the absorbed bytes.

use sha3::{Digest, Keccak256};
use std::collections::HashSet;
use sumcheck_gkr::field::{FieldElement, MODULUS};
use sumcheck_gkr::transcript::Transcript;

#[test]
fn test_basic_challenge_generation() {
    let mut transcript = Transcript::new();

    let data = b"test_data";

    transcript.append(data);

    let challenge = transcript.sample_field_element();

    // Generate the expected challenge with Keccak-256 directly.
    let expected_challenge_bytes = Keccak256::digest(data);
    let expected_challenge = FieldElement::from_be_bytes_mod_order(&expected_challenge_bytes);

    assert_eq!(
        challenge, expected_challenge,
        "Challenge does not match expected value"
    );
}

#[test]
fn test_append_multiple_field_elements() {
    let mut transcript = Transcript::new();

    let field_element1 = FieldElement::from_u64(12345);
    let field_element2 = FieldElement::from_u64(67890);

    transcript.append_field_element(&field_element1);
    transcript.append_field_element(&field_element2);

    let challenge = transcript.sample_field_element();

    // Generate the expected challenge with Keccak-256 directly.
    let data1 = field_element1.to_be_bytes();
    let data2 = field_element2.to_be_bytes();
    let mut keccak = Keccak256::new();
    keccak.update(data1);
    keccak.update(data2);
    let expected_challenge_bytes = keccak.finalize();
    let expected_challenge = FieldElement::from_be_bytes_mod_order(&expected_challenge_bytes);

    assert_eq!(
        challenge, expected_challenge,
        "Challenge does not match expected value after appending multiple elements"
    );
}

#[test]
fn test_reuse_transcript() {
    let mut transcript1 = Transcript::new();
    let mut transcript2 = Transcript::new();

    let data = b"test_data";

    transcript1.append(data);
    transcript2.append(data);

    let challenge1 = transcript1.sample_field_element();
    let challenge2 = transcript2.sample_field_element();

    assert_eq!(
        challenge1, challenge2,
        "Challenges should match for identical inputs"
    );
}

#[test]
fn test_empty_input() {
    let mut transcript = Transcript::new();

    let empty_data: &[u8] = b"";

    transcript.append(empty_data);

    let challenge = transcript.sample_field_element();

    // The Keccak-256 digest of the empty string is a fixed test vector; if
    // the sponge handed its input back unchanged this would not match.
    let expected_challenge_bytes: [u8; 32] = [
        0xc5, 0xd2, 0x46, 0x01, 0x86, 0xf7, 0x23, 0x3c, 0x92, 0x7e, 0x7d, 0xb2, 0xdc, 0xc7,
        0x03, 0xc0, 0xe5, 0x00, 0xb6, 0x53, 0xca, 0x82, 0x27, 0x3b, 0x7b, 0xfa, 0xd8, 0x04,
        0x5d, 0x85, 0xa4, 0x70,
    ];
    assert_eq!(Keccak256::digest(empty_data).as_slice(), &expected_challenge_bytes);
    let expected_challenge = FieldElement::from_be_bytes_mod_order(&expected_challenge_bytes);

    assert_eq!(
        challenge, expected_challenge,
        "Challenge does not match expected value for empty input"
    );
}

#[test]
fn test_field_element_encoding() {
    let mut transcript = Transcript::new();

    let field_element = FieldElement::from_u64(12345);

    transcript.append_field_element(&field_element);

    let challenge = transcript.sample_field_element();

    // Generate the expected challenge with Keccak-256 directly.
    let field_element_bytes = field_element.to_be_bytes();
    let expected_challenge_bytes = Keccak256::digest(&field_element_bytes);
    let expected_challenge = FieldElement::from_be_bytes_mod_order(&expected_challenge_bytes);

    assert_eq!(
        challenge, expected_challenge,
        "Challenge does not match expected value for field element encoding"
    );
}

#[test]
fn test_sample_n_elements() {
    let mut transcript = Transcript::new();

    let elements = transcript.sample_n_elements(5);

    assert_eq!(elements.len(), 5, "The number of sampled elements should be 5");

    for element in &elements {
        assert!(element.to_u64() < MODULUS, "The element should be a valid field element");
    }
}

#[test]
fn test_sample_n_elements_unique() {
    let mut transcript = Transcript::new();

    let elements = transcript.sample_n_elements(100);

    let mut seen = HashSet::new();
    for element in elements {
        assert!(seen.insert(element), "Found duplicate element");
    }
}

#[test]
fn test_perturbed_input_changes_challenges() {
    // Altering one absorbed byte changes every subsequent squeeze.
    let mut transcript1 = Transcript::new();
    let mut transcript2 = Transcript::new();
    transcript1.append(b"abcd");
    transcript2.append(b"abce");
    let c1 = transcript1.sample_n_elements(3);
    let c2 = transcript2.sample_n_elements(3);
    for i in 0..3 {
        assert_ne!(c1[i], c2[i]);
    }
}
