//! Tests of the prime-field scalar arithmetic.

use sumcheck_gkr::field::{FieldElement, MODULUS};

fn fe(x: u64) -> FieldElement {
    FieldElement::from_u64(x)
}

#[test]
fn test_field_add_wraps() {
    assert_eq!(fe(3).add(fe(4)), fe(7));
    assert_eq!(fe(MODULUS - 1).add(fe(1)), fe(0));
    assert_eq!(fe(MODULUS - 1).add(fe(5)), fe(4));
}

#[test]
fn test_field_sub_wraps() {
    assert_eq!(fe(10).sub(fe(4)), fe(6));
    assert_eq!(fe(0).sub(fe(1)), fe(MODULUS - 1));
}

#[test]
fn test_field_mul_exact() {
    assert_eq!(fe(6).mul(fe(7)), fe(42));
    // (2^31)^2 = 2^62 = 2 * (2^61 - 1) + 2, so it reduces to 2.
    assert_eq!(fe(1u64 << 31).mul(fe(1u64 << 31)), fe(2));
}

#[test]
fn test_field_neg() {
    assert_eq!(fe(1).neg(), fe(MODULUS - 1));
    assert_eq!(fe(0).neg(), fe(0));
}

#[test]
fn test_field_pow() {
    assert_eq!(fe(2).pow(10), fe(1024));
    assert_eq!(fe(5).pow(0), fe(1));
    assert_eq!(fe(3).pow(4), fe(81));
}

#[test]
fn test_field_inv_roundtrip() {
    for x in [1u64, 2, 3, 17, 12345, MODULUS - 1] {
        let inv = fe(x).inv();
        assert_eq!(fe(x).mul(inv), fe(1), "inverse failed for {}", x);
    }
    assert_eq!(fe(0).inv(), fe(0));
}

#[test]
fn test_field_bytes_roundtrip() {
    for x in [0u64, 1, 255, 256, 123456789, MODULUS - 1] {
        let bytes = fe(x).to_be_bytes();
        assert_eq!(bytes.len(), 8);
        assert_eq!(FieldElement::from_be_bytes_mod_order(&bytes), fe(x));
    }
}

#[test]
fn test_field_bytes_big_endian() {
    let bytes = fe(258).to_be_bytes();
    assert_eq!(bytes, vec![0, 0, 0, 0, 0, 0, 1, 2]);
}

#[test]
fn test_from_be_bytes_mod_order_reduces() {
    // 2^61 - 1 encodes as 0x1FFFFFFFFFFFFFFF and reduces to zero.
    let bytes = vec![0x1F, 0xFF, 0xFF, 0xFF, 0xFF, 0xFF, 0xFF, 0xFF];
    assert_eq!(FieldElement::from_be_bytes_mod_order(&bytes), fe(0));
}
