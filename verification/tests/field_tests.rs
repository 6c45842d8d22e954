use fri::algebra::{FieldElement, inv, P};
use fri::keccak::keccak256;

#[test]
fn test_field_ring_laws() {
    let a = FieldElement::new(123456789123456789123456789);
    let b = FieldElement::new(987654321987654321987654321);
    let c = FieldElement::new(271828182845904523536028747);

    // associativity of addition
    assert_eq!(a.add(b).add(c).value, a.add(b.add(c)).value);
    // distributivity
    assert_eq!(a.mul(b.add(c)).value, a.mul(b).add(a.mul(c)).value);
    // a - a == zero
    assert_eq!(a.sub(a).value, 0);
    // commutativity
    assert_eq!(a.mul(b).value, b.mul(a).value);
}

#[test]
fn test_field_inverse() {
    let a = FieldElement::new(271828182845904523536028747135);
    let ia = a.inverse();
    assert_eq!(a.mul(ia).value, 1);
    // the free function agrees
    assert_eq!(inv(a.value), ia.value);
    // division undoes multiplication
    let b = FieldElement::new(31415926535897932384626433832);
    assert_eq!(a.mul(b).div(b).value, a.value);
}

#[test]
fn test_field_reduction_and_neg() {
    assert_eq!(FieldElement::new(P).value, 0);
    assert_eq!(FieldElement::new(P + 5).value, 5);
    let a = FieldElement::new(42);
    assert_eq!(a.add(a.neg()).value, 0);
    assert_eq!(FieldElement::zero().neg().value, 0);
}

#[test]
fn test_field_pow() {
    let three = FieldElement::new(3);
    assert_eq!(three.pow(0).value, 1);
    assert_eq!(three.pow(1).value, 3);
    assert_eq!(three.pow(4).value, 81);
    // exponent laws on a larger base
    let g = FieldElement::generator();
    assert_eq!(g.pow(5).mul(g.pow(7)).value, g.pow(12).value);
}

#[test]
fn test_sample_deterministic() {
    // the bytes are read big-endian and reduced mod P
    assert_eq!(FieldElement::sample(&[1, 2]).value, 258);
    assert_eq!(FieldElement::sample(&[]).value, 0);
    let seed = [7u8; 32];
    assert_eq!(FieldElement::sample(&seed).value, FieldElement::sample(&seed).value);
}

#[test]
fn test_primitive_nth_root() {
    let omega = FieldElement::zero().primitive_nth_root(16);
    // order exactly 16: the 16th power is one and the 8th is not
    assert_eq!(omega.pow(16).value, 1);
    assert!(omega.pow(8).value != 1);
    // the 2nd root of unity is -1
    let minus_one = FieldElement::zero().primitive_nth_root(2);
    assert_eq!(minus_one.add(FieldElement::one()).value, 0);
}

#[test]
fn test_keccak256_is_a_real_digest() {
    // the well-known Keccak-256 digest of the empty string
    let d = keccak256(&[]);
    let expected: [u8; 32] = [
        0xc5, 0xd2, 0x46, 0x01, 0x86, 0xf7, 0x23, 0x3c, 0x92, 0x7e, 0x7d, 0xb2, 0xdc, 0xc7,
        0x03, 0xc0, 0xe5, 0x00, 0xb6, 0x53, 0xca, 0x82, 0x27, 0x3b, 0x7b, 0xfa, 0xd8, 0x04,
        0x5d, 0x85, 0xa4, 0x70,
    ];
    assert_eq!(d, expected);
    // a digest never hands its input back
    let input = [0u8; 32];
    assert!(keccak256(&input) != input);
}
