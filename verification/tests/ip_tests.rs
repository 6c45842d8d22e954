use fri::algebra::FieldElement;
use fri::ip::{Object, ProofStream};

#[test]
fn test_serialize() {
    let mut proof1 = ProofStream::new();
    proof1.push(&Object::Point(FieldElement::new(1)));
    proof1.push(&Object::MerkleRoot([1_u8; 32]));
    proof1.push(&Object::CodeWord(vec![FieldElement::new(1), FieldElement::new(2)]));
    proof1.push(&Object::ColinearityTest((
        FieldElement::new(3),
        FieldElement::new(4),
        FieldElement::new(5),
    )));
    proof1.push(&Object::MerklePath(vec![[1_u8; 32], [2_u8; 32], [3_u8; 32]]));
    proof1.push(&Object::Point(FieldElement::new(2)));

    let ser = proof1.serial();
    let mut proof2 = ProofStream::deserial(&ser).unwrap();

    assert!(proof1.pull() == proof2.pull());
    assert!(proof1.pull() == proof2.pull());
    assert!(proof1.pull() == proof2.pull());
    assert!(proof1.pull() == proof2.pull());
    assert!(proof1.pull() == proof2.pull());

    assert!(proof1.pull() == Object::Point(FieldElement::new(2)));
    assert!(proof2.pull() == Object::Point(FieldElement::new(2)));
}

#[test]
fn test_serialize_deterministic() {
    // two transcripts holding the same messages serialize identically
    let mut a = ProofStream::new();
    let mut b = ProofStream::new();
    for ps in [&mut a, &mut b] {
        ps.push(&Object::Point(FieldElement::new(77)));
        ps.push(&Object::MerkleRoot([9_u8; 32]));
        ps.push(&Object::CodeWord(vec![FieldElement::new(6)]));
    }
    assert_eq!(a.serial(), b.serial());
    assert_eq!(a.prover_fiat_shamir(), b.prover_fiat_shamir());
}

#[test]
fn test_fiat_shamir_agreement() {
    // the verifier's challenge over its read prefix equals the prover's
    // challenge at the same logical point
    let mut prover = ProofStream::new();
    prover.push(&Object::Point(FieldElement::new(11)));
    prover.push(&Object::MerkleRoot([4_u8; 32]));
    let challenge_after_two = prover.prover_fiat_shamir();
    // the prover moves on
    prover.push(&Object::Point(FieldElement::new(12)));

    // an independent reader consumes exactly those two messages
    let mut verifier = ProofStream::new();
    verifier.push(&Object::Point(FieldElement::new(11)));
    verifier.push(&Object::MerkleRoot([4_u8; 32]));
    verifier.push(&Object::Point(FieldElement::new(12)));
    verifier.pull();
    verifier.pull();
    assert_eq!(verifier.verifier_fiat_shamir(), challenge_after_two);
}

#[test]
fn test_deserial_malformed() {
    assert!(ProofStream::deserial(&vec![1, 2, 3]).is_none());
    assert!(ProofStream::deserial(&vec![0u8; 17]).is_none());
    // an empty stream encodes to its bare count and round-trips
    let empty = ProofStream::new();
    let ser = empty.serial();
    assert_eq!(ser.len(), 16);
    assert!(ProofStream::deserial(&ser).is_some());
}

#[test]
fn test_pull_order_and_cursor() {
    let mut ps = ProofStream::new();
    ps.push(&Object::Point(FieldElement::new(10)));
    ps.push(&Object::Point(FieldElement::new(20)));
    assert_eq!(ps.read_index, 0);
    assert!(ps.pull() == Object::Point(FieldElement::new(10)));
    assert_eq!(ps.read_index, 1);
    assert!(ps.pull() == Object::Point(FieldElement::new(20)));
    assert_eq!(ps.read_index, 2);
}
