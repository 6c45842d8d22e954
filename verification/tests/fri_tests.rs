use fri::algebra::FieldElement;
use fri::fri::Fri;
use fri::ip::{Object, ProofStream};
use fri::merkle::Merkle;
use fri::univariate::Polynomial;

fn test_config() -> Fri {
    // domain of 32 points, expansion factor 4, one colinearity test: 3 rounds
    let omega = FieldElement::zero().primitive_nth_root(32);
    Fri::new(FieldElement::generator(), omega, 32, 4, 1)
}

fn low_degree_codeword(fri: &Fri) -> Vec<FieldElement> {
    // evaluations of a degree-7 polynomial over the 32-point domain
    let coefs: Vec<FieldElement> = (1..=8u128).map(FieldElement::new).collect();
    let poly = Polynomial::new(coefs);
    let domain = fri.eval_domain();
    poly.evaluate_domain(&domain)
}

#[test]
fn test_num_rounds() {
    let fri = test_config();
    assert_eq!(fri.num_rounds(), 3);
}

#[test]
fn test_eval_domain() {
    let fri = test_config();
    let domain = fri.eval_domain();
    assert_eq!(domain.len(), 32);
    assert_eq!(domain[0].value, FieldElement::generator().value);
    let omega = FieldElement::zero().primitive_nth_root(32);
    assert_eq!(domain[1].value, FieldElement::generator().mul(omega).value);
}

#[test]
fn test_sample_index_and_indices() {
    let fri = test_config();
    let seed = [5u8; 32];
    let i1 = Fri::sample_index(&seed, 16);
    let i2 = Fri::sample_index(&seed, 16);
    assert_eq!(i1, i2);
    assert!(i1 < 16);
    let idxs = fri.sample_indeices(&seed, 16, 8, 4);
    assert_eq!(idxs.len(), 4);
    for a in 0..idxs.len() {
        assert!(idxs[a] < 16);
        for b in 0..a {
            assert!(idxs[a] % 8 != idxs[b] % 8);
        }
    }
}

#[test]
fn test_fold_consistency() {
    // the second retained codeword is the fold of the first, pointwise
    let fri = test_config();
    let mut codeword = low_degree_codeword(&fri);
    let pre_fold = codeword.clone();
    let mut ps = ProofStream::new();
    let codewords = fri.commit(&mut codeword, &mut ps);
    assert_eq!(codewords.len(), 3);
    assert_eq!(codewords[0].len(), 32);
    assert_eq!(codewords[1].len(), 16);

    // replay the first round's challenge derivation
    let mut replay = ProofStream::new();
    replay.push(&Object::MerkleRoot(Merkle::commit(&pre_fold)));
    let alpha = FieldElement::sample(&replay.prover_fiat_shamir());

    let one = FieldElement::one();
    let two_inv = FieldElement::new(2).inverse();
    let omega = FieldElement::zero().primitive_nth_root(32);
    let offset = FieldElement::generator();
    for i in 0..16usize {
        let u = alpha.div(offset.mul(omega.pow(i as u128)));
        let expected = two_inv.mul(
            one.add(u).mul(pre_fold[i]).add(one.sub(u).mul(pre_fold[16 + i])),
        );
        assert_eq!(codewords[1][i].value, expected.value);
    }
}

#[test]
fn test_fri_end_to_end_accepts() {
    let fri = test_config();
    let mut codeword = low_degree_codeword(&fri);
    let mut ps = ProofStream::new();
    let indices = fri.prove(&mut codeword, &mut ps);
    assert_eq!(indices.len(), 1);
    assert!(fri.verify(&mut ps));
}

#[test]
fn test_fri_rejects_tampered_transcript() {
    let fri = test_config();
    let mut codeword = low_degree_codeword(&fri);
    let mut ps = ProofStream::new();
    fri.prove(&mut codeword, &mut ps);
    // corrupt one element of the revealed final codeword: the recomputed
    // commitment no longer matches the last pushed root
    for obj in ps.objects.iter_mut() {
        if let Object::CodeWord(v) = obj {
            v[0] = v[0].add(FieldElement::one());
        }
    }
    assert!(!fri.verify(&mut ps));
}

#[test]
fn test_fri_rejects_truncated_transcript() {
    let fri = test_config();
    let mut codeword = low_degree_codeword(&fri);
    let mut ps = ProofStream::new();
    fri.prove(&mut codeword, &mut ps);
    ps.objects.pop();
    assert!(!fri.verify(&mut ps));
}

#[test]
fn test_fri_rejects_tampered_triple() {
    let fri = test_config();
    let mut codeword = low_degree_codeword(&fri);
    let mut ps = ProofStream::new();
    fri.prove(&mut codeword, &mut ps);
    // corrupt one revealed colinearity triple: the fold relation breaks
    for obj in ps.objects.iter_mut() {
        if let Object::ColinearityTest(t) = obj {
            t.2 = t.2.add(FieldElement::one());
        }
    }
    assert!(!fri.verify(&mut ps));
}

#[test]
fn test_fri_proof_survives_the_wire() {
    // serialize the whole proof, decode it, and verify the decoded copy
    let fri = test_config();
    let mut codeword = low_degree_codeword(&fri);
    let mut ps = ProofStream::new();
    fri.prove(&mut codeword, &mut ps);
    let wire = ps.serial();
    let mut decoded = ProofStream::deserial(&wire).unwrap();
    assert!(fri.verify(&mut decoded));
}
