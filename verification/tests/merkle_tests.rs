use fri::algebra::FieldElement;
use fri::merkle::Merkle;

fn leafs(n: usize) -> Vec<FieldElement> {
    (0..n).map(|i| FieldElement::new((i as u128) * 7919 + 3)).collect()
}

#[test]
fn test_merkle_round_trip() {
    let n: usize = 8;
    let leafs = leafs(n);
    let root = Merkle::commit(&leafs);
    for i in 0..n {
        let path = Merkle::open(i, &leafs);
        assert!(Merkle::verify(root, i, path, leafs[i]));
    }
}

#[test]
fn test_merkle_wrong_leaf_fails() {
    let n: usize = 8;
    let leafs = leafs(n);
    let root = Merkle::commit(&leafs);
    for i in 0..n {
        let path = Merkle::open(i, &leafs);
        assert!(!Merkle::verify(root, i, path, FieldElement::new(999999)));
    }
}

#[test]
fn test_merkle_swapped_leaf_fails() {
    let n: usize = 8;
    let leafs = leafs(n);
    let root = Merkle::commit(&leafs);
    for i in 0..n {
        let path = Merkle::open(i, &leafs);
        assert!(!Merkle::verify(root, i, path, leafs[(i + 1) % n]));
    }
}

#[test]
fn test_merkle_wrong_index_fails() {
    let n: usize = 8;
    let leafs = leafs(n);
    let root = Merkle::commit(&leafs);
    for i in 0..n {
        let path = Merkle::open(i, &leafs);
        assert!(!Merkle::verify(root, (i + 1) % n, path, leafs[i]));
    }
}

#[test]
fn test_merkle_wrong_root_fails() {
    let n: usize = 8;
    let leafs = leafs(n);
    let fake_root = [0xabu8; 32];
    for i in 0..n {
        let path = Merkle::open(i, &leafs);
        assert!(!Merkle::verify(fake_root, i, path, leafs[i]));
    }
}

#[test]
fn test_merkle_tampered_path_fails() {
    let n: usize = 8;
    let leafs = leafs(n);
    let root = Merkle::commit(&leafs);
    for i in 0..n {
        let path = Merkle::open(i, &leafs);
        for j in 0..path.len() {
            let mut fake_path = path.clone();
            fake_path[j][0] ^= 1;
            assert!(!Merkle::verify(root, i, fake_path, leafs[i]));
        }
    }
}

#[test]
fn test_merkle_single_pair() {
    let leafs = leafs(2);
    let root = Merkle::commit(&leafs);
    let path = Merkle::open(0, &leafs);
    assert_eq!(path.len(), 1);
    assert!(Merkle::verify(root, 0, path, leafs[0]));
}
