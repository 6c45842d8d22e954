//! Binary Merkle commitments over field-element leaves: `commit` binds a
//! power-of-two-length leaf sequence to a 32-byte root, `open` produces the
//! authentication path for one leaf, and `verify` rebuilds the root from a
//! leaf and its path.
use vstd::prelude::*;
use crate::algebra::FieldElement;
use crate::keccak::{keccak256, digest_of};
use vstd::arithmetic::power2::{pow2, lemma_pow2_unfold, lemma_pow2_pos};
use vstd::arithmetic::div_mod::{
    lemma_basic_div, lemma_div_denominator, lemma_div_multiples_vanish_fancy,
    lemma_mod_multiples_vanish, lemma_hoist_over_denominator, lemma_div_basics,
};

verus! {

pub struct Merkle {}

/// The sequence of hashed leaves, each digest viewed as its byte sequence.
pub open spec fn digests_view(s: Seq<[u8; 32]>) -> Seq<Seq<u8>> {
    s.map_values(|d: [u8; 32]| d@)
}

/// The byte `i` (big-endian, 0 is most significant) of a 128-bit value.
pub open spec fn be_byte(v: u128, i: int) -> u8 {
    ((v >> (((15 - i) * 8) as u128)) & 0xff) as u8
}

/// The 16 bytes of a 128-bit value, big-endian.
pub open spec fn u128_be_bytes(v: u128) -> Seq<u8> {
    Seq::new(16, |i: int| be_byte(v, i))
}

/// The digest that commits one field element as a leaf.
pub open spec fn leaf_hash(f: FieldElement) -> Seq<u8> {
    digest_of(u128_be_bytes(f.value))
}

/// The hashed leaves of a field-element sequence.
pub open spec fn leaf_hashes(ls: Seq<FieldElement>) -> Seq<Seq<u8>> {
    ls.map_values(|f: FieldElement| leaf_hash(f))
}

/// The root of the complete binary tree over the given (hashed) leaves:
/// a single leaf is its own root; otherwise the digest of the two halves'
/// roots, lower half first.
pub open spec fn merkle_root(ls: Seq<Seq<u8>>) -> Seq<u8>
    decreases ls.len(),
{
    if ls.len() <= 1 {
        if ls.len() == 1 {
            ls[0]
        } else {
            Seq::empty()
        }
    } else {
        let half = ls.len() as int / 2;
        digest_of(merkle_root(ls.take(half)) + merkle_root(ls.skip(half)))
    }
}

/// The authentication path for the leaf at `index`: at each level, the
/// committed root of the sibling half, from the leaf level up.
pub open spec fn merkle_open_spec(ls: Seq<Seq<u8>>, index: int) -> Seq<Seq<u8>>
    decreases ls.len(),
{
    if ls.len() <= 2 {
        if ls.len() == 2 {
            seq![ls[1 - index]]
        } else {
            Seq::empty()
        }
    } else {
        let half = ls.len() as int / 2;
        if index < half {
            merkle_open_spec(ls.take(half), index) + seq![merkle_root(ls.skip(half))]
        } else {
            merkle_open_spec(ls.skip(half), index - half) + seq![merkle_root(ls.take(half))]
        }
    }
}

/// The root rebuilt from a leaf and a path: at each level the current bit
/// of the index says whether the running digest is the left or the right
/// child.
pub open spec fn merkle_path_root(leaf: Seq<u8>, index: int, path: Seq<Seq<u8>>) -> Seq<u8>
    decreases path.len(),
{
    if path.len() == 0 {
        leaf
    } else {
        let next = if index % 2 == 0 {
            digest_of(leaf + path.first())
        } else {
            digest_of(path.first() + leaf)
        };
        merkle_path_root(next, index / 2, path.drop_first())
    }
}

/// Splitting a path: rebuilding over a concatenation first rebuilds over
/// the prefix, then continues with the index shifted down by its length.
pub proof fn lemma_mpr_concat(leaf: Seq<u8>, index: int, p1: Seq<Seq<u8>>, p2: Seq<Seq<u8>>)
    requires
        index >= 0,
    ensures
        merkle_path_root(leaf, index, p1 + p2)
            == merkle_path_root(merkle_path_root(leaf, index, p1),
                index / pow2(p1.len()) as int, p2),
    decreases p1.len(),
{
    if p1.len() == 0 {
        assert(p1 + p2 =~= p2);
        assert(pow2(0) == 1) by {
            vstd::arithmetic::power2::lemma2_to64();
        }
        lemma_div_basics(index);
    } else {
        let next = if index % 2 == 0 {
            digest_of(leaf + p1.first())
        } else {
            digest_of(p1.first() + leaf)
        };
        assert((p1 + p2).first() == p1.first());
        assert((p1 + p2).drop_first() =~= p1.drop_first() + p2);
        lemma_mpr_concat(next, index / 2, p1.drop_first(), p2);
        // (index / 2) / pow2(m - 1) == index / pow2(m)
        let m = p1.len();
        lemma_pow2_pos((m - 1) as nat);
        lemma_div_denominator(index, 2, pow2((m - 1) as nat) as int);
        lemma_pow2_unfold(m);
        assert(2 * pow2((m - 1) as nat) == pow2(m));
    }
}

/// High bits of the index beyond the path length do not matter.
pub proof fn lemma_mpr_high_bits(leaf: Seq<u8>, index: int, c: int, path: Seq<Seq<u8>>)
    requires
        index >= 0,
        c >= 0,
    ensures
        merkle_path_root(leaf, index + pow2(path.len()) * c, path)
            == merkle_path_root(leaf, index, path),
    decreases path.len(),
{
    if path.len() == 0 {
    } else {
        let m = path.len();
        let j = index + pow2(m) * c;
        lemma_pow2_unfold(m);
        let x = pow2((m - 1) as nat) * c;
        assert(pow2(m) * c == 2 * x) by (nonlinear_arith)
            requires pow2(m) == 2 * pow2((m - 1) as nat), x == pow2((m - 1) as nat) * c;
        // same parity
        lemma_mod_multiples_vanish(x, index, 2);
        assert(j % 2 == index % 2);
        // halved index keeps the shape
        lemma_hoist_over_denominator(index, x, 2);
        assert(j / 2 == index / 2 + x);
        lemma_pow2_pos((m - 1) as nat);
        assert(x >= 0) by (nonlinear_arith)
            requires pow2((m - 1) as nat) > 0, c >= 0, x == pow2((m - 1) as nat) * c;
        let next = if index % 2 == 0 {
            digest_of(leaf + path.first())
        } else {
            digest_of(path.first() + leaf)
        };
        lemma_mpr_high_bits(next, index / 2, c, path.drop_first());
    }
}

/// The opened path has one entry per tree level.
pub proof fn lemma_open_len(ls: Seq<Seq<u8>>, index: int, k: nat)
    requires
        k >= 1,
        ls.len() == pow2(k),
        0 <= index < ls.len(),
    ensures
        merkle_open_spec(ls, index).len() == k,
    decreases k,
{
    lemma_pow2_unfold(k);
    if k == 1 {
        assert(pow2(1) == 2) by {
            vstd::arithmetic::power2::lemma2_to64();
        }
    } else {
        let half = ls.len() as int / 2;
        assert(half == pow2((k - 1) as nat));
        lemma_pow2_pos((k - 1) as nat);
        vstd::arithmetic::power2::lemma2_to64();
        vstd::arithmetic::power2::lemma_pow2_strictly_increases(1, k);
        assert(ls.len() > 2);
        if index < half {
            lemma_open_len(ls.take(half), index, (k - 1) as nat);
        } else {
            lemma_open_len(ls.skip(half), index - half, (k - 1) as nat);
        }
    }
}

/// Opening a leaf and rebuilding from its path recovers the committed root.
pub proof fn lemma_merkle_open_correct(ls: Seq<Seq<u8>>, index: int, k: nat)
    requires
        k >= 1,
        ls.len() == pow2(k),
        0 <= index < ls.len(),
    ensures
        merkle_path_root(ls[index], index, merkle_open_spec(ls, index)) == merkle_root(ls),
    decreases k,
{
    lemma_pow2_unfold(k);
    lemma_pow2_pos((k - 1) as nat);
    if k == 1 {
        assert(pow2(1) == 2) by {
            vstd::arithmetic::power2::lemma2_to64();
        }
        let path = merkle_open_spec(ls, index);
        assert(path == seq![ls[1 - index]]);
        assert(path.drop_first() =~= Seq::<Seq<u8>>::empty());
        assert(ls.take(1).len() == 1);
        assert(merkle_root(ls.take(1)) == ls.take(1)[0]);
        assert(ls.take(1)[0] == ls[0]);
        assert(ls.skip(1).len() == 1);
        assert(merkle_root(ls.skip(1)) == ls.skip(1)[0]);
        assert(ls.skip(1)[0] == ls[1]);
        if index == 0 {
            let next = digest_of(ls[0] + path.first());
            assert(merkle_path_root(next, 0, path.drop_first()) == next);
            assert(merkle_path_root(ls[0], 0, path)
                == digest_of(ls[0] + ls[1]));
        } else {
            assert(index % 2 == 1);
            let next = digest_of(path.first() + ls[1]);
            assert(merkle_path_root(next, 0, path.drop_first()) == next);
            assert(merkle_path_root(ls[1], 1, path)
                == digest_of(ls[0] + ls[1]));
        }
    } else {
        let half = ls.len() as int / 2;
        assert(half == pow2((k - 1) as nat));
        vstd::arithmetic::power2::lemma2_to64();
        vstd::arithmetic::power2::lemma_pow2_strictly_increases(1, k);
        assert(ls.len() > 2);
        let lower = ls.take(half);
        let upper = ls.skip(half);
        assert(lower.len() == pow2((k - 1) as nat));
        assert(upper.len() == pow2((k - 1) as nat));
        if index < half {
            let p1 = merkle_open_spec(lower, index);
            lemma_open_len(lower, index, (k - 1) as nat);
            lemma_merkle_open_correct(lower, index, (k - 1) as nat);
            assert(lower[index] == ls[index]);
            let path = merkle_open_spec(ls, index);
            assert(path == p1 + seq![merkle_root(upper)]);
            lemma_mpr_concat(ls[index], index, p1, seq![merkle_root(upper)]);
            lemma_basic_div(index, half);
            assert(index / pow2(p1.len()) as int == 0);
            let r1 = merkle_path_root(ls[index], index, p1);
            assert(r1 == merkle_root(lower));
            let p2 = seq![merkle_root(upper)];
            assert(p2.drop_first() =~= Seq::<Seq<u8>>::empty());
            let next = digest_of(r1 + p2.first());
            assert(merkle_path_root(next, 0, p2.drop_first()) == next);
            assert(merkle_path_root(r1, 0, p2)
                == digest_of(r1 + merkle_root(upper)));
        } else {
            let p1 = merkle_open_spec(upper, index - half);
            lemma_open_len(upper, index - half, (k - 1) as nat);
            lemma_merkle_open_correct(upper, index - half, (k - 1) as nat);
            assert(upper[index - half] == ls[index]);
            let path = merkle_open_spec(ls, index);
            assert(path == p1 + seq![merkle_root(lower)]);
            // the high bit of the index is invisible while climbing p1
            lemma_mpr_high_bits(ls[index], index - half, 1, p1);
            assert(pow2(p1.len()) * 1 == pow2(p1.len()));
            assert((index - half) + half == index);
            let r1 = merkle_path_root(ls[index], index, p1);
            assert(r1 == merkle_root(upper));
            lemma_mpr_concat(ls[index], index, p1, seq![merkle_root(lower)]);
            lemma_div_multiples_vanish_fancy(1, index - half, half);
            assert(half * 1 + (index - half) == index);
            assert(index / pow2(p1.len()) as int == 1);
            let p2 = seq![merkle_root(lower)];
            assert(p2.drop_first() =~= Seq::<Seq<u8>>::empty());
            let next = digest_of(p2.first() + r1);
            assert(merkle_path_root(next, 0, p2.drop_first()) == next);
            assert(merkle_path_root(r1, 1, p2)
                == digest_of(merkle_root(lower) + r1));
        }
    }
}

/// The concatenation of two 32-byte digests.
fn cat32(a: &[u8; 32], b: &[u8; 32]) -> (r: Vec<u8>)
    ensures
        r@ == a@ + b@,
{
    let mut r: Vec<u8> = Vec::new();
    let mut i: usize = 0;
    while i < 32
        invariant
            i <= 32,
            r@ == a@.take(i as int),
        decreases 32 - i,
    {
        r.push(a[i]);
        proof {
            assert(r@ =~= a@.take(i + 1));
        }
        i = i + 1;
    }
    proof {
        assert(r@ =~= a@);
    }
    let mut j: usize = 0;
    while j < 32
        invariant
            j <= 32,
            r@ == a@ + b@.take(j as int),
        decreases 32 - j,
    {
        r.push(b[j]);
        proof {
            assert(r@ =~= a@ + b@.take(j + 1));
        }
        j = j + 1;
    }
    proof {
        assert(r@ =~= a@ + b@);
    }
    r
}

/// Equality of two 32-byte digests.
pub fn eq32(a: &[u8; 32], b: &[u8; 32]) -> (r: bool)
    ensures
        r == (a@ == b@),
{
    let mut i: usize = 0;
    while i < 32
        invariant
            i <= 32,
            forall|t: int| 0 <= t < i ==> a@[t] == b@[t],
        decreases 32 - i,
    {
        if a[i] != b[i] {
            return false;
        }
        i = i + 1;
    }
    proof {
        assert(a@ =~= b@);
    }
    true
}

/// The big-endian bytes of a field element's value.
pub fn be_bytes_u128(v: u128) -> (r: Vec<u8>)
    ensures
        r@ == u128_be_bytes(v),
{
    let mut r: Vec<u8> = Vec::new();
    let mut i: usize = 0;
    while i < 16
        invariant
            i <= 16,
            r@.len() == i,
            forall|t: int| 0 <= t < i ==> r@[t] == be_byte(v, t),
        decreases 16 - i,
    {
        let sh: u128 = ((15 - i) * 8) as u128;
        let byte = ((v >> sh) & 0xff) as u8;
        r.push(byte);
        i = i + 1;
    }
    proof {
        assert(r@ =~= u128_be_bytes(v));
    }
    r
}

impl Merkle {
    /// The root of the subtree over leafs[start..end].
    fn commit_(leafs: &Vec<[u8; 32]>, start: usize, end: usize) -> (r: [u8; 32])
        requires
            start < end,
            end <= leafs@.len(),
        ensures
            r@ == merkle_root(digests_view(leafs@.subrange(start as int, end as int))),
        decreases end - start,
    {
        let ghost sub = digests_view(leafs@.subrange(start as int, end as int));
        if end - start == 1 {
            proof {
                assert(sub.len() == 1);
                assert(sub[0] == leafs@[start as int]@);
            }
            leafs[start]
        } else {
            let mid = start + (end - start) / 2;
            let l = Merkle::commit_(leafs, start, mid);
            let r = Merkle::commit_(leafs, mid, end);
            let joined = cat32(&l, &r);
            let root = keccak256(joined.as_slice());
            proof {
                let half = sub.len() as int / 2;
                assert(digests_view(leafs@.subrange(start as int, mid as int))
                    =~= sub.take(half));
                assert(digests_view(leafs@.subrange(mid as int, end as int))
                    =~= sub.skip(half));
            }
            root
        }
    }

    /// Commit a sequence of field elements: hash each leaf, then fold the
    /// tree to a single 32-byte root. The leaf count must be a power of two.
    pub fn commit(leafs: &Vec<FieldElement>) -> (r: [u8; 32])
        requires
            leafs@.len() >= 1,
            exists|k: nat| leafs@.len() == pow2(k),
        ensures
            r@ == merkle_root(leaf_hashes(leafs@)),
    {
        let hashed = Merkle::hash_leafs(leafs);
        let root = Merkle::commit_(&hashed, 0, hashed.len());
        proof {
            assert(hashed@.subrange(0, hashed@.len() as int) =~= hashed@);
            assert(digests_view(hashed@) =~= leaf_hashes(leafs@));
        }
        root
    }

    /// Hash every leaf element.
    fn hash_leafs(leafs: &Vec<FieldElement>) -> (r: Vec<[u8; 32]>)
        ensures
            r@.len() == leafs@.len(),
            forall|i: int| 0 <= i < leafs@.len()
                ==> (#[trigger] r@[i])@ == leaf_hash(leafs@[i]),
    {
        let mut out: Vec<[u8; 32]> = Vec::new();
        let mut i: usize = 0;
        while i < leafs.len()
            invariant
                i <= leafs@.len(),
                out@.len() == i,
                forall|t: int| 0 <= t < i
                    ==> (#[trigger] out@[t])@ == leaf_hash(leafs@[t]),
            decreases leafs@.len() - i,
        {
            let bytes = be_bytes_u128(leafs[i].value);
            out.push(keccak256(bytes.as_slice()));
            i = i + 1;
        }
        out
    }

    /// The authentication path for leafs[start + index] within the subtree
    /// over leafs[start..end].
    fn open_(leafs: &Vec<[u8; 32]>, index: usize, start: usize, end: usize) -> (r: Vec<[u8; 32]>)
        requires
            start < end,
            end <= leafs@.len(),
            end - start >= 2,
            index < end - start,
            exists|k: nat| end - start == pow2(k),
        ensures
            digests_view(r@)
                == merkle_open_spec(digests_view(leafs@.subrange(start as int, end as int)),
                    index as int),
        decreases end - start,
    {
        let ghost sub = digests_view(leafs@.subrange(start as int, end as int));
        let len = end - start;
        let half = len / 2;
        let mid = start + half;
        proof {
            let k = choose|k: nat| end - start == pow2(k);
            if k == 0 {
                vstd::arithmetic::power2::lemma2_to64();
                assert(pow2(0) == 1);
                assert(false);
            }
            lemma_pow2_unfold(k);
            assert(half == pow2((k - 1) as nat));
            lemma_pow2_pos((k - 1) as nat);
            assert(digests_view(leafs@.subrange(start as int, mid as int))
                =~= sub.take(half as int));
            assert(digests_view(leafs@.subrange(mid as int, end as int))
                =~= sub.skip(half as int));
        }
        if len == 2 {
            let mut r: Vec<[u8; 32]> = Vec::new();
            r.push(leafs[start + (1 - index)]);
            proof {
                assert(digests_view(r@) =~= seq![sub[1 - index as int]]);
            }
            return r;
        }
        if index < half {
            let mut r = Merkle::open_(leafs, index, start, mid);
            let sibling = Merkle::commit_(leafs, mid, end);
            r.push(sibling);
            proof {
                assert(digests_view(r@) =~= merkle_open_spec(sub.take(half as int), index as int)
                    + seq![merkle_root(sub.skip(half as int))]);
            }
            r
        } else {
            let mut r = Merkle::open_(leafs, index - half, mid, end);
            let sibling = Merkle::commit_(leafs, start, mid);
            r.push(sibling);
            proof {
                assert(digests_view(r@)
                    =~= merkle_open_spec(sub.skip(half as int), index - half)
                        + seq![merkle_root(sub.take(half as int))]);
            }
            r
        }
    }

    /// Open the leaf at `index`: hash the leaves and collect the sibling
    /// roots from the leaf level up.
    pub fn open(index: usize, leafs: &Vec<FieldElement>) -> (r: Vec<[u8; 32]>)
        requires
            leafs@.len() >= 2,
            index < leafs@.len(),
            exists|k: nat| leafs@.len() == pow2(k),
        ensures
            digests_view(r@) == merkle_open_spec(leaf_hashes(leafs@), index as int),
    {
        let hashed = Merkle::hash_leafs(leafs);
        let path = Merkle::open_(&hashed, index, 0, hashed.len());
        proof {
            assert(hashed@.subrange(0, hashed@.len() as int) =~= hashed@);
            assert(digests_view(hashed@) =~= leaf_hashes(leafs@));
        }
        path
    }

    /// Rebuild the root from a hashed leaf and its path; true iff it equals
    /// the claimed root.
    fn verify_(root: &[u8; 32], index: usize, path: &Vec<[u8; 32]>, leaf: [u8; 32]) -> (r: bool)
        ensures
            r == (merkle_path_root(leaf@, index as int, digests_view(path@)) == root@),
    {
        let mut h = leaf;
        let mut idx = index;
        let mut t: usize = 0;
        proof {
            assert(digests_view(path@.skip(0)) =~= digests_view(path@));
        }
        while t < path.len()
            invariant
                t <= path@.len(),
                merkle_path_root(leaf@, index as int, digests_view(path@))
                    == merkle_path_root(h@, idx as int, digests_view(path@.skip(t as int))),
            decreases path@.len() - t,
        {
            let ghost pre = digests_view(path@.skip(t as int));
            proof {
                assert(pre.first() == path@[t as int]@);
                assert(pre.drop_first() =~= digests_view(path@.skip(t + 1)));
            }
            if idx % 2 == 0 {
                h = keccak256(cat32(&h, &path[t]).as_slice());
            } else {
                h = keccak256(cat32(&path[t], &h).as_slice());
            }
            idx = idx / 2;
            t = t + 1;
        }
        proof {
            assert(digests_view(path@.skip(path@.len() as int))
                =~= Seq::<Seq<u8>>::empty());
        }
        eq32(&h, root)
    }

    /// Verify an opening: hash the claimed leaf element and rebuild the root.
    pub fn verify(root: [u8; 32], index: usize, path: Vec<[u8; 32]>, leaf: FieldElement) -> (r: bool)
        ensures
            r == (merkle_path_root(leaf_hash(leaf), index as int, digests_view(path@)) == root@),
    {
        let bytes = be_bytes_u128(leaf.value);
        let h = keccak256(bytes.as_slice());
        Merkle::verify_(&root, index, &path, h)
    }
}

/// Merkle round trip: for a power-of-two leaf set, verifying the opened
/// path of any leaf against the committed root succeeds.
pub proof fn lemma_merkle_round_trip(ls: Seq<FieldElement>, index: int, k: nat)
    requires
        k >= 1,
        ls.len() == pow2(k),
        0 <= index < ls.len(),
    ensures
        merkle_path_root(leaf_hash(ls[index]), index,
            merkle_open_spec(leaf_hashes(ls), index)) == merkle_root(leaf_hashes(ls)),
{
    assert(leaf_hashes(ls)[index] == leaf_hash(ls[index]));
    lemma_merkle_open_correct(leaf_hashes(ls), index, k);
}

} // verus!
