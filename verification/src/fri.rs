//! The FRI low-degree test: commit/fold rounds driven by Fiat-Shamir
//! challenges, pseudorandom index sampling, and the query/verify phase built
//! on Merkle openings and the fold relation.
use vstd::prelude::*;
use crate::algebra::{
    FieldElement, P, fadd, fsub, fmul, finv, fpow, int_of_bytes,
    lemma_finv_works,
};
use crate::univariate::{poly_wf, fe};
use crate::ip::{Object, ObjectV, ProofStream, stream_challenge, obj_view};
use crate::merkle::{Merkle, merkle_root, leaf_hashes, leaf_hash, merkle_open_spec,
    merkle_path_root, u128_be_bytes, be_bytes_u128};
use crate::keccak::{keccak256, digest_of};
use vstd::arithmetic::power2::{pow2, lemma_pow2_unfold, lemma_pow2_pos,
    lemma_pow2_strictly_increases, lemma_pow2_adds, lemma2_to64};
use vstd::arithmetic::power::{pow, lemma_pow_adds, lemma_pow1, lemma_pow0};
use vstd::arithmetic::div_mod::{
    lemma_small_mod, lemma_mod_bound, lemma_fundamental_div_mod, lemma_basic_div,
    lemma_div_denominator, lemma_mul_mod_noop_general, lemma_mul_mod_noop_left,
};


verus! {

/// The FRI configuration: evaluation domain `offset * omega^i` of
/// power-of-two length, the Reed-Solomon expansion factor, and the number
/// of colinearity tests per query round.
pub struct Fri {
    pub offset: FieldElement,
    pub omega: FieldElement,
    pub domain_length: u128,
    pub expansion_factor: u128,
    pub num_colinearity_tests: u128,
}

/// The number of commit rounds: halve the codeword length while it exceeds
/// the expansion factor and holds enough entropy for the colinearity tests.
pub open spec fn num_rounds_spec(cl: nat, e: nat, t: nat) -> nat
    decreases cl,
{
    if cl > e && 4 * t < cl {
        1 + num_rounds_spec(cl / 2, e, t)
    } else {
        0
    }
}

/// Every intermediate codeword length still satisfied the halving
/// conditions, and the halvings stay within the initial power of two.
pub proof fn lemma_num_rounds_props(cl: nat, e: nat, t: nat)
    ensures
        forall|j: nat| j < num_rounds_spec(cl, e, t)
            ==> cl / #[trigger] pow2(j) > e && 4 * t < cl / pow2(j),
    decreases cl,
{
    let r = num_rounds_spec(cl, e, t);
    if cl > e && 4 * t < cl {
        lemma_num_rounds_props(cl / 2, e, t);
        assert forall|j: nat| j < r
            implies cl / #[trigger] pow2(j) > e && 4 * t < cl / pow2(j) by {
            if j == 0 {
                lemma2_to64();
                assert(pow2(0) == 1);
                assert(cl / 1 == cl);
            } else {
                assert(((j - 1) as nat) < num_rounds_spec(cl / 2, e, t));
                assert(cl / 2 / pow2((j - 1) as nat) > e && 4 * t < cl / 2 / pow2((j - 1) as nat));
                lemma_pow2_pos((j - 1) as nat);
                lemma_div_denominator(cl as int, 2, pow2((j - 1) as nat) as int);
                lemma_pow2_unfold(j);
                assert(cl / 2 / pow2((j - 1) as nat) == cl / pow2(j));
            }
        }
    }
}

impl Fri {
    /// The configuration invariant: reduced nonzero offset and omega, a
    /// power-of-two domain length on which omega has full order, and at
    /// least one colinearity test.
    pub open spec fn wf(self) -> bool {
        &&& self.offset.wf()
        &&& self.omega.wf()
        &&& self.offset.value != 0
        &&& self.omega.value != 0
        &&& self.domain_length >= 2
        &&& exists|k: nat| self.domain_length == pow2(k)
        &&& fpow(self.omega.value as int, self.domain_length as nat) == 1
        &&& self.expansion_factor >= 1
        &&& self.num_colinearity_tests >= 1
    }

    pub open spec fn rounds(self) -> nat {
        num_rounds_spec(self.domain_length as nat, self.expansion_factor as nat,
            self.num_colinearity_tests as nat)
    }

    pub fn new(offset: FieldElement, omega: FieldElement, initial_domain_length: u128,
        expansion_factor: u128, num_colinearity_test: u128) -> (r: Fri)
        ensures
            r.offset == offset,
            r.omega == omega,
            r.domain_length == initial_domain_length,
            r.expansion_factor == expansion_factor,
            r.num_colinearity_tests == num_colinearity_test,
    {
        Fri {
            offset,
            omega,
            domain_length: initial_domain_length,
            expansion_factor: expansion_factor,
            num_colinearity_tests: num_colinearity_test,
        }
    }

    /// Count the folding rounds for this configuration. The entropy test
    /// `4 t < length` is phrased as `t <= (length - 1) / 4` so that no
    /// intermediate product can overflow.
    #[verifier::rlimit(60)]
    pub fn num_rounds(&self) -> (r: u128)
        ensures
            r == self.rounds(),
    {
        let ghost dl = self.domain_length as nat;
        let ghost e = self.expansion_factor as nat;
        let ghost t = self.num_colinearity_tests as nat;
        let mut codeword_length = self.domain_length;
        let mut num: u128 = 0;
        proof {
            lemma2_to64();
            assert(pow2(0) == 1);
        }
        while codeword_length > self.expansion_factor
            && self.num_colinearity_tests <= (codeword_length - 1) / 4
            invariant
                dl == self.domain_length,
                e == self.expansion_factor,
                t == self.num_colinearity_tests,
                num_rounds_spec(dl, e, t)
                    == num + num_rounds_spec(codeword_length as nat, e, t),
                codeword_length >= 1
                    ==> codeword_length as nat * pow2(num as nat) <= dl,
            decreases codeword_length,
        {
            let ghost cl0 = codeword_length as nat;
            let ghost n0 = num as nat;
            proof {
                // the loop condition is exactly the entropy condition
                lemma_fundamental_div_mod((cl0 - 1) as int, 4);
                assert(4 * t < cl0) by (nonlinear_arith)
                    requires
                        t <= ((cl0 - 1) as int) / 4,
                        (cl0 - 1) as int == 4 * (((cl0 - 1) as int) / 4)
                            + ((cl0 - 1) as int) % 4,
                        0 <= ((cl0 - 1) as int) % 4 < 4,
                ;
                // one round is peeled off the specification
                assert(num_rounds_spec(cl0, e, t) == 1 + num_rounds_spec(cl0 / 2, e, t));
                // the count is bounded, so it cannot overflow
                lemma_pow2_pos(n0);
                assert(pow2(n0) <= cl0 * pow2(n0)) by (nonlinear_arith)
                    requires cl0 >= 1, pow2(n0) > 0,
                ;
                if n0 >= 128 {
                    lemma_pow2_adds(64, 64);
                    lemma2_to64();
                    if n0 > 128 {
                        lemma_pow2_strictly_increases(128, n0);
                    }
                    assert(pow2(128) <= pow2(n0));
                    assert(false);
                }
                // halving keeps the product bound
                lemma_pow2_unfold((n0 + 1) as nat);
                assert((cl0 / 2) * pow2(n0 + 1) <= cl0 * pow2(n0)) by (nonlinear_arith)
                    requires
                        pow2(n0 + 1) == 2 * pow2(n0),
                        pow2(n0) > 0,
                        (cl0 / 2) * 2 <= cl0,
                ;
            }
            codeword_length = codeword_length / 2;
            num = num + 1;
        }
        proof {
            if codeword_length >= 1 {
                lemma_fundamental_div_mod((codeword_length - 1) as int, 4);
                if codeword_length > self.expansion_factor {
                    // the entropy test failed, so the spec condition fails too
                    assert(!(self.num_colinearity_tests <= (codeword_length - 1) / 4));
                    assert(!(4 * t < codeword_length as nat)) by (nonlinear_arith)
                        requires
                            t > ((codeword_length - 1) as int) / 4,
                            (codeword_length - 1) as int
                                == 4 * (((codeword_length - 1) as int) / 4)
                                    + ((codeword_length - 1) as int) % 4,
                            0 <= ((codeword_length - 1) as int) % 4 < 4,
                    ;
                }
            }
            assert(num_rounds_spec(codeword_length as nat, e, t) == 0);
        }
        num
    }

    /// The whole evaluation domain, `offset * omega^i` for i below the
    /// domain length.
    pub fn eval_domain(&self) -> (r: Vec<FieldElement>)
        requires
            self.wf(),
            self.domain_length <= usize::MAX,
        ensures
            r@.len() == self.domain_length,
            forall|i: int| 0 <= i < self.domain_length
                ==> (#[trigger] r@[i]).value
                    == fmul(self.offset.value as int, fpow(self.omega.value as int, i as nat)),
            poly_wf(r@),
    {
        let mut domain: Vec<FieldElement> = Vec::new();
        let mut xi = FieldElement::one();
        let n = self.domain_length as usize;
        let mut i: usize = 0;
        proof {
            lemma_pow0(self.omega.value as int);
            lemma_small_mod(1nat, P as nat);
        }
        while i < n
            invariant
                i <= n,
                self.wf(),
                xi.wf(),
                xi.value == fpow(self.omega.value as int, i as nat),
                domain@.len() == i,
                forall|t: int| 0 <= t < i
                    ==> (#[trigger] domain@[t]).value
                        == fmul(self.offset.value as int,
                            fpow(self.omega.value as int, t as nat)),
                poly_wf(domain@),
            decreases n - i,
        {
            domain.push(self.offset.mul(xi));
            let ghost xi0 = xi.value as int;
            xi = xi.mul(self.omega);
            proof {
                let w = self.omega.value as int;
                lemma_pow_adds(w, i as nat, 1);
                lemma_pow1(w);
                lemma_mul_mod_noop_left(pow(w, i as nat), w, P as int);
                assert(xi.value == fpow(w, (i + 1) as nat));
            }
            i = i + 1;
        }
        domain
    }

    /// Reduce a byte string to an index below `size`: read it as an integer
    /// modulo `P`, then take the remainder.
    pub fn sample_index(byte_array: &[u8], size: usize) -> (r: usize)
        requires
            size >= 1,
        ensures
            r == (int_of_bytes(byte_array@) % (P as nat)) % (size as nat),
            r < size,
    {
        let acc = FieldElement::sample(byte_array);
        (acc.value % (size as u128)) as usize
    }
}

} // verus!

verus! {

/// The FRI fold at position i: with u = alpha / (offset * omega^i), the
/// folded value is (1/2) * ((1 + u) * cw[i] + (1 - u) * cw[half + i]).
pub open spec fn fold_at(cw: Seq<FieldElement>, alpha: int, om: int, off: int, i: int) -> int {
    let half = cw.len() as int / 2;
    let u = fmul(alpha, finv(fmul(off, fpow(om, i as nat))));
    fmul(finv(2), fadd(fmul(fadd(1, u), cw[i].value as int),
        fmul(fsub(1, u), cw[half + i].value as int)))
}

/// One fold round halves the codeword, combining each position with its
/// negation-paired position.
pub open spec fn fold_codeword_spec(cw: Seq<FieldElement>, alpha: int, om: int, off: int)
    -> Seq<FieldElement> {
    Seq::new((cw.len() / 2) as nat, |i: int| fe(fold_at(cw, alpha, om, off, i)))
}

/// Fold consistency: each entry of the folded codeword is exactly the fold
/// relation applied to the paired pre-fold entries at that position. The
/// verifier's colinearity check recomputes precisely this right-hand side.
pub proof fn lemma_fold_consistency(cw: Seq<FieldElement>, alpha: int, om: int, off: int, i: int)
    requires
        0 <= i < cw.len() / 2,
    ensures
        fold_codeword_spec(cw, alpha, om, off)[i].value as int
            == fold_at(cw, alpha, om, off, i),
        fold_at(cw, alpha, om, off, i)
            == fmul(finv(2), fadd(
                fmul(fadd(1, fmul(alpha, finv(fmul(off, fpow(om, i as nat))))),
                    cw[i].value as int),
                fmul(fsub(1, fmul(alpha, finv(fmul(off, fpow(om, i as nat))))),
                    cw[cw.len() as int / 2 + i].value as int))),
{
    lemma_mod_bound(finv(2) * fadd(
        fmul(fadd(1, fmul(alpha, finv(fmul(off, fpow(om, i as nat))))), cw[i].value as int),
        fmul(fsub(1, fmul(alpha, finv(fmul(off, fpow(om, i as nat))))),
            cw[cw.len() as int / 2 + i].value as int)), P as int);
}

/// The challenge residue sampled from a transcript state.
pub open spec fn alpha_of(log: Seq<ObjectV>) -> int {
    (int_of_bytes(stream_challenge(log)) % (P as nat)) as int
}

/// The full commit phase as a function of the starting codeword and
/// transcript: the retained per-round codewords and the final transcript.
/// Each round pushes the Merkle root of the current codeword; every round
/// but the last then folds with the challenge drawn from the transcript;
/// the final codeword itself is pushed last.
pub open spec fn commit_trace(cw: Seq<FieldElement>, log: Seq<ObjectV>, om: int, off: int,
    rounds: nat) -> (Seq<Seq<FieldElement>>, Seq<ObjectV>)
    decreases rounds,
{
    if rounds == 0 {
        (seq![cw], log.push(ObjectV::CodeWordV(cw)))
    } else {
        let root = merkle_root(leaf_hashes(cw));
        let log1 = log.push(ObjectV::MerkleRootV(root));
        if rounds == 1 {
            (seq![cw], log1.push(ObjectV::CodeWordV(cw)))
        } else {
            let alpha = alpha_of(log1);
            let cw1 = fold_codeword_spec(cw, alpha, om, off);
            let rest = commit_trace(cw1, log1, fmul(om, om), fmul(off, off), (rounds - 1) as nat);
            (seq![cw] + rest.0, rest.1)
        }
    }
}

/// Squaring under the modulus doubles the exponent.
pub proof fn lemma_fpow_square(b: int, e: nat)
    ensures
        fmul(fpow(b, e), fpow(b, e)) == fpow(b, 2 * e),
{
    let p = P as int;
    lemma_pow_adds(b, e, e);
    lemma_mul_mod_noop_general(pow(b, e), pow(b, e), p);
}

/// A squared residue's powers track the doubled exponent of the base.
pub proof fn lemma_fpow_pow2_step(b: int, i: nat)
    requires
        0 <= b < P,
    ensures
        fmul(fpow(b, pow2(i)), fpow(b, pow2(i))) == fpow(b, pow2(i + 1)),
{
    lemma_fpow_square(b, pow2(i));
    lemma_pow2_unfold((i + 1) as nat);
}

impl Fri {
    /// The commit phase: per round, push the current codeword's Merkle
    /// root, and (in every round but the last) fold the codeword with the
    /// challenge drawn from the transcript so far, squaring omega and the
    /// offset; finally push the last codeword in the clear. Returns the
    /// retained pre-fold codewords, the final one included.
    #[verifier::rlimit(100)]
    pub fn commit(&self, codeword: &mut Vec<FieldElement>, proof_stream: &mut ProofStream)
        -> (r: Vec<Vec<FieldElement>>)
        requires
            self.wf(),
            poly_wf(old(codeword)@),
            old(codeword)@.len() == self.domain_length,
            self.domain_length <= usize::MAX,
        ensures
            ({
                let tr = commit_trace(old(codeword)@, old(proof_stream).log(),
                    self.omega.value as int, self.offset.value as int, self.rounds());
                &&& r@.map_values(|v: Vec<FieldElement>| v@) == tr.0
                &&& final(proof_stream).log() == tr.1
                &&& final(proof_stream).read_index == old(proof_stream).read_index
                &&& r@.len() >= 1
                &&& final(codeword)@ == r@[r@.len() - 1]@
            }),
    {
        let ghost cw0 = codeword@;
        let ghost log0 = proof_stream.log();
        let ghost om0 = self.omega.value as int;
        let ghost off0 = self.offset.value as int;
        let ghost tr = commit_trace(cw0, log0, om0, off0, self.rounds());
        let one = FieldElement::one();
        let two = FieldElement::new(2);
        let two_inv = two.inverse();
        let mut omega = self.omega;
        let mut offset = self.offset;
        let mut codewords: Vec<Vec<FieldElement>> = Vec::new();
        let num_r = self.num_rounds();
        if num_r == 0 {
            let obj = Object::CodeWord(crate::univariate::clone_fe_vec(codeword));
            proof_stream.push(&obj);
            codewords.push(crate::univariate::clone_fe_vec(codeword));
            proof {
                assert(codewords@.map_values(|v: Vec<FieldElement>| v@) =~= seq![cw0]);
            }
            return codewords;
        }
        let mut r: u128 = 0;
        proof {
            assert(codewords@.map_values(|v: Vec<FieldElement>| v@) =~= tr.0.take(0));
            lemma2_to64();
            assert(pow2(0) == 1);
            assert(self.domain_length as nat / pow2(0) == self.domain_length as nat);
            lemma_pow1(om0);
            lemma_small_mod(self.omega.value as nat, P as nat);
            lemma_pow1(off0);
            lemma_small_mod(self.offset.value as nat, P as nat);
            // at least one round means the entry length clears the bar
            lemma_num_rounds_props(self.domain_length as nat,
                self.expansion_factor as nat, self.num_colinearity_tests as nat);
            assert(self.domain_length as nat / pow2(0) > self.expansion_factor as nat);
        }
        while r < num_r - 1
            invariant
                self.wf(),
                num_r == self.rounds(),
                num_r >= 1,
                r < num_r,
                om0 == self.omega.value as int,
                off0 == self.offset.value as int,
                tr == commit_trace(cw0, log0, om0, off0, self.rounds()),
                omega.wf(),
                offset.wf(),
                omega.value == fpow(om0, pow2(r as nat)),
                offset.value == fpow(off0, pow2(r as nat)),
                one.value == 1,
                two_inv.value == finv(2),
                two_inv.wf(),
                r as int <= tr.0.len(),
                poly_wf(codeword@),
                codeword@.len() >= 2,
                exists|k: nat| codeword@.len() == pow2(k),
                codeword@.len() <= usize::MAX,
                codeword@.len() as nat == self.domain_length as nat / pow2(r as nat),
                codewords@.map_values(|v: Vec<FieldElement>| v@) == tr.0.take(r as int),
                commit_trace(codeword@, proof_stream.log(), omega.value as int,
                    offset.value as int, (num_r - r) as nat) == (tr.0.skip(r as int), tr.1),
                proof_stream.read_index == old(proof_stream).read_index,
            decreases num_r - r,
        {
            let ghost cw_in = codeword@;
            let ghost log_in = proof_stream.log();
            let ghost om_in = omega.value as int;
            let ghost off_in = offset.value as int;
            let ghost rounds_left = (num_r - r) as nat;
            let root = Merkle::commit(codeword);
            let obj = Object::MerkleRoot(root);
            proof_stream.push(&obj);
            let ghost log1 = proof_stream.log();
            proof {
                assert(log1 == log_in.push(ObjectV::MerkleRootV(merkle_root(leaf_hashes(cw_in)))));
            }
            let fs = proof_stream.prover_fiat_shamir();
            let alpha = FieldElement::sample(fs.as_slice());
            proof {
                assert(alpha.value as int == alpha_of(log1));
            }
            codewords.push(crate::univariate::clone_fe_vec(codeword));
            // fold: new[i] = 2^-1 * ((1 + u) old[i] + (1 - u) old[half + i])
            let n = codeword.len();
            let half = n / 2;
            proof {
                lemma2_to64();
                let k = choose|k: nat| codeword@.len() == pow2(k);
                if k == 0 {
                    assert(pow2(0) == 1);
                    assert(false);
                }
                lemma_pow2_unfold(k);
                assert(half == pow2((k - 1) as nat));
                lemma_pow2_pos((k - 1) as nat);
            }
            let mut temp: Vec<FieldElement> = Vec::new();
            let mut i: usize = 0;
            proof {
                lemma_pow0(omega.value as int);
                lemma_small_mod(1nat, P as nat);
            }
            while i < half
                invariant
                    i <= half,
                    n == codeword@.len(),
                    half == n / 2,
                    n >= 2,
                    2 * half == n,
                    poly_wf(codeword@),
                    omega.wf(),
                    offset.wf(),
                    alpha.wf(),
                    one.value == 1,
                    two_inv.value == finv(2),
                    two_inv.wf(),
                    temp@.len() == i,
                    forall|j: int| 0 <= j < i ==> temp@[j]
                        == fold_codeword_spec(codeword@, alpha.value as int,
                            omega.value as int, offset.value as int)[j],
                    crate::univariate::poly_wf(temp@),
                decreases half - i,
            {
                let om_i = omega.pow(i as u128);
                let denom = offset.mul(om_i);
                let u = alpha.div(denom);
                let a = one.add(u).mul(codeword[i]);
                let b = one.sub(u).mul(codeword[half + i]);
                let val = two_inv.mul(a.add(b));
                temp.push(val);
                proof {
                    crate::algebra::lemma_finv_bound(2);
                    assert(val.value == fold_at(codeword@, alpha.value as int,
                        omega.value as int, offset.value as int, i as int));
                }
                i = i + 1;
            }
            proof {
                assert(temp@ =~= fold_codeword_spec(cw_in, alpha.value as int, om_in, off_in));
            }
            *codeword = temp;
            omega = omega.mul(omega);
            offset = offset.mul(offset);
            r = r + 1;
            proof {
                // squared generators track the doubled exponents
                lemma_fpow_pow2_step(om0, (r - 1) as nat);
                lemma_fpow_pow2_step(off0, (r - 1) as nat);
                assert(omega.value == fpow(om0, pow2(r as nat)));
                assert(offset.value == fpow(off0, pow2(r as nat)));
                // the codeword stays well-formed and a power of two long
                let k = choose|k: nat| cw_in.len() == pow2(k);
                lemma_pow2_unfold(k);
                assert(codeword@.len() == pow2((k - 1) as nat));
                assert forall|j: int| 0 <= j < codeword@.len()
                    implies (#[trigger] codeword@[j]).value < P by {
                    lemma_mod_bound(
                        finv(2) * fadd(fmul(fadd(1, fmul(alpha.value as int,
                            finv(fmul(off_in, fpow(om_in, j as nat))))), cw_in[j].value as int),
                            fmul(fsub(1, fmul(alpha.value as int,
                                finv(fmul(off_in, fpow(om_in, j as nat))))),
                                cw_in[cw_in.len() as int / 2 + j].value as int)),
                        P as int);
                }
                // one unfolding of the trace matches what this round did
                assert(rounds_left >= 2);
                let pair = commit_trace(cw_in, log_in, om_in, off_in, rounds_left);
                assert(pair == (tr.0.skip(r - 1), tr.1));
                let rest = commit_trace(codeword@, log1, fmul(om_in, om_in),
                    fmul(off_in, off_in), (rounds_left - 1) as nat);
                assert(pair.0 == seq![cw_in] + rest.0);
                assert(pair.1 == rest.1);
                assert(tr.0.skip(r - 1).first() == cw_in);
                assert(tr.0.skip(r - 1).len() == tr.0.len() - (r - 1));
                assert(tr.0.skip(r - 1).len() >= 1);
                assert(r as int <= tr.0.len());
                assert(rest.0 =~= tr.0.skip(r - 1).drop_first());
                assert(tr.0.skip(r - 1).drop_first() =~= tr.0.skip(r as int)) by {
                    assert(forall|i: int| 0 <= i < tr.0.len() - r
                        ==> tr.0.skip(r - 1).drop_first()[i] == tr.0.skip(r - 1)[i + 1]
                            && #[trigger] tr.0.skip(r as int)[i] == tr.0[r + i]
                            && tr.0.skip(r - 1)[i + 1] == tr.0[r + i]);
                }
                assert(fmul(om_in, om_in) == omega.value as int);
                assert(fmul(off_in, off_in) == offset.value as int);
                assert(commit_trace(codeword@, proof_stream.log(), omega.value as int,
                    offset.value as int, (num_r - r) as nat) == (tr.0.skip(r as int), tr.1));
                // the collected codewords are the trace prefix
                assert(tr.0.take(r as int).drop_last() =~= tr.0.take(r - 1));
                assert(codewords@.map_values(|v: Vec<FieldElement>| v@)
                    =~= tr.0.take(r as int));
                // length bookkeeping for the next round
                lemma_pow2_pos((r - 1) as nat);
                lemma_div_denominator(self.domain_length as int,
                    pow2((r - 1) as nat) as int, 2);
                lemma_pow2_unfold(r as nat);
                assert(pow2((r - 1) as nat) * 2 == pow2(r as nat)) by (nonlinear_arith)
                    requires pow2(r as nat) == 2 * pow2((r - 1) as nat),
                ;
                assert(codeword@.len() as nat
                    == self.domain_length as nat / pow2(r as nat));
                // the halved length still clears the expansion factor
                lemma_num_rounds_props(self.domain_length as nat,
                    self.expansion_factor as nat, self.num_colinearity_tests as nat);
                assert((r as nat) < self.rounds());
                assert(self.domain_length as nat / pow2(r as nat)
                    > self.expansion_factor as nat);
                assert(codeword@.len() >= 2);
            }
        }
        // last round: push the root, then the final codeword in the clear
        let ghost cw_fin = codeword@;
        let ghost log_fin = proof_stream.log();
        let root = Merkle::commit(codeword);
        let obj = Object::MerkleRoot(root);
        proof_stream.push(&obj);
        let obj2 = Object::CodeWord(crate::univariate::clone_fe_vec(codeword));
        proof_stream.push(&obj2);
        let ghost cws_pre = codewords@;
        codewords.push(crate::univariate::clone_fe_vec(codeword));
        proof {
            assert(r == num_r - 1);
            let pair = commit_trace(cw_fin, log_fin, omega.value as int,
                offset.value as int, 1);
            assert(pair == (tr.0.skip(r as int), tr.1));
            assert(pair.1 == log_fin.push(ObjectV::MerkleRootV(merkle_root(leaf_hashes(cw_fin))))
                .push(ObjectV::CodeWordV(cw_fin)));
            assert(proof_stream.log() == tr.1);
            assert(tr.0.skip(r as int) == seq![cw_fin]);
            assert(tr.0.skip(r as int).len() == tr.0.len() - r);
            assert(tr.0.len() == r + 1);
            assert(tr.0.skip(r as int)[0] == tr.0[r as int]);
            assert(tr.0[r as int] == cw_fin);
            assert(codewords@ == cws_pre.push(codewords@[codewords@.len() - 1]));
            assert(codewords@[codewords@.len() - 1]@ == cw_fin);
            assert(codewords@.map_values(|v: Vec<FieldElement>| v@) =~= tr.0) by {
                assert(cws_pre.map_values(|v: Vec<FieldElement>| v@) == tr.0.take(r as int));
                assert forall|i: int| 0 <= i < codewords@.len()
                    implies codewords@.map_values(|v: Vec<FieldElement>| v@)[i] == tr.0[i] by {
                    if i < r {
                        assert(codewords@[i] == cws_pre[i]);
                        assert(cws_pre.map_values(|v: Vec<FieldElement>| v@)[i]
                            == tr.0.take(r as int)[i]);
                    } else {
                        assert(codewords@[i]@ == cw_fin);
                    }
                }
            }
        }
        codewords
    }
}

} // verus!

verus! {

/// The index drawn from hashing `seed || counter`, reduced into the domain.
pub open spec fn index_from(seed: Seq<u8>, counter: nat, size: nat) -> nat {
    (int_of_bytes(digest_of(seed + u128_be_bytes(counter as u128))) % (P as nat)) % size
}

/// The deterministic index-sampling loop: expand the seed with an
/// incrementing counter, reduce each draw into the domain, and keep it only
/// when its residue modulo the final codeword length is new; the counter is
/// bounded by the given fuel.
pub open spec fn sample_indices_rec(seed: Seq<u8>, size: nat, reduced_size: nat, number: nat,
    counter: nat, fuel: nat, acc: Seq<usize>, racc: Seq<usize>) -> Seq<usize>
    decreases fuel,
{
    if fuel == 0 || acc.len() >= number {
        acc
    } else {
        let idx = index_from(seed, counter, size);
        let ridx = idx % reduced_size;
        if racc.contains(ridx as usize) {
            sample_indices_rec(seed, size, reduced_size, number, counter + 1,
                (fuel - 1) as nat, acc, racc)
        } else {
            sample_indices_rec(seed, size, reduced_size, number, counter + 1,
                (fuel - 1) as nat, acc.push(idx as usize), racc.push(ridx as usize))
        }
    }
}

/// The sampled indices for a seed, with the fixed counter budget.
pub open spec fn sample_indices_spec(seed: Seq<u8>, size: nat, reduced_size: nat,
    number: nat) -> Seq<usize> {
    sample_indices_rec(seed, size, reduced_size, number, 0, 1048576, Seq::empty(), Seq::empty())
}

/// Membership test on an index vector.
fn contains_usize(v: &Vec<usize>, x: usize) -> (r: bool)
    ensures
        r == v@.contains(x),
{
    let mut i: usize = 0;
    while i < v.len()
        invariant
            i <= v@.len(),
            forall|t: int| 0 <= t < i ==> v@[t] != x,
        decreases v@.len() - i,
    {
        if v[i] == x {
            proof {
                assert(v@[i as int] == x);
            }
            return true;
        }
        i = i + 1;
    }
    proof {
        if v@.contains(x) {
            let w = choose|w: int| 0 <= w < v@.len() && v@[w] == x;
            assert(false);
        }
    }
    false
}

/// Append a byte slice.
fn append_slice(out: &mut Vec<u8>, b: &[u8])
    ensures
        final(out)@ == old(out)@ + b@,
{
    let mut i: usize = 0;
    while i < b.len()
        invariant
            i <= b@.len(),
            out@ == old(out)@ + b@.take(i as int),
        decreases b@.len() - i,
    {
        out.push(b[i]);
        proof {
            assert(old(out)@ + b@.take(i as int) + seq![b@[i as int]]
                =~= old(out)@ + b@.take(i + 1));
        }
        i = i + 1;
    }
    proof {
        assert(old(out)@ + b@.take(b@.len() as int) =~= old(out)@ + b@);
    }
}

impl Fri {
    /// Deterministically expand a seed into up to `number` indices below
    /// `size` whose residues modulo `reduced_size` are pairwise distinct.
    /// The counter is bounded: with an unaxiomatized digest no bound can
    /// force enough distinct residues, so fewer than `number` indices can
    /// come back in principle (astronomically improbable at runtime, and
    /// the verifier rejects a short index set).
    #[verifier::rlimit(60)]
    pub fn sample_indeices(&self, seed: &[u8], size: usize, reduced_size: usize,
        number: usize) -> (r: Vec<usize>)
        requires
            size >= 1,
            reduced_size >= 1,
            number <= reduced_size,
        ensures
            r@ == sample_indices_spec(seed@, size as nat, reduced_size as nat, number as nat),
            r@.len() <= number,
            forall|i: int| 0 <= i < r@.len() ==> r@[i] < size,
            forall|i: int, j: int| 0 <= i < j < r@.len()
                ==> r@[i] as int % (reduced_size as int) != r@[j] as int % (reduced_size as int),
    {
        let ghost sz = size as nat;
        let ghost rs = reduced_size as nat;
        let ghost nb = number as nat;
        let mut indices: Vec<usize> = Vec::new();
        let mut reduced_indices: Vec<usize> = Vec::new();
        let mut counter: u64 = 0;
        while indices.len() < number && counter < 1048576
            invariant
                sz == size as nat,
                rs == reduced_size as nat,
                nb == number as nat,
                size >= 1,
                reduced_size >= 1,
                counter <= 1048576,
                indices@.len() == reduced_indices@.len(),
                indices@.len() <= number,
                sample_indices_spec(seed@, sz, rs, nb)
                    == sample_indices_rec(seed@, sz, rs, nb, counter as nat,
                        (1048576 - counter) as nat, indices@, reduced_indices@),
                forall|i: int| 0 <= i < indices@.len() ==> (#[trigger] indices@[i]) < size,
                forall|i: int| 0 <= i < indices@.len()
                    ==> (#[trigger] reduced_indices@[i]) as int
                        == indices@[i] as int % (reduced_size as int),
                forall|i: int, j: int| 0 <= i < j < reduced_indices@.len()
                    ==> reduced_indices@[i] != reduced_indices@[j],
            decreases 1048576 - counter,
        {
            let ghost acc0 = indices@;
            let ghost racc0 = reduced_indices@;
            let ghost counter0 = counter as nat;
            let mut bytes: Vec<u8> = Vec::new();
            append_slice(&mut bytes, seed);
            let cb = be_bytes_u128(counter as u128);
            proof {
                assert(counter0 as u128 == counter as u128);
                assert(cb@ == u128_be_bytes(counter0 as u128));
            }
            let mut j: usize = 0;
            while j < cb.len()
                invariant
                    j <= cb@.len(),
                    bytes@ == seed@ + cb@.take(j as int),
                    cb@ == u128_be_bytes(counter0 as u128),
                decreases cb@.len() - j,
            {
                bytes.push(cb[j]);
                proof {
                    assert(seed@ + cb@.take(j as int) + seq![cb@[j as int]]
                        =~= seed@ + cb@.take(j + 1));
                }
                j = j + 1;
            }
            proof {
                assert(seed@ + cb@.take(cb@.len() as int) =~= seed@ + cb@);
            }
            let digest = keccak256(bytes.as_slice());
            proof {
                assert(bytes@ == seed@ + u128_be_bytes(counter0 as u128));
            }
            let index = Fri::sample_index(digest.as_slice(), size);
            let reduced_index = index % reduced_size;
            proof {
                assert(digest@ == digest_of(seed@ + u128_be_bytes(counter0 as u128)));
                assert(index as nat == index_from(seed@, counter0, sz));
            }
            counter = counter + 1;
            if !contains_usize(&reduced_indices, reduced_index) {
                indices.push(index);
                reduced_indices.push(reduced_index);
            }
            proof {
                // one unfolding of the sampling recursion matches this step
                let fuel0 = (1048576 - counter0) as nat;
                assert(sample_indices_rec(seed@, sz, rs, nb, counter0, fuel0, acc0, racc0)
                    == sample_indices_rec(seed@, sz, rs, nb, counter0 + 1,
                        (fuel0 - 1) as nat,
                        if racc0.contains(reduced_index) { acc0 } else { acc0.push(index) },
                        if racc0.contains(reduced_index) { racc0 } else {
                            racc0.push(reduced_index)
                        }));
            }
        }
        proof {
            assert(sample_indices_rec(seed@, sz, rs, nb, counter as nat,
                (1048576 - counter) as nat, indices@, reduced_indices@) == indices@);
            assert forall|i: int, j: int| 0 <= i < j < indices@.len()
                implies indices@[i] as int % (reduced_size as int)
                    != indices@[j] as int % (reduced_size as int) by {
                assert(reduced_indices@[i] != reduced_indices@[j]);
                assert(reduced_indices@[i] as int
                    == indices@[i] as int % (reduced_size as int));
                assert(reduced_indices@[j] as int
                    == indices@[j] as int % (reduced_size as int));
            }
        }
        indices
    }
}

} // verus!

verus! {

/// The colinearity triples revealed for the first `s` indices of a round.
pub open spec fn query_triples(cur: Seq<FieldElement>, next: Seq<FieldElement>,
    idxs: Seq<usize>, s: nat) -> Seq<ObjectV>
    decreases s,
{
    if s == 0 {
        Seq::empty()
    } else {
        let half = cur.len() as int / 2;
        let i = idxs[s - 1] as int;
        query_triples(cur, next, idxs, (s - 1) as nat).push(
            ObjectV::ColinearityTestV((cur[i], cur[half + i], next[i])))
    }
}

/// The three authentication paths revealed for each of the first `s`
/// indices of a round.
pub open spec fn query_paths(cur: Seq<FieldElement>, next: Seq<FieldElement>,
    idxs: Seq<usize>, s: nat) -> Seq<ObjectV>
    decreases s,
{
    if s == 0 {
        Seq::empty()
    } else {
        let half = cur.len() as int / 2;
        let i = idxs[s - 1] as int;
        query_paths(cur, next, idxs, (s - 1) as nat)
            + seq![
                ObjectV::MerklePathV(merkle_open_spec(leaf_hashes(cur), i)),
                ObjectV::MerklePathV(merkle_open_spec(leaf_hashes(cur), half + i)),
                ObjectV::MerklePathV(merkle_open_spec(leaf_hashes(next), i)),
            ]
    }
}

/// Everything one query round pushes: all triples, then all paths.
pub open spec fn query_objs(cur: Seq<FieldElement>, next: Seq<FieldElement>,
    idxs: Seq<usize>) -> Seq<ObjectV> {
    query_triples(cur, next, idxs, idxs.len())
        + query_paths(cur, next, idxs, idxs.len())
}

/// Indices reduced into a half-domain of size m.
pub open spec fn reduce_indices(idxs: Seq<usize>, m: int) -> Seq<usize> {
    Seq::new(idxs.len(), |s: int| ((idxs[s] as int) % m) as usize)
}

/// The whole query phase over consecutive committed rounds: reduce the
/// incoming indices into the current half-domain, reveal that round, and
/// continue with the reduced indices.
pub open spec fn prove_query_trace(cws: Seq<Seq<FieldElement>>, idxs: Seq<usize>)
    -> Seq<ObjectV>
    decreases cws.len(),
{
    if cws.len() <= 1 {
        Seq::empty()
    } else {
        let half = cws[0].len() as int / 2;
        let ridx = reduce_indices(idxs, half);
        query_objs(cws[0], cws[1], ridx)
            + prove_query_trace(cws.drop_first(), ridx)
    }
}

/// Shape of the commit trace: one retained codeword per round (at least
/// one), each half the length of the one before, all reduced.
pub proof fn lemma_commit_trace_props(cw: Seq<FieldElement>, log: Seq<ObjectV>,
    om: int, off: int, rounds: nat)
    requires
        poly_wf(cw),
    ensures
        ({
            let tr = commit_trace(cw, log, om, off, rounds);
            &&& tr.0.len() == if rounds == 0 { 1nat } else { rounds }
            &&& tr.0[0] == cw
            &&& forall|i: int| 0 <= i < tr.0.len() ==> poly_wf(#[trigger] tr.0[i])
            &&& forall|i: int| 0 <= i < tr.0.len()
                ==> (#[trigger] tr.0[i]).len() as nat == cw.len() as nat / pow2(i as nat)
        }),
    decreases rounds,
{
    let tr = commit_trace(cw, log, om, off, rounds);
    lemma2_to64();
    assert(pow2(0) == 1);
    if rounds <= 1 {
        assert(tr.0 == seq![cw]);
        assert(cw.len() as nat / pow2(0) == cw.len());
    } else {
        let root = merkle_root(leaf_hashes(cw));
        let log1 = log.push(ObjectV::MerkleRootV(root));
        let alpha = alpha_of(log1);
        let cw1 = fold_codeword_spec(cw, alpha, om, off);
        assert(poly_wf(cw1)) by {
            assert forall|j: int| 0 <= j < cw1.len()
                implies (#[trigger] cw1[j]).value < P by {
                lemma_mod_bound(
                    finv(2) * fadd(fmul(fadd(1, fmul(alpha,
                        finv(fmul(off, fpow(om, j as nat))))), cw[j].value as int),
                        fmul(fsub(1, fmul(alpha,
                            finv(fmul(off, fpow(om, j as nat))))),
                            cw[cw.len() as int / 2 + j].value as int)),
                    P as int);
            }
        }
        lemma_commit_trace_props(cw1, log1, fmul(om, om), fmul(off, off),
            (rounds - 1) as nat);
        let rest = commit_trace(cw1, log1, fmul(om, om), fmul(off, off), (rounds - 1) as nat);
        assert(tr.0 == seq![cw] + rest.0);
        assert forall|i: int| 0 <= i < tr.0.len()
            implies (#[trigger] tr.0[i]).len() as nat
                == cw.len() as nat / pow2(i as nat) by {
            if i == 0 {
            } else {
                assert(tr.0[i] == rest.0[i - 1]);
                assert(rest.0[i - 1].len() as nat == cw1.len() as nat / pow2((i - 1) as nat));
                assert(cw1.len() == cw.len() as nat / 2);
                lemma_pow2_pos((i - 1) as nat);
                lemma_div_denominator(cw.len() as int, 2, pow2((i - 1) as nat) as int);
                lemma_pow2_unfold(i as nat);
            }
        }
        assert forall|i: int| 0 <= i < tr.0.len()
            implies poly_wf(#[trigger] tr.0[i]) by {
            if i == 0 {
            } else {
                assert(tr.0[i] == rest.0[i - 1]);
            }
        }
    }
}

impl Fri {
    /// One query round: reveal the colinearity triple at each sampled
    /// index, then the three authentication paths that bind the revealed
    /// values to the two rounds' committed roots.
    pub fn query(&self, current_codeword: &Vec<FieldElement>, next_codeword: &Vec<FieldElement>,
        c_indices: Vec<usize>, proof_stream: &mut ProofStream) -> (r: Vec<usize>)
        requires
            poly_wf(current_codeword@),
            poly_wf(next_codeword@),
            current_codeword@.len() >= 4,
            next_codeword@.len() == current_codeword@.len() / 2,
            exists|k: nat| current_codeword@.len() == pow2(k),
            exists|k: nat| next_codeword@.len() == pow2(k),
            forall|s: int| 0 <= s < c_indices@.len()
                ==> (#[trigger] c_indices@[s]) < current_codeword@.len() / 2,
        ensures
            final(proof_stream).log() == old(proof_stream).log()
                + query_objs(current_codeword@, next_codeword@, c_indices@),
            final(proof_stream).read_index == old(proof_stream).read_index,
            r@.len() == 2 * c_indices@.len(),
            forall|s: int| 0 <= s < c_indices@.len()
                ==> r@[s] == c_indices@[s]
                    && r@[c_indices@.len() + s]
                        == c_indices@[s] + current_codeword@.len() / 2,
    {
        let ghost log0 = proof_stream.log();
        let ghost cur = current_codeword@;
        let ghost nxt = next_codeword@;
        let ghost idxs = c_indices@;
        let half = current_codeword.len() / 2;
        let count = c_indices.len();
        // reveal leafs
        let mut s: usize = 0;
        proof {
            assert(log0 + query_triples(cur, nxt, idxs, 0) =~= log0);
        }
        while s < count
            invariant
                s <= count,
                count == idxs.len(),
                cur == current_codeword@,
                nxt == next_codeword@,
                idxs == c_indices@,
                half == cur.len() as int / 2,
                half + half <= cur.len(),
                cur.len() <= usize::MAX,
                nxt.len() == half,
                forall|j: int| 0 <= j < idxs.len() ==> (#[trigger] idxs[j]) < half,
                proof_stream.log() == log0 + query_triples(cur, nxt, idxs, s as nat),
                proof_stream.read_index == old(proof_stream).read_index,
            decreases count - s,
        {
            let a = current_codeword[c_indices[s]];
            let b = current_codeword[c_indices[s] + half];
            let c = next_codeword[c_indices[s]];
            let obj = Object::ColinearityTest((a, b, c));
            proof_stream.push(&obj);
            proof {
                assert(proof_stream.log()
                    =~= log0 + query_triples(cur, nxt, idxs, (s + 1) as nat));
            }
            s = s + 1;
        }
        // reveal authentication paths
        let ghost log1 = proof_stream.log();
        let mut s2: usize = 0;
        proof {
            assert(log1 + query_paths(cur, nxt, idxs, 0) =~= log1);
        }
        while s2 < count
            invariant
                s2 <= count,
                count == idxs.len(),
                cur == current_codeword@,
                nxt == next_codeword@,
                idxs == c_indices@,
                half == cur.len() as int / 2,
                half + half <= cur.len(),
                cur.len() <= usize::MAX,
                nxt.len() == half,
                cur.len() >= 4,
                poly_wf(cur),
                poly_wf(nxt),
                exists|k: nat| cur.len() == pow2(k),
                exists|k: nat| nxt.len() == pow2(k),
                forall|j: int| 0 <= j < idxs.len() ==> (#[trigger] idxs[j]) < half,
                proof_stream.log() == log1 + query_paths(cur, nxt, idxs, s2 as nat),
                proof_stream.read_index == old(proof_stream).read_index,
            decreases count - s2,
        {
            let p1 = Merkle::open(c_indices[s2], current_codeword);
            let o1 = Object::MerklePath(p1);
            proof_stream.push(&o1);
            let p2 = Merkle::open(c_indices[s2] + half, current_codeword);
            let o2 = Object::MerklePath(p2);
            proof_stream.push(&o2);
            proof {
                // the next codeword is at least two long, so it can be opened
                let k = choose|k: nat| nxt.len() == pow2(k);
                if k == 0 {
                    lemma2_to64();
                    assert(pow2(0) == 1);
                    assert(false);
                }
            }
            let p3 = Merkle::open(c_indices[s2], next_codeword);
            let o3 = Object::MerklePath(p3);
            proof_stream.push(&o3);
            proof {
                assert(proof_stream.log()
                    =~= log1 + query_paths(cur, nxt, idxs, (s2 + 1) as nat));
            }
            s2 = s2 + 1;
        }
        // the opened positions, for the caller's bookkeeping
        let mut out: Vec<usize> = Vec::new();
        let mut u: usize = 0;
        while u < count
            invariant
                u <= count,
                count == idxs.len(),
                idxs == c_indices@,
                half == cur.len() as int / 2,
                forall|j: int| 0 <= j < idxs.len() ==> (#[trigger] idxs[j]) < half,
                out@.len() == u,
                forall|j: int| 0 <= j < u ==> out@[j] == idxs[j],
            decreases count - u,
        {
            out.push(c_indices[u]);
            u = u + 1;
        }
        let mut u2: usize = 0;
        while u2 < count
            invariant
                u2 <= count,
                count == idxs.len(),
                idxs == c_indices@,
                half == cur.len() as int / 2,
                half + half <= cur.len(),
                cur.len() <= usize::MAX,
                forall|j: int| 0 <= j < idxs.len() ==> (#[trigger] idxs[j]) < half,
                out@.len() == count + u2,
                forall|j: int| 0 <= j < count ==> out@[j] == idxs[j],
                forall|j: int| 0 <= j < u2 ==> out@[count + j] == idxs[j] + half,
            decreases count - u2,
        {
            out.push(c_indices[u2] + half);
            u2 = u2 + 1;
        }
        proof {
            assert(proof_stream.log() =~= log0 + query_objs(cur, nxt, idxs));
        }
        out
    }
}

} // verus!

verus! {

/// A by-hand copy of an index vector.
fn clone_usize_vec(v: &Vec<usize>) -> (r: Vec<usize>)
    ensures
        r@ == v@,
{
    let mut r: Vec<usize> = Vec::new();
    let mut i: usize = 0;
    while i < v.len()
        invariant
            i <= v@.len(),
            r@ == v@.take(i as int),
        decreases v@.len() - i,
    {
        r.push(v[i]);
        proof {
            assert(r@ =~= v@.take(i + 1));
        }
        i = i + 1;
    }
    proof {
        assert(v@.take(v@.len() as int) =~= v@);
    }
    r
}

impl Fri {
    /// The prover: run the commit phase, derive the top-level query indices
    /// from the transcript, then reveal each pair of consecutive rounds at
    /// those indices (reduced into each round's half-domain). Returns the
    /// top-level indices for the surrounding protocol layer; like the
    /// sampler it relies on, it can in principle return fewer than the
    /// configured count (see `sample_indeices`).
    #[verifier::rlimit(100)]
    pub fn prove(&self, codeword: &mut Vec<FieldElement>, proof_stream: &mut ProofStream)
        -> (r: Vec<usize>)
        requires
            self.wf(),
            poly_wf(old(codeword)@),
            old(codeword)@.len() == self.domain_length,
            self.domain_length <= usize::MAX,
            self.num_colinearity_tests <= usize::MAX,
            self.rounds() >= 2,
        ensures
            ({
                let tr = commit_trace(old(codeword)@, old(proof_stream).log(),
                    self.omega.value as int, self.offset.value as int, self.rounds());
                let top = sample_indices_spec(stream_challenge(tr.1),
                    self.domain_length as nat / 2,
                    self.domain_length as nat / pow2((self.rounds() - 1) as nat),
                    self.num_colinearity_tests as nat);
                &&& r@ == top
                &&& final(proof_stream).log() == tr.1 + prove_query_trace(tr.0, r@)
                &&& final(proof_stream).read_index == old(proof_stream).read_index
            }),
    {
        let ghost cw0 = codeword@;
        let ghost log0 = proof_stream.log();
        let ghost om0 = self.omega.value as int;
        let ghost off0 = self.offset.value as int;
        let ghost R = self.rounds();
        let ghost tr = commit_trace(cw0, log0, om0, off0, R);
        let ghost dl = self.domain_length as nat;
        let ghost e = self.expansion_factor as nat;
        let ghost t = self.num_colinearity_tests as nat;

        // commit phase
        let codewords = self.commit(codeword, proof_stream);
        proof {
            lemma_commit_trace_props(cw0, log0, om0, off0, R);
            lemma_num_rounds_props(dl, e, t);
            lemma2_to64();
            assert(pow2(1) == 2);
            assert(codewords@.len() == R);
            assert(codewords@[1]@ == tr.0[1]);
            assert(tr.0[1].len() as nat == dl / pow2(1));
        }

        // derive the top-level indices
        let fs = proof_stream.prover_fiat_shamir();
        let size1 = codewords[1].len();
        let last = codewords.len() - 1;
        let last_len = codewords[last].len();
        let t_us = self.num_colinearity_tests as usize;
        proof {
            assert(codewords@[last as int]@ == tr.0[R - 1]);
            assert(last_len as nat == dl / pow2((R - 1) as nat));
            assert(((R - 1) as nat) < R);
            assert(4 * t < dl / pow2((R - 1) as nat));
            assert(dl / pow2(1) > e);
        }
        let top_level_indices = self.sample_indeices(fs.as_slice(), size1, last_len, t_us);
        let ghost top = top_level_indices@;
        let ghost log1 = proof_stream.log();

        // query phase, one round pair at a time
        let mut indices = clone_usize_vec(&top_level_indices);
        let count = codewords.len();
        let mut i: usize = 0;
        proof {
            assert(tr.0.skip(0) =~= tr.0);
        }
        while i < count - 1
            invariant
                self.wf(),
                count == codewords@.len(),
                count == R,
                R == self.rounds(),
                R >= 2,
                i < count,
                dl == self.domain_length,
                e == self.expansion_factor,
                t == self.num_colinearity_tests,
                tr == commit_trace(cw0, log0, om0, off0, R),
                tr.0.len() == count,
                forall|j: int| 0 <= j < count ==> (#[trigger] codewords@[j])@ == tr.0[j],
                forall|j: int| 0 <= j < count ==> poly_wf(#[trigger] tr.0[j]),
                forall|j: int| 0 <= j < count
                    ==> (#[trigger] tr.0[j]).len() as nat == dl / pow2(j as nat),
                exists|k: nat| dl == pow2(k),
                dl <= usize::MAX,
                proof_stream.log() + prove_query_trace(tr.0.skip(i as int), indices@)
                    == log1 + prove_query_trace(tr.0, top),
                proof_stream.read_index == old(proof_stream).read_index,
            decreases count - 1 - i,
        {
            let ghost idx_in = indices@;
            let ghost log_in = proof_stream.log();
            let cur_len = codewords[i].len();
            let half = cur_len / 2;
            proof {
                lemma_num_rounds_props(dl, e, t);
                assert((i as nat) < R);
                assert(dl / pow2(i as nat) > e);
                assert(cur_len >= 2);
            }
            // reduce the indices into this round's half-domain
            let mut reduced: Vec<usize> = Vec::new();
            let mut j: usize = 0;
            while j < indices.len()
                invariant
                    j <= indices@.len(),
                    half >= 1,
                    reduced@.len() == j,
                    forall|s: int| 0 <= s < j
                        ==> (#[trigger] reduced@[s]) as int == indices@[s] as int % (half as int),
                decreases indices@.len() - j,
            {
                reduced.push(indices[j] % half);
                j = j + 1;
            }
            proof {
                assert(reduced@ =~= reduce_indices(idx_in, half as int));
            }
            let reduced_copy = clone_usize_vec(&reduced);
            // query requirements: lengths, shapes and index bounds
            proof {
                let k = choose|k: nat| dl == pow2(k);
                assert(tr.0[i as int].len() as nat == dl / pow2(i as nat));
                assert(dl / pow2(i as nat) >= 1);
                lemma_pow2_pos(i as nat);
                lemma_pow2_pos((i + 1) as nat);
                // pow2(i) divides dl, so the quotients are powers of two
                assert(pow2(i as nat) <= dl) by {
                    vstd::arithmetic::div_mod::lemma_div_pos_is_pos(dl as int, pow2(i as nat) as int);
                    if pow2(i as nat) > dl {
                        lemma_basic_div(dl as int, pow2(i as nat) as int);
                        assert(dl / pow2(i as nat) == 0);
                    }
                }
                assert((i as nat) <= k) by {
                    if (i as nat) > k {
                        lemma_pow2_strictly_increases(k, i as nat);
                    }
                }
                vstd::arithmetic::power2::lemma_pow2_subtracts(i as nat, k);
                assert(tr.0[i as int].len() as nat == pow2((k - i) as nat));
                assert(4 * t < dl / pow2(i as nat));
                assert(tr.0[i as int].len() >= 4);
                // the next round's length is half this one's
                assert(tr.0[i + 1].len() as nat == dl / pow2((i + 1) as nat));
                lemma_div_denominator(dl as int, pow2(i as nat) as int, 2);
                lemma_pow2_unfold((i + 1) as nat);
                assert(pow2(i as nat) * 2 == pow2((i + 1) as nat)) by (nonlinear_arith)
                    requires pow2((i + 1) as nat) == 2 * pow2(i as nat),
                ;
                assert(dl / pow2((i + 1) as nat) == (dl / pow2(i as nat)) / 2);
                assert((i + 1) as nat <= k) by {
                    assert(dl / pow2((i + 1) as nat) >= 1) by {
                        assert(((i + 1) as nat) < R || (i + 1) as nat == R);
                        if ((i + 1) as nat) < R {
                            assert(dl / pow2((i + 1) as nat) > e);
                        } else {
                            assert(tr.0[i + 1].len() as nat == dl / pow2((i + 1) as nat));
                            assert(4 * t < dl / pow2(((R - 1)) as nat));
                        }
                    }
                    vstd::arithmetic::div_mod::lemma_div_pos_is_pos(dl as int,
                        pow2((i + 1) as nat) as int);
                    if ((i + 1) as nat) > k {
                        lemma_pow2_strictly_increases(k, (i + 1) as nat);
                        lemma_basic_div(dl as int, pow2((i + 1) as nat) as int);
                    }
                }
                vstd::arithmetic::power2::lemma_pow2_subtracts((i + 1) as nat, k);
                assert(tr.0[i + 1].len() as nat == pow2((k - i - 1) as nat));
            }
            self.query(&codewords[i], &codewords[i + 1], reduced_copy, proof_stream);
            indices = reduced;
            proof {
                // one unfolding of the query trace matches this round
                let rem = tr.0.skip(i as int);
                assert(rem.len() == count - i);
                assert(rem[0] == tr.0[i as int]);
                assert(rem[1] == tr.0[i + 1]);
                assert(rem[0] == codewords@[i as int]@);
                assert(prove_query_trace(rem, idx_in)
                    == query_objs(rem[0], rem[1], reduce_indices(idx_in, rem[0].len() as int / 2))
                        + prove_query_trace(rem.drop_first(),
                            reduce_indices(idx_in, rem[0].len() as int / 2)));
                assert(rem.drop_first() =~= tr.0.skip(i + 1));
                assert(half as int == rem[0].len() as int / 2);
                assert(proof_stream.log()
                    == log_in + query_objs(tr.0[i as int], tr.0[i + 1], indices@));
            }
            i = i + 1;
        }
        proof {
            assert(tr.0.skip(count - 1).len() == 1);
            assert(prove_query_trace(tr.0.skip(count - 1), indices@) == Seq::<ObjectV>::empty());
            assert(proof_stream.log() + Seq::<ObjectV>::empty() =~= proof_stream.log());
            assert(proof_stream.log() == log1 + prove_query_trace(tr.0, top));
        }
        top_level_indices
    }
}

} // verus!

verus! {

/// The root bytes held by a Merkle-root message (empty for other kinds).
pub open spec fn root_of(o: ObjectV) -> Seq<u8> {
    match o {
        ObjectV::MerkleRootV(d) => d,
        _ => Seq::empty(),
    }
}

/// The codeword held by a codeword message (empty for other kinds).
pub open spec fn codeword_of(o: ObjectV) -> Seq<FieldElement> {
    match o {
        ObjectV::CodeWordV(s) => s,
        _ => Seq::empty(),
    }
}

/// The triple held by a colinearity-test message.
pub open spec fn triple_of(o: ObjectV) -> (FieldElement, FieldElement, FieldElement) {
    match o {
        ObjectV::ColinearityTestV(t) => t,
        _ => (fe(0), fe(0), fe(0)),
    }
}

/// The path held by a Merkle-path message (empty for other kinds).
pub open spec fn path_of(o: ObjectV) -> Seq<Seq<u8>> {
    match o {
        ObjectV::MerklePathV(p) => p,
        _ => Seq::empty(),
    }
}

/// A top-level index reduced into round i's half-domain, one halving at a
/// time, exactly as both prover and verifier walk it.
pub open spec fn red_idx(x: int, dl: nat, i: nat) -> int
    decreases i,
{
    if i == 0 {
        x % (dl as int / pow2(1) as int)
    } else {
        red_idx(x, dl, (i - 1) as nat) % (dl as int / pow2((i + 1) as nat) as int)
    }
}

/// The colinearity half of one query check: the revealed triple at round i,
/// test s, is well-typed, reduced, and satisfies the fold relation under
/// that round's challenge.
pub open spec fn round_triple_check(cfg: Fri, log: Seq<ObjectV>, start: int,
    idxs: Seq<usize>, i: int, s: int) -> bool {
    let dl = cfg.domain_length as nat;
    let rr = cfg.rounds() as int;
    let t = cfg.num_colinearity_tests as int;
    let tripos = start + rr + 1 + i * (4 * t) + s;
    let trip = triple_of(log[tripos]);
    let a_i = red_idx(idxs[s] as int, dl, i as nat);
    let alpha_i = alpha_of(log.take(start + i + 1));
    let om_i = fpow(cfg.omega.value as int, pow2(i as nat));
    let off_i = fpow(cfg.offset.value as int, pow2(i as nat));
    let u = fmul(alpha_i, finv(fmul(off_i, fpow(om_i, a_i as nat))));
    &&& log[tripos] is ColinearityTestV
    &&& trip.0.wf()
    &&& trip.1.wf()
    &&& trip.2.wf()
    &&& trip.2.value as int == fmul(finv(2), fadd(fmul(fadd(1, u), trip.0.value as int),
        fmul(fsub(1, u), trip.1.value as int)))
}

/// The Merkle half of one query check: the three revealed paths at round i,
/// test s, bind the triple's values to the two rounds' committed roots.
pub open spec fn round_paths_check(cfg: Fri, log: Seq<ObjectV>, start: int,
    idxs: Seq<usize>, i: int, s: int) -> bool {
    let dl = cfg.domain_length as nat;
    let rr = cfg.rounds() as int;
    let t = cfg.num_colinearity_tests as int;
    let tripos = start + rr + 1 + i * (4 * t) + s;
    let papos = start + rr + 1 + i * (4 * t) + t + 3 * s;
    let trip = triple_of(log[tripos]);
    let a_i = red_idx(idxs[s] as int, dl, i as nat);
    let b_i = a_i + dl as int / pow2((i + 1) as nat) as int;
    &&& log[papos] is MerklePathV
    &&& log[papos + 1] is MerklePathV
    &&& log[papos + 2] is MerklePathV
    &&& merkle_path_root(leaf_hash(trip.0), a_i, path_of(log[papos]))
        == root_of(log[start + i])
    &&& merkle_path_root(leaf_hash(trip.1), b_i, path_of(log[papos + 1]))
        == root_of(log[start + i])
    &&& merkle_path_root(leaf_hash(trip.2), a_i, path_of(log[papos + 2]))
        == root_of(log[start + i + 1])
}

/// The index sequence that the verifier derives for a transcript.
pub open spec fn accepts_idxs(cfg: Fri, log: Seq<ObjectV>, start: int) -> Seq<usize> {
    sample_indices_spec(stream_challenge(log.take(start + cfg.rounds() + 1)),
        cfg.domain_length as nat / 2,
        cfg.domain_length as nat / pow2((cfg.rounds() - 1) as nat),
        cfg.num_colinearity_tests as nat)
}

/// The full FRI verification predicate over a transcript, reading from the
/// cursor position `start`: every round's root is present; the final
/// codeword is revealed, well-formed, of the expected length, and matches
/// the last root; the sampling yields a full set of indices; and every
/// query check passes in every round.
pub open spec fn fri_accepts(cfg: Fri, log: Seq<ObjectV>, start: int) -> bool {
    let dl = cfg.domain_length as nat;
    let rr = cfg.rounds() as int;
    let t = cfg.num_colinearity_tests as int;
    let last_len = dl / pow2((rr - 1) as nat);
    let idxs = accepts_idxs(cfg, log, start);
    &&& log.len() >= start + rr + 1 + (rr - 1) * (4 * t)
    &&& (forall|i: int| 0 <= i < rr ==> (#[trigger] log[start + i]) is MerkleRootV)
    &&& log[start + rr] is CodeWordV
    &&& codeword_of(log[start + rr]).len() == last_len
    &&& poly_wf(codeword_of(log[start + rr]))
    &&& root_of(log[start + rr - 1])
        == merkle_root(leaf_hashes(codeword_of(log[start + rr])))
    &&& idxs.len() == t
    &&& (forall|i: int, s: int| 0 <= i < rr - 1 && 0 <= s < t
        ==> #[trigger] round_triple_check(cfg, log, start, idxs, i, s))
    &&& (forall|i: int, s: int| 0 <= i < rr - 1 && 0 <= s < t
        ==> #[trigger] round_paths_check(cfg, log, start, idxs, i, s))
}

/// A failed colinearity check at any round and test refutes acceptance.
pub proof fn lemma_reject_from_triple(cfg: Fri, log: Seq<ObjectV>, start: int, i: int, s: int)
    requires
        0 <= i < cfg.rounds() - 1,
        0 <= s < cfg.num_colinearity_tests,
        !round_triple_check(cfg, log, start, accepts_idxs(cfg, log, start), i, s),
    ensures
        !fri_accepts(cfg, log, start),
{
    if fri_accepts(cfg, log, start) {
        assert(round_triple_check(cfg, log, start, accepts_idxs(cfg, log, start), i, s));
    }
}

/// A failed path check at any round and test refutes acceptance.
pub proof fn lemma_reject_from_paths(cfg: Fri, log: Seq<ObjectV>, start: int, i: int, s: int)
    requires
        0 <= i < cfg.rounds() - 1,
        0 <= s < cfg.num_colinearity_tests,
        !round_paths_check(cfg, log, start, accepts_idxs(cfg, log, start), i, s),
    ensures
        !fri_accepts(cfg, log, start),
{
    if fri_accepts(cfg, log, start) {
        assert(round_paths_check(cfg, log, start, accepts_idxs(cfg, log, start), i, s));
    }
}

} // verus!

verus! {

/// Whether every element of the vector is a reduced residue.
fn all_reduced(v: &Vec<FieldElement>) -> (r: bool)
    ensures
        r == poly_wf(v@),
{
    let mut i: usize = 0;
    while i < v.len()
        invariant
            i <= v@.len(),
            forall|j: int| 0 <= j < i ==> (#[trigger] v@[j]).value < P,
        decreases v@.len() - i,
    {
        if v[i].value >= crate::algebra::P {
            proof {
                assert(!poly_wf(v@));
            }
            return false;
        }
        i = i + 1;
    }
    true
}

impl Fri {
    /// The verifier: replay the transcript from the cursor. Pull each
    /// round's root and rederive its challenge, pull the final codeword and
    /// check it against the last root, rederive the query indices, and for
    /// every round check each revealed triple against the fold relation and
    /// each of its three Merkle paths against the committed roots. Accepts
    /// exactly when every check passes.
    #[verifier::rlimit(100)]
    pub fn verify(&self, proof_stream: &mut ProofStream) -> (r: bool)
        requires
            self.wf(),
            self.rounds() >= 2,
            self.domain_length <= usize::MAX,
            self.num_colinearity_tests <= usize::MAX,
            old(proof_stream).read_index <= old(proof_stream).log().len(),
        ensures
            final(proof_stream).log() == old(proof_stream).log(),
            r == fri_accepts(*self, old(proof_stream).log(),
                old(proof_stream).read_index as int),
    {
        let ghost log0 = proof_stream.log();
        let ghost start = proof_stream.read_index as int;
        let ghost dl = self.domain_length as nat;
        let ghost e = self.expansion_factor as nat;
        let ghost tg = self.num_colinearity_tests as nat;
        let ghost rr = self.rounds();
        let ghost om0 = self.omega.value as int;
        let ghost off0 = self.offset.value as int;
        let ghost total = start + rr + 1 + (rr - 1) * (4 * tg);
        let num_r = self.num_rounds();
        let t_us = self.num_colinearity_tests as usize;
        proof {
            lemma_num_rounds_props(dl, e, tg);
            // the number of rounds is below 128, so it fits a usize
            let k = choose|k: nat| dl == pow2(k);
            assert(dl / pow2((rr - 1) as nat) > e);
            lemma_pow2_pos((rr - 1) as nat);
            if pow2((rr - 1) as nat) > dl {
                lemma_basic_div(dl as int, pow2((rr - 1) as nat) as int);
            }
            assert(pow2((rr - 1) as nat) <= dl);
            if ((rr - 1) as nat) > k {
                lemma_pow2_strictly_increases(k, (rr - 1) as nat);
            }
            lemma_pow2_adds(64, 64);
            lemma2_to64();
            if k >= 128 {
                if k > 128 {
                    lemma_pow2_strictly_increases(128, k);
                }
                assert(pow2(128) <= pow2(k));
                assert(pow2(128) == pow2(64) * pow2(64));
                assert(false);
            }
            assert(rr <= 128);
            // the query block count is nonnegative
            assert((rr - 1) * (4 * tg) >= 4) by (nonlinear_arith)
                requires rr >= 2, tg >= 1,
            ;
        }
        let num_r_us = num_r as usize;

        // pull every round's root, rederiving its challenge
        let mut roots: Vec<[u8; 32]> = Vec::new();
        let mut alphas: Vec<FieldElement> = Vec::new();
        let mut ri: usize = 0;
        while ri < num_r_us
            invariant
                self.wf(),
                num_r_us == rr,
                rr == self.rounds(),
                rr >= 2,
                tg == self.num_colinearity_tests,
                dl == self.domain_length,
                e == self.expansion_factor,
                total == start + rr + 1 + (rr - 1) * (4 * tg),
                (rr - 1) * (4 * tg) >= 4,
                ri <= num_r_us,
                proof_stream.log() == log0,
                log0 == old(proof_stream).log(),
                start == old(proof_stream).read_index,
                proof_stream.read_index == start + ri,
                proof_stream.read_index <= log0.len(),
                roots@.len() == ri,
                alphas@.len() == ri,
                forall|j: int| 0 <= j < ri ==> (#[trigger] log0[start + j]) is MerkleRootV,
                forall|j: int| 0 <= j < ri
                    ==> (#[trigger] roots@[j])@ == root_of(log0[start + j]),
                forall|j: int| 0 <= j < ri
                    ==> (#[trigger] alphas@[j]).value as int
                        == alpha_of(log0.take(start + j + 1)) && alphas@[j].wf(),
            decreases num_r_us - ri,
        {
            if proof_stream.read_index >= proof_stream.objects.len() {
                proof {
                    assert(proof_stream.objects@.len() == log0.len());
                    assert(log0.len() == start + ri);
                    assert(log0.len() < total);
                    assert(!fri_accepts(*self, log0, start));
                }
                return false;
            }
            let obj = proof_stream.pull();
            let ghost ov = obj_view(obj);
            proof {
                assert(ov == log0[start + ri]);
            }
            match obj {
                Object::MerkleRoot(d) => {
                    roots.push(d);
                },
                _ => {
                    proof {
                        assert(!(ov is MerkleRootV));
                        assert(!fri_accepts(*self, log0, start));
                    }
                    return false;
                },
            }
            let fsd = proof_stream.verifier_fiat_shamir();
            let alpha = FieldElement::sample(fsd.as_slice());
            alphas.push(alpha);
            ri = ri + 1;
        }

        // pull the final codeword
        if proof_stream.read_index >= proof_stream.objects.len() {
            proof {
                assert(proof_stream.objects@.len() == log0.len());
                assert(log0.len() == start + rr);
                assert(log0.len() < total);
                assert(!fri_accepts(*self, log0, start));
            }
            return false;
        }
        let obj = proof_stream.pull();
        let ghost ov = obj_view(obj);
        proof {
            assert(ov == log0[start + rr]);
        }
        let last_codeword = match obj {
            Object::CodeWord(lc) => lc,
            _ => {
                proof {
                    assert(!(ov is CodeWordV));
                    assert(!fri_accepts(*self, log0, start));
                }
                return false;
            },
        };
        proof {
            assert(ov == ObjectV::CodeWordV(last_codeword@));
            assert(codeword_of(log0[start + rr]) == last_codeword@);
        }

        // the expected final length: the domain halved once per fold
        let mut last_len: usize = self.domain_length as usize;
        let mut hj: usize = 0;
        proof {
            lemma2_to64();
            assert(dl / pow2(0) == dl);
        }
        while hj < num_r_us - 1
            invariant
                hj <= num_r_us - 1,
                num_r_us == rr,
                dl == self.domain_length,
                last_len as nat == dl / pow2(hj as nat),
            decreases num_r_us - 1 - hj,
        {
            let ghost h0 = hj as nat;
            last_len = last_len / 2;
            hj = hj + 1;
            proof {
                lemma_pow2_pos(h0);
                lemma_div_denominator(dl as int, pow2(h0) as int, 2);
                lemma_pow2_unfold((h0 + 1) as nat);
                assert(pow2(h0) * 2 == pow2((h0 + 1) as nat)) by (nonlinear_arith)
                    requires pow2((h0 + 1) as nat) == 2 * pow2(h0),
                ;
            }
        }
        proof {
            lemma_num_rounds_props(dl, e, tg);
            assert(last_len as nat == dl / pow2((rr - 1) as nat));
            assert(last_len as nat > e);
        }
        if last_codeword.len() != last_len {
            proof {
                assert(!fri_accepts(*self, log0, start));
            }
            return false;
        }
        // the codeword must hold reduced residues
        if !all_reduced(&last_codeword) {
            proof {
                assert(!fri_accepts(*self, log0, start));
            }
            return false;
        }

        // the last root must commit to the final codeword
        proof {
            let k = choose|k: nat| dl == pow2(k);
            lemma_pow2_pos((rr - 1) as nat);
            if pow2((rr - 1) as nat) > dl {
                lemma_basic_div(dl as int, pow2((rr - 1) as nat) as int);
            }
            if ((rr - 1) as nat) > k {
                lemma_pow2_strictly_increases(k, (rr - 1) as nat);
            }
            vstd::arithmetic::power2::lemma_pow2_subtracts((rr - 1) as nat, k);
            assert(last_codeword@.len() == pow2((k - (rr - 1)) as nat));
        }
        let recomputed = Merkle::commit(&last_codeword);
        if !crate::merkle::eq32(&recomputed, &roots[num_r_us - 1]) {
            proof {
                assert(roots@[rr - 1]@ == root_of(log0[start + rr - 1]));
                assert(!fri_accepts(*self, log0, start));
            }
            return false;
        }

        // rederive the query indices from the replayed transcript
        let fsd = proof_stream.verifier_fiat_shamir();
        let size1 = (self.domain_length / 2) as usize;
        proof {
            lemma2_to64();
            assert(pow2(1) == 2);
            assert(dl / 2 > e);
            assert(4 * tg < dl / pow2((rr - 1) as nat));
        }
        let top = self.sample_indeices(fsd.as_slice(), size1, last_len, t_us);
        let ghost idxs = accepts_idxs(*self, log0, start);
        proof {
            assert(top@ == idxs);
        }
        if top.len() != t_us {
            proof {
                assert(!fri_accepts(*self, log0, start));
            }
            return false;
        }

        // check every round's triples and paths
        let one = FieldElement::one();
        let two = FieldElement::new(2);
        let two_inv = two.inverse();
        let mut omega_i = self.omega;
        let mut offset_i = self.offset;
        let mut cur_len: usize = self.domain_length as usize;
        let mut indices = clone_usize_vec(&top);
        let mut i: usize = 0;
        proof {
            lemma_pow1(om0);
            lemma_pow1(off0);
            lemma_small_mod(self.omega.value as nat, P as nat);
            lemma_small_mod(self.offset.value as nat, P as nat);
            assert(pow2(0) == 1);
            assert(dl / pow2(0) == dl);
        }
        while i < num_r_us - 1
            invariant
                self.wf(),
                num_r_us == rr,
                rr >= 2,
                i <= num_r_us - 1,
                rr == self.rounds(),
                tg == self.num_colinearity_tests,
                t_us == tg,
                dl == self.domain_length,
                dl <= usize::MAX,
                e == self.expansion_factor,
                om0 == self.omega.value as int,
                off0 == self.offset.value as int,
                total == start + rr + 1 + (rr - 1) * (4 * tg),
                proof_stream.log() == log0,
                log0 == old(proof_stream).log(),
                start == old(proof_stream).read_index,
                proof_stream.read_index == start + rr + 1 + i * (4 * tg),
                proof_stream.read_index <= log0.len(),
                idxs == accepts_idxs(*self, log0, start),
                idxs.len() == tg,
                log0[start + rr] is CodeWordV,
                codeword_of(log0[start + rr]).len() == dl / pow2((rr - 1) as nat),
                poly_wf(codeword_of(log0[start + rr])),
                root_of(log0[start + rr - 1])
                    == merkle_root(leaf_hashes(codeword_of(log0[start + rr]))),
                roots@.len() == rr,
                alphas@.len() == rr,
                forall|j: int| 0 <= j < rr ==> (#[trigger] log0[start + j]) is MerkleRootV,
                forall|j: int| 0 <= j < rr
                    ==> (#[trigger] roots@[j])@ == root_of(log0[start + j]),
                forall|j: int| 0 <= j < rr
                    ==> (#[trigger] alphas@[j]).value as int
                        == alpha_of(log0.take(start + j + 1)) && alphas@[j].wf(),
                one.value == 1,
                two_inv.value == finv(2),
                two_inv.wf(),
                omega_i.wf(),
                offset_i.wf(),
                omega_i.value == fpow(om0, pow2(i as nat)),
                offset_i.value == fpow(off0, pow2(i as nat)),
                cur_len as nat == dl / pow2(i as nat),
                indices@.len() == tg,
                forall|s: int| 0 <= s < tg
                    ==> (#[trigger] indices@[s]) as int
                        == if i == 0 { idxs[s] as int } else {
                            red_idx(idxs[s] as int, dl, (i - 1) as nat)
                        },
                forall|ip: int, s: int| 0 <= ip < i && 0 <= s < tg
                    ==> #[trigger] round_triple_check(*self, log0, start, idxs, ip, s),
                forall|ip: int, s: int| 0 <= ip < i && 0 <= s < tg
                    ==> #[trigger] round_paths_check(*self, log0, start, idxs, ip, s),
            decreases num_r_us - 1 - i,
        {
            let ghost base = start + rr + 1 + i * (4 * tg);
            proof {
                lemma_num_rounds_props(dl, e, tg);
                assert(dl / pow2(i as nat) > e);
                assert(4 * tg < dl / pow2(i as nat));
                // this round's block stays inside the message budget
                assert((i + 1) * (4 * tg) <= (rr - 1) * (4 * tg)) by (nonlinear_arith)
                    requires i + 1 <= rr - 1, 4 * tg >= 0,
                ;
                assert((i + 1) * (4 * tg) == i * (4 * tg) + 4 * tg) by (nonlinear_arith);
                assert(base + 4 * tg <= total);
            }
            let half = cur_len / 2;
            proof {
                let h0 = i as nat;
                lemma_pow2_pos(h0);
                lemma_div_denominator(dl as int, pow2(h0) as int, 2);
                lemma_pow2_unfold((h0 + 1) as nat);
                assert(pow2(h0) * 2 == pow2((h0 + 1) as nat)) by (nonlinear_arith)
                    requires pow2((h0 + 1) as nat) == 2 * pow2(h0),
                ;
                assert(half as nat == dl / pow2((i + 1) as nat));
                assert(((i + 1) as nat) < rr || (i + 1) as nat == (rr - 1) as nat + 1);
                assert(half >= 1) by {
                    assert(((i + 1) as nat) <= (rr - 1) as nat);
                    if ((i + 1) as nat) < rr {
                        assert(dl / pow2((i + 1) as nat) > e);
                    }
                }
            }
            // reduce the incoming indices into this round's half-domain
            let mut reduced: Vec<usize> = Vec::new();
            let mut sj: usize = 0;
            while sj < indices.len()
                invariant
                    sj <= indices@.len(),
                    half >= 1,
                    reduced@.len() == sj,
                    forall|s: int| 0 <= s < sj
                        ==> (#[trigger] reduced@[s]) as int
                            == indices@[s] as int % (half as int),
                    forall|s: int| 0 <= s < sj ==> (#[trigger] reduced@[s]) < half,
                decreases indices@.len() - sj,
            {
                reduced.push(indices[sj] % half);
                sj = sj + 1;
            }
            proof {
                assert forall|s: int| 0 <= s < tg
                    implies (#[trigger] reduced@[s]) as int
                        == red_idx(idxs[s] as int, dl, i as nat) by {
                    lemma2_to64();
                    if i == 0 {
                        assert(reduced@[s] as int == idxs[s] as int % (dl as int / pow2(1) as int));
                    } else {
                        assert(reduced@[s] as int
                            == red_idx(idxs[s] as int, dl, (i - 1) as nat)
                                % (dl as int / pow2((i + 1) as nat) as int));
                    }
                }
            }
            // colinearity triples
            let mut trips: Vec<(FieldElement, FieldElement, FieldElement)> = Vec::new();
            let mut s: usize = 0;
            while s < t_us
                invariant
                    self.wf(),
                    s <= t_us,
                    t_us == tg,
                    tg >= 1,
                    num_r_us == rr,
                    rr == self.rounds(),
                    rr >= 2,
                    i < num_r_us - 1,
                    dl == self.domain_length,
                    e == self.expansion_factor,
                    tg == self.num_colinearity_tests,
                    om0 == self.omega.value as int,
                    off0 == self.offset.value as int,
                    total == start + rr + 1 + (rr - 1) * (4 * tg),
                    base == start + rr + 1 + i * (4 * tg),
                    base + 4 * tg <= total,
                    proof_stream.log() == log0,
                    log0 == old(proof_stream).log(),
                    start == old(proof_stream).read_index,
                    proof_stream.read_index == base + s,
                    proof_stream.read_index <= log0.len(),
                    idxs == accepts_idxs(*self, log0, start),
                    idxs.len() == tg,
                    one.value == 1,
                    two_inv.value == finv(2),
                    two_inv.wf(),
                    omega_i.wf(),
                    offset_i.wf(),
                    omega_i.value == fpow(om0, pow2(i as nat)),
                    offset_i.value == fpow(off0, pow2(i as nat)),
                    alphas@.len() == rr,
                    forall|j: int| 0 <= j < rr
                        ==> (#[trigger] alphas@[j]).value as int
                            == alpha_of(log0.take(start + j + 1)) && alphas@[j].wf(),
                    reduced@.len() == tg,
                    forall|sp: int| 0 <= sp < tg
                        ==> (#[trigger] reduced@[sp]) as int
                            == red_idx(idxs[sp] as int, dl, i as nat),
                    trips@.len() == s,
                    forall|sp: int| 0 <= sp < s
                        ==> #[trigger] round_triple_check(*self, log0, start, idxs, i as int, sp),
                    forall|sp: int| 0 <= sp < s
                        ==> (#[trigger] trips@[sp])
                            == triple_of(log0[base + sp]),
                    forall|ip: int, sp: int| 0 <= ip < i && 0 <= sp < tg
                        ==> #[trigger] round_triple_check(*self, log0, start, idxs, ip, sp),
                    forall|ip: int, sp: int| 0 <= ip < i && 0 <= sp < tg
                        ==> #[trigger] round_paths_check(*self, log0, start, idxs, ip, sp),
                decreases t_us - s,
            {
                if proof_stream.read_index >= proof_stream.objects.len() {
                    proof {
                        assert(proof_stream.objects@.len() == log0.len());
                        assert(log0.len() == base + s);
                        assert(log0.len() < total);
                        assert(!fri_accepts(*self, log0, start));
                    }
                    return false;
                }
                let obj = proof_stream.pull();
                let ghost ov = obj_view(obj);
                proof {
                    assert(ov == log0[base + s]);
                }
                let trip = match obj {
                    Object::ColinearityTest(tr3) => tr3,
                    _ => {
                        proof {
                            assert(!(ov is ColinearityTestV));
                            assert(!round_triple_check(*self, log0, start, idxs, i as int, s as int));
                            lemma_reject_from_triple(*self, log0, start, i as int, s as int);
                        }
                        return false;
                    },
                };
                proof {
                    assert(ov == ObjectV::ColinearityTestV(trip));
                    assert(triple_of(log0[base + s]) == trip);
                }
                let (ay, by, cy) = trip;
                if ay.value >= crate::algebra::P || by.value >= crate::algebra::P
                    || cy.value >= crate::algebra::P {
                    proof {
                        assert(!round_triple_check(*self, log0, start, idxs, i as int, s as int));
                        lemma_reject_from_triple(*self, log0, start, i as int, s as int);
                    }
                    return false;
                }
                // recompute the fold relation at this index
                let a_idx = reduced[s];
                let alpha = alphas[i];
                let om_pow = omega_i.pow(a_idx as u128);
                let denom = offset_i.mul(om_pow);
                let u = alpha.div(denom);
                let expected = two_inv.mul(one.add(u).mul(ay).add(one.sub(u).mul(by)));
                proof {
                    crate::algebra::lemma_finv_bound(2);
                    assert(expected.value as int
                        == fmul(finv(2), fadd(
                            fmul(fadd(1, fmul(alpha.value as int,
                                finv(fmul(offset_i.value as int,
                                    fpow(omega_i.value as int, a_idx as nat))))),
                                ay.value as int),
                            fmul(fsub(1, fmul(alpha.value as int,
                                finv(fmul(offset_i.value as int,
                                    fpow(omega_i.value as int, a_idx as nat))))),
                                by.value as int))));
                }
                if cy.value != expected.value {
                    proof {
                        assert(!round_triple_check(*self, log0, start, idxs, i as int, s as int));
                        lemma_reject_from_triple(*self, log0, start, i as int, s as int);
                    }
                    return false;
                }
                trips.push(trip);
                proof {
                    assert(round_triple_check(*self, log0, start, idxs, i as int, s as int));
                }
                s = s + 1;
            }
            // authentication paths
            let mut s2: usize = 0;
            while s2 < t_us
                invariant
                    self.wf(),
                    s2 <= t_us,
                    t_us == tg,
                    tg >= 1,
                    num_r_us == rr,
                    rr == self.rounds(),
                    rr >= 2,
                    i < num_r_us - 1,
                    dl == self.domain_length,
                    dl <= usize::MAX,
                    tg == self.num_colinearity_tests,
                    total == start + rr + 1 + (rr - 1) * (4 * tg),
                    base == start + rr + 1 + i * (4 * tg),
                    base + 4 * tg <= total,
                    proof_stream.log() == log0,
                    log0 == old(proof_stream).log(),
                    start == old(proof_stream).read_index,
                    proof_stream.read_index == base + tg + 3 * s2,
                    proof_stream.read_index <= log0.len(),
                    idxs == accepts_idxs(*self, log0, start),
                    idxs.len() == tg,
                    cur_len as nat == dl / pow2(i as nat),
                    half as nat == dl / pow2((i + 1) as nat),
                    half == cur_len / 2,
                    half + half <= cur_len,
                    cur_len <= usize::MAX,
                    roots@.len() == rr,
                    forall|j: int| 0 <= j < rr
                        ==> (#[trigger] roots@[j])@ == root_of(log0[start + j]),
                    reduced@.len() == tg,
                    forall|sp: int| 0 <= sp < tg
                        ==> (#[trigger] reduced@[sp]) as int
                            == red_idx(idxs[sp] as int, dl, i as nat),
                    forall|sp: int| 0 <= sp < tg ==> (#[trigger] reduced@[sp]) < half,
                    trips@.len() == tg,
                    forall|sp: int| 0 <= sp < tg
                        ==> (#[trigger] trips@[sp]) == triple_of(log0[base + sp]),
                    forall|sp: int| 0 <= sp < tg
                        ==> #[trigger] round_triple_check(*self, log0, start, idxs, i as int, sp),
                    forall|sp: int| 0 <= sp < s2
                        ==> #[trigger] round_paths_check(*self, log0, start, idxs, i as int, sp),
                    forall|ip: int, sp: int| 0 <= ip < i && 0 <= sp < tg
                        ==> #[trigger] round_triple_check(*self, log0, start, idxs, ip, sp),
                    forall|ip: int, sp: int| 0 <= ip < i && 0 <= sp < tg
                        ==> #[trigger] round_paths_check(*self, log0, start, idxs, ip, sp),
                decreases t_us - s2,
            {
                let ghost papos = base + tg + 3 * s2;
                if proof_stream.read_index >= proof_stream.objects.len() {
                    proof {
                        assert(proof_stream.objects@.len() == log0.len());
                        assert(log0.len() < total);
                        assert(!fri_accepts(*self, log0, start));
                    }
                    return false;
                }
                let obj1 = proof_stream.pull();
                let ghost ov1 = obj_view(obj1);
                let p1 = match obj1 {
                    Object::MerklePath(p) => p,
                    _ => {
                        proof {
                            assert(!(ov1 is MerklePathV));
                            assert(!round_paths_check(*self, log0, start, idxs, i as int, s2 as int));
                            lemma_reject_from_paths(*self, log0, start, i as int, s2 as int);
                        }
                        return false;
                    },
                };
                if proof_stream.read_index >= proof_stream.objects.len() {
                    proof {
                        assert(proof_stream.objects@.len() == log0.len());
                        assert(log0.len() < total);
                        assert(!fri_accepts(*self, log0, start));
                    }
                    return false;
                }
                let obj2 = proof_stream.pull();
                let ghost ov2 = obj_view(obj2);
                let p2 = match obj2 {
                    Object::MerklePath(p) => p,
                    _ => {
                        proof {
                            assert(!(ov2 is MerklePathV));
                            assert(!round_paths_check(*self, log0, start, idxs, i as int, s2 as int));
                            lemma_reject_from_paths(*self, log0, start, i as int, s2 as int);
                        }
                        return false;
                    },
                };
                if proof_stream.read_index >= proof_stream.objects.len() {
                    proof {
                        assert(proof_stream.objects@.len() == log0.len());
                        assert(log0.len() < total);
                        assert(!fri_accepts(*self, log0, start));
                    }
                    return false;
                }
                let obj3 = proof_stream.pull();
                let ghost ov3 = obj_view(obj3);
                let p3 = match obj3 {
                    Object::MerklePath(p) => p,
                    _ => {
                        proof {
                            assert(!(ov3 is MerklePathV));
                            assert(!round_paths_check(*self, log0, start, idxs, i as int, s2 as int));
                            lemma_reject_from_paths(*self, log0, start, i as int, s2 as int);
                        }
                        return false;
                    },
                };
                let trip = trips[s2];
                let a_idx = reduced[s2];
                let ok1 = Merkle::verify(roots[i], a_idx, p1, trip.0);
                if !ok1 {
                    proof {
                        assert(!round_paths_check(*self, log0, start, idxs, i as int, s2 as int));
                        lemma_reject_from_paths(*self, log0, start, i as int, s2 as int);
                    }
                    return false;
                }
                let ok2 = Merkle::verify(roots[i], a_idx + half, p2, trip.1);
                if !ok2 {
                    proof {
                        assert(!round_paths_check(*self, log0, start, idxs, i as int, s2 as int));
                        lemma_reject_from_paths(*self, log0, start, i as int, s2 as int);
                    }
                    return false;
                }
                let ok3 = Merkle::verify(roots[i + 1], a_idx, p3, trip.2);
                if !ok3 {
                    proof {
                        assert(!round_paths_check(*self, log0, start, idxs, i as int, s2 as int));
                        lemma_reject_from_paths(*self, log0, start, i as int, s2 as int);
                    }
                    return false;
                }
                proof {
                    assert(round_paths_check(*self, log0, start, idxs, i as int, s2 as int));
                }
                s2 = s2 + 1;
            }
            // square the generators and halve the domain for the next round
            omega_i = omega_i.mul(omega_i);
            offset_i = offset_i.mul(offset_i);
            cur_len = half;
            indices = reduced;
            i = i + 1;
            proof {
                lemma_fpow_pow2_step(om0, (i - 1) as nat);
                lemma_fpow_pow2_step(off0, (i - 1) as nat);
                assert((i) * (4 * tg) == (i - 1) * (4 * tg) + 4 * tg) by (nonlinear_arith);
                assert forall|ip: int, sp: int| 0 <= ip < i && 0 <= sp < tg
                    implies #[trigger] round_triple_check(*self, log0, start, idxs, ip, sp) by {
                    if ip == i - 1 {
                        assert(round_triple_check(*self, log0, start, idxs, ip, sp));
                    }
                }
                assert forall|ip: int, sp: int| 0 <= ip < i && 0 <= sp < tg
                    implies #[trigger] round_paths_check(*self, log0, start, idxs, ip, sp) by {
                    if ip == i - 1 {
                        assert(round_paths_check(*self, log0, start, idxs, ip, sp));
                    }
                }
            }
        }
        proof {
            assert(i == rr - 1);
            assert(proof_stream.read_index == total);
            assert(log0.len() >= total);
            assert forall|ip: int, sp: int| 0 <= ip < rr - 1
                && 0 <= sp < self.num_colinearity_tests
                implies #[trigger] round_triple_check(*self, log0, start,
                    accepts_idxs(*self, log0, start), ip, sp) by {
                assert(round_triple_check(*self, log0, start, idxs, ip, sp));
            }
            assert forall|ip: int, sp: int| 0 <= ip < rr - 1
                && 0 <= sp < self.num_colinearity_tests
                implies #[trigger] round_paths_check(*self, log0, start,
                    accepts_idxs(*self, log0, start), ip, sp) by {
                assert(round_paths_check(*self, log0, start, idxs, ip, sp));
            }
            assert(fri_accepts(*self, log0, start));
        }
        true
    }
}

} // verus!
