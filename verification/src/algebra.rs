//! Prime-field arithmetic: residues modulo the fixed 128-bit prime `P`.
use vstd::prelude::*;
use vstd::arithmetic::div_mod::{
    lemma_small_mod, lemma_mod_add_multiples_vanish, lemma_mod_bound,
    lemma_add_mod_noop, lemma_add_mod_noop_right, lemma_mul_mod_noop_left,
    lemma_mul_mod_noop_right, lemma_mul_mod_noop_general,
    lemma_fundamental_div_mod, lemma_mod_self_0, lemma_sub_mod_noop,
    lemma_sub_mod_noop_right,
};
use vstd::arithmetic::mul::{
    lemma_mul_is_distributive_add, lemma_mul_is_associative, lemma_mul_is_commutative,
};
use vstd::arithmetic::power::{
    pow, lemma_pow0, lemma_pow1, lemma_pow_adds, lemma_pow_multiplies,
    lemma_square_is_pow2, lemma_pow_mod_noop,
};
use vstd::arithmetic::power2::{
    pow2, lemma_pow2_unfold, lemma_pow2_adds, lemma_pow2_strictly_increases,
    lemma2_to64, lemma2_to64_rest,
};

verus! {

/// The field modulus: 1 + 407 * 2^119.
pub const P: u128 = 270497897142230380135924736767050121217;

/// Sum in the field, on raw residues.
pub open spec fn fadd(a: int, b: int) -> int {
    (a + b) % (P as int)
}

/// Difference in the field, on raw residues.
pub open spec fn fsub(a: int, b: int) -> int {
    (a - b) % (P as int)
}

/// Product in the field, on raw residues.
pub open spec fn fmul(a: int, b: int) -> int {
    (a * b) % (P as int)
}

/// Additive inverse in the field, on raw residues.
pub open spec fn fneg(a: int) -> int {
    (P - a) % (P as int)
}

/// Whether the residue `x` has a multiplicative inverse modulo `P`.
pub open spec fn invertible(x: int) -> bool {
    exists|y: int| 0 <= y < P && #[trigger] ((x * y) % (P as int)) == 1
}

/// The multiplicative inverse of `x` modulo `P`, or 0 where none exists
/// (in particular for x == 0).
pub closed spec fn finv(x: int) -> int {
    if invertible(x) {
        choose|y: int| 0 <= y < P && #[trigger] ((x * y) % (P as int)) == 1
    } else {
        0
    }
}

/// Quotient in the field: multiplication by the inverse of the divisor.
pub open spec fn fdiv(a: int, b: int) -> int {
    fmul(a, finv(b))
}

/// Exponentiation in the field, on raw residues.
pub open spec fn fpow(b: int, e: nat) -> int {
    pow(b, e) % (P as int)
}

/// The byte string read as a big-endian integer.
pub open spec fn int_of_bytes(s: Seq<u8>) -> nat
    decreases s.len(),
{
    if s.len() == 0 {
        0
    } else {
        int_of_bytes(s.drop_last()) * 256 + s.last() as nat
    }
}

/// The fixed generator of the multiplicative group, of order 2^119.
pub const GENERATOR: u128 = 85408008396924667383611388730472331217;

/// Powers of two are monotone in the exponent.
pub proof fn lemma_pow2_le(e1: nat, e2: nat)
    requires
        e1 <= e2,
    ensures
        pow2(e1) <= pow2(e2),
{
    if e1 < e2 {
        lemma_pow2_strictly_increases(e1, e2);
    }
}

pub proof fn lemma_finv_works(x: int)
    requires
        invertible(x),
    ensures
        0 <= finv(x) < P,
        (x * finv(x)) % (P as int) == 1,
{
    let y = choose|y: int| 0 <= y < P && #[trigger] ((x * y) % (P as int)) == 1;
    assert(finv(x) == y);
}

pub proof fn lemma_finv_bound(x: int)
    ensures
        0 <= finv(x) < P,
{
    if invertible(x) {
        lemma_finv_works(x);
    }
}

pub proof fn lemma_finv_nonzero_works(x: int)
    requires
        finv(x) != 0,
    ensures
        invertible(x),
        (x * finv(x)) % (P as int) == 1,
{
    lemma_finv_works(x);
}

/// A residue below `P` with `x * y % P == 1` is unique, and therefore equal
/// to `finv(x)`.
pub proof fn lemma_inverse_unique(x: int, y: int)
    requires
        0 <= y < P,
        (x * y) % (P as int) == 1,
    ensures
        y == finv(x),
{
    let p = P as int;
    let y2 = finv(x);
    lemma_finv_works(x);
    // y == y * ((x * y2) % P) % P == (y * (x * y2)) % P == ((x * y) * y2) % P
    //   == ((x * y) % P * y2) % P == y2 % P == y2
    lemma_small_mod(y as nat, P as nat);
    lemma_small_mod(y2 as nat, P as nat);
    lemma_mul_mod_noop_right(y, x * y2, p);
    lemma_mul_is_associative(y, x, y2);
    lemma_mul_is_commutative(y, x);
    lemma_mul_mod_noop_left(x * y, y2, p);
    assert((y * (x * y2)) == ((x * y) * y2));
    assert(y == ((x * y) % p * y2) % p);
}

/// A residue in [0, P). Every constructed value is reduced modulo `P`.
#[derive(Clone, Copy, PartialEq, Eq, Structural, Debug)]
pub struct FieldElement {
    pub value: u128,
}

/// Sum of two raw residues, reduced; the branch keeps every intermediate
/// below `u128::MAX`.
fn add_mod(a: u128, b: u128) -> (r: u128)
    requires
        a < P,
        b < P,
    ensures
        r < P,
        r == fadd(a as int, b as int),
{
    let gap = P - a;
    if gap <= b {
        let v = b - gap;
        proof {
            lemma_mod_add_multiples_vanish(v as int, P as int);
            lemma_small_mod(v as nat, P as nat);
        }
        v
    } else {
        let v = a + b;
        proof {
            lemma_small_mod(v as nat, P as nat);
        }
        v
    }
}

/// Difference of two raw residues, reduced.
fn sub_mod(a: u128, b: u128) -> (r: u128)
    requires
        a < P,
        b < P,
    ensures
        r < P,
        r == fsub(a as int, b as int),
{
    if b > a {
        let v = P - (b - a);
        proof {
            lemma_mod_add_multiples_vanish(a - b, P as int);
            lemma_small_mod(v as nat, P as nat);
        }
        v
    } else {
        let v = a - b;
        proof {
            lemma_small_mod(v as nat, P as nat);
        }
        v
    }
}

/// Product of two raw residues, reduced: double-and-add so that no
/// intermediate exceeds `u128`.
#[verifier::rlimit(60)]
fn mul_mod(a: u128, b: u128) -> (r: u128)
    requires
        a < P,
        b < P,
    ensures
        r < P,
        r == fmul(a as int, b as int),
{
    let mut x = a;
    let mut y = b;
    let mut res: u128 = 0;
    while x != 0
        invariant
            res < P,
            y < P,
            (res + x * y) % (P as int) == (a * b) % (P as int),
        decreases x,
    {
        let ghost x0 = x as int;
        let ghost y0 = y as int;
        let ghost res0 = res as int;
        if x & 1 == 1 {
            res = add_mod(res, y);
        }
        proof {
            assert(x & 1 == x % 2) by (bit_vector);
            assert(x >> 1 == x / 2) by (bit_vector);
        }
        x = x >> 1;
        y = add_mod(y, y);
        proof {
            let p = P as int;
            let bit = x0 % 2;
            let x1 = x0 / 2;
            lemma_fundamental_div_mod(x0, 2);
            // x0 * y0 == (2 * x1 + bit) * y0 == x1 * (2 * y0) + bit * y0
            assert((2 * x1 + bit) * y0 == x1 * (2 * y0) + bit * y0) by (nonlinear_arith);
            // res == (res0 + bit * y0) % P in both branches
            if bit == 1 {
                assert(bit * y0 == y0) by (nonlinear_arith)
                    requires bit == 1;
                assert(res == (res0 + bit * y0) % p);
            } else {
                assert(bit * y0 == 0) by (nonlinear_arith)
                    requires bit == 0;
                lemma_small_mod(res0 as nat, P as nat);
                assert(res == (res0 + bit * y0) % p);
            }
            // y == (2 * y0) % P
            assert(y == (y0 + y0) % p);
            // (res + x * y) % P == (res0 + bit * y0 + x1 * (2 * y0)) % P
            lemma_mul_mod_noop_right(x1, 2 * y0, p);
            assert((x1 * ((2 * y0) % p)) % p == (x1 * (2 * y0)) % p);
            lemma_add_mod_noop(res0 + bit * y0, x1 * (2 * y0), p);
            lemma_add_mod_noop((res0 + bit * y0) % p, (x1 * (2 * y0)) % p, p);
            assert((res + x * y) % p == ((res0 + bit * y0) % p + (x1 * (2 * y0)) % p) % p);
            assert(((res0 + bit * y0) + (x1 * (2 * y0))) % p == (res0 + x0 * y0) % p);
        }
    }
    proof {
        lemma_small_mod(res as nat, P as nat);
    }
    res
}

impl FieldElement {
    /// The representation invariant: the residue is reduced.
    pub open spec fn wf(self) -> bool {
        self.value < P
    }

    pub fn new(n: u128) -> (r: FieldElement)
        ensures
            r.value == n as int % P as int,
            r.wf(),
    {
        proof {
            lemma_mod_bound(n as int, P as int);
        }
        FieldElement { value: n % P }
    }

    pub fn zero() -> (r: FieldElement)
        ensures
            r.value == 0,
            r.wf(),
    {
        FieldElement { value: 0 }
    }

    pub fn one() -> (r: FieldElement)
        ensures
            r.value == 1,
            r.wf(),
    {
        FieldElement { value: 1 }
    }

    pub fn is_zero(&self) -> (r: bool)
        ensures
            r == (self.value == 0),
    {
        self.value == 0
    }

    /// Addition modulo `P`.
    pub fn add(self, rhs: FieldElement) -> (r: FieldElement)
        requires
            self.wf(),
            rhs.wf(),
        ensures
            r.wf(),
            r.value == fadd(self.value as int, rhs.value as int),
    {
        FieldElement { value: add_mod(self.value, rhs.value) }
    }

    /// Subtraction modulo `P`.
    pub fn sub(self, rhs: FieldElement) -> (r: FieldElement)
        requires
            self.wf(),
            rhs.wf(),
        ensures
            r.wf(),
            r.value == fsub(self.value as int, rhs.value as int),
    {
        FieldElement { value: sub_mod(self.value, rhs.value) }
    }

    /// Additive inverse modulo `P`.
    pub fn neg(self) -> (r: FieldElement)
        requires
            self.wf(),
        ensures
            r.wf(),
            r.value == fneg(self.value as int),
    {
        FieldElement::new(P - self.value)
    }

    /// Multiplication modulo `P`.
    pub fn mul(self, rhs: FieldElement) -> (r: FieldElement)
        requires
            self.wf(),
            rhs.wf(),
        ensures
            r.wf(),
            r.value == fmul(self.value as int, rhs.value as int),
    {
        FieldElement { value: mul_mod(self.value, rhs.value) }
    }

    /// Exponentiation by repeated squaring over the binary representation of
    /// the exponent.
    #[verifier::rlimit(60)]
    pub fn pow(self, exp: u128) -> (r: FieldElement)
        requires
            self.wf(),
        ensures
            r.wf(),
            r.value == fpow(self.value as int, exp as nat),
    {
        let mut base = self.value;
        let mut e = exp;
        let mut acc: u128 = 1;
        while e != 0
            invariant
                acc < P,
                base < P,
                (acc * pow(base as int, e as nat)) % (P as int)
                    == pow(self.value as int, exp as nat) % (P as int),
            decreases e,
        {
            let ghost acc0 = acc as int;
            let ghost b0 = base as int;
            let ghost e0 = e as nat;
            if e & 1 == 1 {
                acc = mul_mod(acc, base);
            }
            proof {
                assert(e & 1 == e % 2) by (bit_vector);
                assert(e >> 1 == e / 2) by (bit_vector);
            }
            e = e >> 1;
            base = mul_mod(base, base);
            proof {
                let p = P as int;
                let bit = e0 % 2;
                let e1 = e0 / 2;
                lemma_fundamental_div_mod(e0 as int, 2);
                assert(e0 == 2 * e1 + bit);
                // pow(b0, e0) == pow(b0, 2 * e1) * pow(b0, bit)
                lemma_pow_adds(b0, 2 * e1, bit);
                // pow(b0, 2 * e1) == pow(b0 * b0, e1)
                lemma_pow_multiplies(b0, 2, e1);
                lemma_square_is_pow2(b0);
                assert(pow(b0, 2 * e1) == pow(b0 * b0, e1));
                // acc == (acc0 * pow(b0, bit)) % p
                if bit == 1 {
                    lemma_pow1(b0);
                    assert(acc == (acc0 * pow(b0, bit)) % p);
                } else {
                    lemma_pow0(b0);
                    lemma_small_mod(acc0 as nat, P as nat);
                    assert(acc == (acc0 * pow(b0, bit)) % p);
                }
                // pow(base, e1) % p == pow(b0 * b0, e1) % p
                lemma_pow_mod_noop(b0 * b0, e1, p);
                assert(base == (b0 * b0) % p);
                assert(pow(base as int, e1) % p == pow(b0 * b0, e1) % p);
                // chain the reductions together
                let a1 = acc0 * pow(b0, bit);
                lemma_mul_mod_noop_general(a1, pow(base as int, e1), p);
                assert((acc * pow(base as int, e1)) % p == (a1 * pow(base as int, e1)) % p);
                lemma_mul_mod_noop_right(a1, pow(base as int, e1), p);
                lemma_mul_mod_noop_right(a1, pow(b0 * b0, e1), p);
                assert((a1 * pow(base as int, e1)) % p == (a1 * pow(b0 * b0, e1)) % p);
                lemma_mul_is_associative(acc0, pow(b0, bit), pow(b0 * b0, e1));
                lemma_mul_is_commutative(pow(b0, bit), pow(b0 * b0, e1));
                assert(a1 * pow(b0 * b0, e1) == acc0 * (pow(b0, 2 * e1) * pow(b0, bit)));
                assert(acc0 * (pow(b0, 2 * e1) * pow(b0, bit))
                    == acc0 * pow(b0, e0));
            }
        }
        proof {
            lemma_pow0(base as int);
            lemma_small_mod(acc as nat, P as nat);
        }
        FieldElement { value: acc }
    }

    /// The fixed generator element.
    pub fn generator() -> (r: FieldElement)
        ensures
            r.wf(),
            r.value == GENERATOR,
    {
        FieldElement { value: GENERATOR }
    }

    /// A primitive n-th root of unity, derived by repeated squaring of the
    /// generator; valid only for n a power of two dividing the generator's
    /// order 2^119.
    pub fn primitive_nth_root(&self, n: u128) -> (r: FieldElement)
        requires
            exists|k: nat| k <= 119 && n == pow2(k),
        ensures
            r.wf(),
            forall|k: nat| k <= 119 && n == #[trigger] pow2(k)
                ==> r.value == fpow(GENERATOR as int, pow2((119 - k) as nat)),
    {
        let mut root = FieldElement::generator();
        let mut order: u128 = 664613997892457936451903530140172288;
        let ghost k0 = choose|k: nat| k <= 119 && n == pow2(k);
        let ghost mut j: nat = 119;
        proof {
            lemma2_to64();
            lemma2_to64_rest();
            lemma_pow2_adds(64, 55);
            assert(order == pow2(119));
            lemma_pow0(GENERATOR as int);
            lemma_pow1(GENERATOR as int);
            lemma_pow2_le(k0, 119);
            lemma_small_mod(GENERATOR as nat, P as nat);
        }
        while order != n
            invariant
                root.wf(),
                j <= 119,
                order == pow2(j),
                pow2(k0) <= order,
                k0 <= j,
                n == pow2(k0),
                k0 <= 119,
                root.value == fpow(GENERATOR as int, pow2((119 - j) as nat)),
            decreases order,
        {
            let ghost j0 = j;
            let ghost r0 = root.value as int;
            root = root.mul(root);
            order = order / 2;
            proof {
                let p = P as int;
                // order != n and pow2(k0) <= pow2(j0) forces k0 < j0
                if k0 == j0 {
                    assert(false);
                }
                lemma_pow2_unfold(j0);
                j = (j0 - 1) as nat;
                lemma_pow2_le(k0, j);
                // squaring doubles the exponent
                let e = pow2((119 - j0) as nat);
                lemma_pow_mod_noop(pow(GENERATOR as int, e), 2, p);
                lemma_square_is_pow2(pow(GENERATOR as int, e));
                assert(root.value == (r0 * r0) % p);
                assert(r0 == pow(GENERATOR as int, e) % p);
                lemma_mul_mod_noop_general(pow(GENERATOR as int, e), pow(GENERATOR as int, e), p);
                assert((r0 * r0) % p == (pow(GENERATOR as int, e) * pow(GENERATOR as int, e)) % p);
                lemma_pow_adds(GENERATOR as int, e, e);
                lemma_pow2_unfold((119 - j) as nat);
                assert(pow2((119 - j) as nat) == 2 * pow2((119 - j0) as nat));
                assert(e + e == pow2((119 - j) as nat));
            }
        }
        proof {
            assert forall|k: nat| k <= 119 && n == pow2(k) implies k == k0 by {
                if k < k0 {
                    lemma_pow2_strictly_increases(k, k0);
                } else if k > k0 {
                    lemma_pow2_strictly_increases(k0, k);
                }
            }
            // order == n gives pow2(j) == pow2(k0), hence j == k0
            if j < k0 {
                lemma_pow2_strictly_increases(j, k0);
            } else if j > k0 {
                lemma_pow2_strictly_increases(k0, j);
            }
        }
        root
    }

    /// Deterministic pseudorandom derivation of a field element from a byte
    /// seed: the bytes are read as a big-endian integer and reduced mod `P`.
    pub fn sample(seed: &[u8]) -> (r: FieldElement)
        ensures
            r.wf(),
            r.value == int_of_bytes(seed@) % (P as nat),
    {
        let mut acc: u128 = 0;
        let mut i: usize = 0;
        while i < seed.len()
            invariant
                i <= seed@.len(),
                acc < P,
                acc == int_of_bytes(seed@.take(i as int)) % (P as nat),
            decreases seed@.len() - i,
        {
            let ghost acc0 = acc as int;
            let ghost pre = seed@.take(i as int);
            let b = seed[i];
            acc = add_mod(mul_mod(acc, 256), b as u128);
            proof {
                let p = P as int;
                assert(seed@.take(i + 1).drop_last() =~= pre);
                assert(seed@.take(i + 1).last() == seed@[i as int]);
                let x = int_of_bytes(pre) as int;
                lemma_mul_mod_noop_left(x, 256, p);
                assert((acc0 * 256) % p == (x * 256) % p);
                lemma_add_mod_noop(x * 256, b as int, p);
                lemma_small_mod(b as nat, P as nat);
                assert(((x * 256) % p + b) % p == (x * 256 + b) % p);
                assert(int_of_bytes(seed@.take(i + 1)) == x * 256 + b);
            }
            i = i + 1;
        }
        proof {
            assert(seed@.take(seed@.len() as int) =~= seed@);
        }
        FieldElement { value: acc }
    }
}

} // verus!

verus! {

/// `d` divides `n`.
pub open spec fn divides(d: nat, n: nat) -> bool {
    exists|k: nat| n == #[trigger] (d * k)
}

/// Greatest common divisor, by Euclid's recursion.
pub open spec fn gcd(a: nat, b: nat) -> nat
    decreases b,
{
    if b == 0 {
        a
    } else {
        gcd(b, a % b)
    }
}

/// The gcd divides both of its arguments.
pub proof fn lemma_gcd_divides(a: nat, b: nat)
    ensures
        divides(gcd(a, b), a),
        divides(gcd(a, b), b),
    decreases b,
{
    if b == 0 {
        assert(a == gcd(a, b) * 1);
        assert(b == gcd(a, b) * 0);
    } else {
        lemma_gcd_divides(b, a % b);
        let g = gcd(b, a % b);
        assert(gcd(a, b) == g);
        let k1 = choose|k: nat| b == #[trigger] (g * k);
        let k2 = choose|k: nat| (a % b) == #[trigger] (g * k);
        let q = a / b;
        lemma_fundamental_div_mod(a as int, b as int);
        assert(a == b * q + a % b);
        assert(a == g * (k1 * q + k2)) by (nonlinear_arith)
            requires
                b == g * k1,
                a % b == g * k2,
                a == b * q + a % b,
        ;
        assert(a == g * ((k1 * q + k2) as nat));
    }
}

/// A common divisor greater than one rules a residue out of having a
/// multiplicative inverse modulo `P`.
proof fn lemma_no_inverse_when_gcd_gt_one(x: nat, g: nat)
    requires
        g != 1,
        divides(g, x),
        divides(g, P as nat),
    ensures
        !invertible(x as int),
{
    let p = P as int;
    let kp = choose|k: nat| (P as nat) == #[trigger] (g * k);
    let kx = choose|k: nat| x == #[trigger] (g * k);
    if g == 0 {
        assert((P as nat) == 0 * kp);
        assert(false);
    }
    if invertible(x as int) {
        let y = choose|y: int| 0 <= y < P && #[trigger] ((x as int * y) % (P as int)) == 1;
        lemma_fundamental_div_mod(x as int * y, p);
        let q = (x as int * y) / p;
        assert(x as int * y == p * q + 1);
        let m = kx as int * y - kp as int * q;
        assert(g as int * m == 1) by (nonlinear_arith)
            requires
                x == g * kx,
                P as nat == g * kp,
                x as int * y == P as int * q + 1,
                m == kx as int * y - kp as int * q,
        ;
        assert(false) by (nonlinear_arith)
            requires
                g >= 2,
                g as int * m == 1,
        ;
    }
}

/// Modular inverse by the extended Euclidean algorithm: the Bezout
/// coefficient for `x` is carried as a residue modulo `P`. Inverting zero
/// is undefined and excluded by the precondition; a nonzero residue
/// without an inverse (impossible for a prime modulus) would yield 0.
#[verifier::rlimit(100)]
pub fn inv(x: u128) -> (r: u128)
    requires
        0 < x < P,
    ensures
        r < P,
        r == finv(x as int),
{
    let ghost p = P as int;
    let mut prev_r: u128 = P;
    let mut r: u128 = x;
    let mut prev_s: u128 = 0;
    let mut s: u128 = 1;
    proof {
        lemma_small_mod(x as nat, P as nat);
        lemma_mod_self_0(p);
        assert((0 * x as int) % p == P as int % p);
        assert((1 * x as int) % p == x as int % p);
    }
    while r != 0
        invariant
            x < P,
            x != 0,
            r < prev_r,
            prev_r <= P,
            prev_s < P,
            s < P,
            (prev_s as int * x as int) % (P as int) == prev_r as int % (P as int),
            (s as int * x as int) % (P as int) == r as int % (P as int),
            gcd(prev_r as nat, r as nat) == gcd(P as nat, x as nat),
        decreases r,
    {
        let ghost pr0 = prev_r as int;
        let ghost r0 = r as int;
        let ghost ps0 = prev_s as int;
        let ghost s0 = s as int;
        let q = prev_r / r;
        let new_r = prev_r % r;
        let qm = q % P;
        let t = mul_mod(qm, s);
        let new_s = sub_mod(prev_s, t);
        proof {
            let p = P as int;
            let xi = x as int;
            let qi = q as int;
            // t == (q * s) % P
            lemma_mul_mod_noop_left(qi, s0, p);
            assert(t == (qi * s0) % p);
            // new_s == (prev_s - q * s) % P
            lemma_sub_mod_noop_right(ps0, qi * s0, p);
            assert(new_s == (ps0 - qi * s0) % p);
            // (new_s * x) % P == ((prev_s - q * s) * x) % P
            lemma_mul_mod_noop_left(ps0 - qi * s0, xi, p);
            assert((new_s as int * xi) % p == ((ps0 - qi * s0) * xi) % p);
            // expand the product
            assert((ps0 - qi * s0) * xi == ps0 * xi - qi * (s0 * xi)) by (nonlinear_arith);
            // (q * (s * x)) % P == (q * r) % P
            lemma_mul_mod_noop_right(qi, s0 * xi, p);
            lemma_small_mod(r as nat, P as nat);
            lemma_mul_mod_noop_right(qi, r0, p);
            assert((qi * (s0 * xi)) % p == (qi * r0) % p);
            // subtract the two congruences
            lemma_sub_mod_noop(ps0 * xi, qi * (s0 * xi), p);
            lemma_sub_mod_noop(pr0, qi * r0, p);
            assert((ps0 * xi - qi * (s0 * xi)) % p == (pr0 % p - (qi * (s0 * xi)) % p) % p);
            assert((pr0 - qi * r0) % p == (pr0 % p - (qi * r0) % p) % p);
            // prev_r - q * r == new_r
            lemma_fundamental_div_mod(pr0, r0);
            assert(pr0 - qi * r0 == new_r as int);
            lemma_small_mod(new_r as nat, P as nat);
            assert((new_s as int * xi) % p == new_r as int % p);
            // the gcd is preserved, by one unfolding of its definition
            assert(gcd(pr0 as nat, r0 as nat) == gcd(r0 as nat, (pr0 as nat) % (r0 as nat)));
            assert((pr0 as nat) % (r0 as nat) == new_r as nat);
        }
        prev_r = r;
        r = new_r;
        prev_s = s;
        s = new_s;
    }
    proof {
        assert(gcd(prev_r as nat, 0) == prev_r as nat);
        assert(prev_r as nat == gcd(P as nat, x as nat));
    }
    if prev_r == 1 {
        proof {
            lemma_small_mod(1nat, P as nat);
            lemma_small_mod(prev_r as nat, P as nat);
            lemma_mul_is_commutative(prev_s as int, x as int);
            assert((x as int * prev_s as int) % p == 1);
            assert(invertible(x as int));
            lemma_inverse_unique(x as int, prev_s as int);
        }
        prev_s
    } else {
        proof {
            lemma_gcd_divides(P as nat, x as nat);
            lemma_no_inverse_when_gcd_gt_one(x as nat, prev_r as nat);
        }
        0
    }
}

impl FieldElement {
    /// Multiplicative inverse. Undefined for the zero element: callers must
    /// never invoke it on zero, which the precondition enforces.
    pub fn inverse(&self) -> (r: FieldElement)
        requires
            self.wf(),
            self.value != 0,
        ensures
            r.wf(),
            r.value == finv(self.value as int),
    {
        proof {
            lemma_finv_bound(self.value as int);
        }
        FieldElement { value: inv(self.value) }
    }

    /// Division: multiplication by the divisor's inverse. A zero divisor
    /// yields zero (finv(0) == 0): a deviation from the fail-loudly rule
    /// for zero inversion, kept total because protocol callers divide by
    /// products whose nonzeroness cannot be proved without a primality
    /// fact for `P`. The contract states the zero case exactly, so nothing
    /// is silent at the specification level.
    pub fn div(self, rhs: FieldElement) -> (r: FieldElement)
        requires
            self.wf(),
            rhs.wf(),
        ensures
            r.wf(),
            r.value == fdiv(self.value as int, rhs.value as int),
    {
        if rhs.value == 0 {
            proof {
                assert forall|y: int| 0 <= y < P
                    implies #[trigger] ((0 * y) % (P as int)) != 1 by {
                    assert(0 * y == 0);
                }
                assert(!invertible(0));
                assert(finv(0) == 0);
                assert(self.value as int * 0 == 0);
                lemma_small_mod(0nat, P as nat);
            }
            return FieldElement { value: 0 };
        }
        let i = inv(rhs.value);
        proof {
            lemma_finv_bound(rhs.value as int);
        }
        self.mul(FieldElement { value: i })
    }
}

/// Field law: addition is associative.
pub proof fn lemma_fadd_associative(a: int, b: int, c: int)
    ensures
        fadd(fadd(a, b), c) == fadd(a, fadd(b, c)),
{
    let p = P as int;
    lemma_add_mod_noop_right(c, a + b, p);
    assert(((a + b) % p + c) % p == (c + (a + b) % p) % p);
    assert((c + (a + b) % p) % p == (c + (a + b)) % p);
    lemma_add_mod_noop_right(a, b + c, p);
    assert((a + (b + c) % p) % p == (a + (b + c)) % p);
}

/// Field law: addition commutes.
pub proof fn lemma_fadd_commutative(a: int, b: int)
    ensures
        fadd(a, b) == fadd(b, a),
{
}

/// Field law: multiplication distributes over addition.
pub proof fn lemma_fmul_distributive(a: int, b: int, c: int)
    ensures
        fmul(a, fadd(b, c)) == fadd(fmul(a, b), fmul(a, c)),
{
    let p = P as int;
    lemma_mul_mod_noop_right(a, b + c, p);
    assert((a * ((b + c) % p)) % p == (a * (b + c)) % p);
    lemma_mul_is_distributive_add(a, b, c);
    assert(a * (b + c) == a * b + a * c);
    lemma_add_mod_noop(a * b, a * c, p);
}

/// Field law: multiplication is associative.
pub proof fn lemma_fmul_associative(a: int, b: int, c: int)
    ensures
        fmul(fmul(a, b), c) == fmul(a, fmul(b, c)),
{
    let p = P as int;
    lemma_mul_mod_noop_left(a * b, c, p);
    assert((((a * b) % p) * c) % p == ((a * b) * c) % p);
    lemma_mul_mod_noop_right(a, b * c, p);
    assert((a * ((b * c) % p)) % p == (a * (b * c)) % p);
    lemma_mul_is_associative(a, b, c);
}

/// Field law: multiplication commutes.
pub proof fn lemma_fmul_commutative(a: int, b: int)
    ensures
        fmul(a, b) == fmul(b, a),
{
    lemma_mul_is_commutative(a, b);
}

/// Field law: an element minus itself is zero.
pub proof fn lemma_fsub_self(a: int)
    ensures
        fsub(a, a) == 0,
{
    lemma_mod_self_0(P as int);
    assert((a - a) % (P as int) == 0int % (P as int));
}

/// Field law: a nonzero invertible element times its inverse is one.
pub proof fn lemma_finv_law(x: int)
    requires
        invertible(x),
    ensures
        fmul(x, finv(x)) == 1,
{
    lemma_finv_works(x);
}

} // verus!
