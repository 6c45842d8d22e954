//! Dense univariate polynomials over the prime field: coefficient index i
//! holds the coefficient of x^i. The all-zero polynomial has degree -1.
use vstd::prelude::*;
use crate::algebra::{
    FieldElement, P, fadd, fsub, fmul, fneg, finv, fpow, invertible,
    lemma_finv_works, lemma_finv_bound, lemma_finv_nonzero_works,
    lemma_fadd_associative, lemma_fmul_commutative, lemma_fmul_associative,
    lemma_fmul_distributive, lemma_fsub_self,
};
use vstd::arithmetic::div_mod::{lemma_small_mod, lemma_add_mod_noop, lemma_mod_bound};
use vstd::arithmetic::power::pow;

verus! {

/// A field element built from a reduced residue, for spec-level sequences.
pub open spec fn fe(v: int) -> FieldElement {
    FieldElement { value: v as u128 }
}

/// Every stored coefficient is a reduced residue.
pub open spec fn poly_wf(s: Seq<FieldElement>) -> bool {
    forall|i: int| 0 <= i < s.len() ==> (#[trigger] s[i]).value < P
}

/// The coefficient of x^k, as a raw residue; zero beyond the stored length.
pub open spec fn coef(s: Seq<FieldElement>, k: int) -> int {
    if 0 <= k < s.len() {
        s[k].value as int
    } else {
        0
    }
}

/// Two coefficient sequences denote the same polynomial.
pub open spec fn cequiv(a: Seq<FieldElement>, b: Seq<FieldElement>) -> bool {
    forall|k: int| coef(a, k) == coef(b, k)
}

/// The degree: the largest index holding a nonzero coefficient, or -1.
pub open spec fn deg(s: Seq<FieldElement>) -> int
    decreases s.len(),
{
    if s.len() == 0 {
        -1
    } else if s.last().value != 0 {
        s.len() - 1
    } else {
        deg(s.drop_last())
    }
}

/// The leading coefficient, or zero for the zero polynomial.
pub open spec fn lead(s: Seq<FieldElement>) -> int {
    if deg(s) >= 0 {
        coef(s, deg(s))
    } else {
        0
    }
}

/// Equality of polynomials: same degree and same coefficients up to it.
pub open spec fn poly_equiv(a: Seq<FieldElement>, b: Seq<FieldElement>) -> bool {
    deg(a) == deg(b) && forall|i: int| 0 <= i <= deg(a) ==> coef(a, i) == coef(b, i)
}

/// The value of the polynomial at x, by Horner's recursion.
pub open spec fn eval(s: Seq<FieldElement>, x: int) -> int
    decreases s.len(),
{
    if s.len() == 0 {
        0
    } else {
        fadd(s.first().value as int, fmul(x, eval(s.drop_first(), x)))
    }
}

pub open spec fn max_len(a: Seq<FieldElement>, b: Seq<FieldElement>) -> nat {
    if a.len() >= b.len() {
        a.len()
    } else {
        b.len()
    }
}

/// Pointwise sum.
pub open spec fn padd(a: Seq<FieldElement>, b: Seq<FieldElement>) -> Seq<FieldElement> {
    Seq::new(max_len(a, b), |k: int| fe(fadd(coef(a, k), coef(b, k))))
}

/// Pointwise negation.
pub open spec fn pneg(a: Seq<FieldElement>) -> Seq<FieldElement> {
    Seq::new(a.len(), |k: int| fe(fneg(coef(a, k))))
}

/// Pointwise difference.
pub open spec fn psub(a: Seq<FieldElement>, b: Seq<FieldElement>) -> Seq<FieldElement> {
    Seq::new(max_len(a, b), |k: int| fe(fsub(coef(a, k), coef(b, k))))
}

/// The coefficient of x^k in the product: sum over i of a_i * b_{k-i},
/// accumulated from the front of `a`.
pub open spec fn conv_at(a: Seq<FieldElement>, b: Seq<FieldElement>, k: int) -> int
    decreases a.len(),
{
    if a.len() == 0 {
        0
    } else {
        fadd(fmul(a.first().value as int, coef(b, k)), conv_at(a.drop_first(), b, k - 1))
    }
}

/// The product polynomial; empty when either factor has no coefficients.
pub open spec fn pmul(a: Seq<FieldElement>, b: Seq<FieldElement>) -> Seq<FieldElement> {
    if a.len() == 0 || b.len() == 0 {
        Seq::empty()
    } else {
        Seq::new((a.len() + b.len() - 1) as nat, |k: int| fe(conv_at(a, b, k)))
    }
}

/// Degree bounds and the characterization of coefficients above the degree.
pub proof fn lemma_deg_props(s: Seq<FieldElement>)
    ensures
        -1 <= deg(s) < s.len(),
        deg(s) >= 0 ==> coef(s, deg(s)) != 0,
        forall|k: int| k > deg(s) ==> coef(s, k) == 0,
    decreases s.len(),
{
    if s.len() == 0 {
    } else if s.last().value != 0 {
    } else {
        lemma_deg_props(s.drop_last());
        assert forall|k: int| k > deg(s) implies coef(s, k) == 0 by {
            if k < s.len() - 1 {
                assert(coef(s.drop_last(), k) == coef(s, k));
            } else if k == s.len() - 1 {
                assert(s[k] == s.last());
            }
        }
        if deg(s) >= 0 {
            assert(coef(s.drop_last(), deg(s)) == coef(s, deg(s)));
        }
    }
}

/// If every coefficient from index m on is zero, the degree is below m.
pub proof fn lemma_deg_below(s: Seq<FieldElement>, m: int)
    requires
        0 <= m,
        forall|k: int| k >= m ==> coef(s, k) == 0,
    ensures
        deg(s) < m,
{
    lemma_deg_props(s);
    if deg(s) >= m {
        assert(coef(s, deg(s)) == 0);
    }
}

/// Sequences with the same coefficient function have the same degree.
pub proof fn lemma_cequiv_deg(a: Seq<FieldElement>, b: Seq<FieldElement>)
    requires
        cequiv(a, b),
    ensures
        deg(a) == deg(b),
{
    lemma_deg_props(a);
    lemma_deg_props(b);
    if deg(a) > deg(b) {
        assert(coef(a, deg(a)) == coef(b, deg(a)));
    } else if deg(b) > deg(a) {
        assert(coef(b, deg(b)) == coef(a, deg(b)));
    }
}

/// Convolution coefficients are reduced residues.
pub proof fn lemma_conv_bound(a: Seq<FieldElement>, b: Seq<FieldElement>, k: int)
    ensures
        0 <= conv_at(a, b, k) < P,
{
    if a.len() == 0 {
    } else {
        lemma_mod_bound(
            fmul(a.first().value as int, coef(b, k)) + conv_at(a.drop_first(), b, k - 1),
            P as int,
        );
    }
}

/// A convolution against an all-zero sequence vanishes.
pub proof fn lemma_conv_zero(a: Seq<FieldElement>, b: Seq<FieldElement>, k: int)
    requires
        forall|j: int| coef(a, j) == 0,
    ensures
        conv_at(a, b, k) == 0,
    decreases a.len(),
{
    if a.len() == 0 {
    } else {
        assert(a.first().value as int == coef(a, 0));
        assert forall|j: int| coef(a.drop_first(), j) == 0 by {
            if 0 <= j < a.len() - 1 {
                assert(coef(a.drop_first(), j) == coef(a, j + 1));
            }
        }
        lemma_conv_zero(a.drop_first(), b, k - 1);
        assert(fmul(0, coef(b, k)) == 0int % (P as int));
        assert(fadd(0, 0) == 0int % (P as int));
    }
}

/// Updating one zero slot of the left factor adds one scaled, shifted copy
/// of the right factor to the convolution.
pub proof fn lemma_conv_update(
    a: Seq<FieldElement>,
    a2: Seq<FieldElement>,
    b: Seq<FieldElement>,
    sh: int,
    c: int,
    k: int,
)
    requires
        0 <= sh < a.len(),
        a2 == a.update(sh, fe(c)),
        coef(a, sh) == 0,
        0 <= c < P,
    ensures
        conv_at(a2, b, k) == fadd(conv_at(a, b, k), fmul(c, coef(b, k - sh))),
    decreases a.len(),
{
    lemma_conv_bound(a.drop_first(), b, k - 1);
    if sh == 0 {
        assert(a2.drop_first() =~= a.drop_first());
        assert(a2.first() == fe(c));
        assert(a.first().value as int == 0);
        let t = conv_at(a.drop_first(), b, k - 1);
        assert(fmul(0, coef(b, k)) == 0int % (P as int));
        lemma_small_mod(t as nat, P as nat);
        assert(conv_at(a, b, k) == fadd(0, t));
        assert(fadd(0, t) == t);
        assert(conv_at(a2, b, k) == fadd(fmul(c, coef(b, k)), t));
    } else {
        assert(a2.first() == a.first());
        assert(a2.drop_first() =~= a.drop_first().update(sh - 1, fe(c)));
        assert(coef(a.drop_first(), sh - 1) == coef(a, sh));
        lemma_conv_update(a.drop_first(), a2.drop_first(), b, sh - 1, c, k - 1);
        let h = fmul(a.first().value as int, coef(b, k));
        let t = conv_at(a.drop_first(), b, k - 1);
        let m = fmul(c, coef(b, k - sh));
        assert(conv_at(a2, b, k) == fadd(h, fadd(t, m)));
        lemma_fadd_associative(h, t, m);
        assert(fadd(fadd(h, t), m) == fadd(h, fadd(t, m)));
    }
}

/// Adding a term to one side and subtracting it from the other keeps the
/// modular sum.
pub proof fn lemma_fadd_fsub_cancel(a: int, b: int, t: int)
    ensures
        fadd(fadd(a, t), fsub(b, t)) == fadd(a, b),
{
    let p = P as int;
    lemma_add_mod_noop(a + t, b - t, p);
}

pub struct Polynomial {
    pub coefs: Vec<FieldElement>,
}

/// A copy of `v` with the slot at `idx` replaced by `val`.
fn vec_set(v: &Vec<FieldElement>, idx: usize, val: FieldElement) -> (r: Vec<FieldElement>)
    requires
        idx < v@.len(),
    ensures
        r@ == v@.update(idx as int, val),
{
    let mut r: Vec<FieldElement> = Vec::new();
    let mut i: usize = 0;
    while i < v.len()
        invariant
            i <= v@.len(),
            idx < v@.len(),
            r@.len() == i,
            forall|j: int| 0 <= j < i ==> r@[j] == v@.update(idx as int, val)[j],
        decreases v@.len() - i,
    {
        if i == idx {
            r.push(val);
        } else {
            r.push(v[i]);
        }
        i = i + 1;
    }
    proof {
        assert(r@ =~= v@.update(idx as int, val));
    }
    r
}

/// A vector of `n` zero elements.
fn vec_zeros(n: usize) -> (r: Vec<FieldElement>)
    ensures
        r@.len() == n,
        forall|j: int| 0 <= j < n ==> (#[trigger] r@[j]).value == 0,
{
    let mut r: Vec<FieldElement> = Vec::new();
    let mut i: usize = 0;
    while i < n
        invariant
            i <= n,
            r@.len() == i,
            forall|j: int| 0 <= j < i ==> (#[trigger] r@[j]).value == 0,
        decreases n - i,
    {
        r.push(FieldElement::zero());
        i = i + 1;
    }
    r
}

/// A by-hand copy of a coefficient vector (the elements are `Copy`).
pub fn clone_fe_vec(v: &Vec<FieldElement>) -> (r: Vec<FieldElement>)
    ensures
        r@ == v@,
{
    let mut r: Vec<FieldElement> = Vec::new();
    let mut i: usize = 0;
    while i < v.len()
        invariant
            i <= v@.len(),
            r@ == v@.take(i as int),
        decreases v@.len() - i,
    {
        r.push(v[i]);
        proof {
            assert(r@ =~= v@.take(i + 1));
        }
        i = i + 1;
    }
    proof {
        assert(v@.take(v@.len() as int) =~= v@);
    }
    r
}

impl Clone for Polynomial {
    fn clone(&self) -> (r: Self)
        ensures
            r.coefs@ == self.coefs@,
    {
        Polynomial { coefs: clone_fe_vec(&self.coefs) }
    }
}

impl Polynomial {
    pub fn new(c: Vec<FieldElement>) -> (r: Polynomial)
        ensures
            r.coefs@ == c@,
    {
        Polynomial { coefs: c }
    }

    /// The degree of the stored polynomial: highest nonzero index, or -1.
    pub fn degree(&self) -> (r: i128)
        ensures
            r == deg(self.coefs@),
    {
        let mut i = self.coefs.len();
        proof {
            assert(self.coefs@.take(i as int) =~= self.coefs@);
        }
        while i > 0
            invariant
                i <= self.coefs@.len(),
                deg(self.coefs@) == deg(self.coefs@.take(i as int)),
            decreases i,
        {
            if self.coefs[i - 1].value != 0 {
                proof {
                    assert(self.coefs@.take(i as int).last() == self.coefs@[i - 1]);
                }
                return (i - 1) as i128;
            }
            proof {
                assert(self.coefs@.take(i as int).drop_last() =~= self.coefs@.take(i - 1));
                assert(self.coefs@.take(i as int).last() == self.coefs@[i - 1]);
            }
            i = i - 1;
        }
        proof {
            assert(self.coefs@.take(0) =~= Seq::<FieldElement>::empty());
        }
        -1
    }

    pub fn is_zero(&self) -> (r: bool)
        ensures
            r == (deg(self.coefs@) == -1),
    {
        self.degree() == -1
    }

    pub fn leading_coefficient(&self) -> (r: FieldElement)
        requires
            poly_wf(self.coefs@),
        ensures
            r.value == lead(self.coefs@),
            r.wf(),
    {
        let d = self.degree();
        proof {
            lemma_deg_props(self.coefs@);
        }
        if d == -1 {
            FieldElement::zero()
        } else {
            let len = self.coefs.len();
            proof {
                assert(0 <= d < len);
            }
            let idx = d as usize;
            self.coefs[idx]
        }
    }

    /// Coefficient-wise sum.
    pub fn add(self, rhs: Polynomial) -> (r: Polynomial)
        requires
            poly_wf(self.coefs@),
            poly_wf(rhs.coefs@),
        ensures
            r.coefs@ == padd(self.coefs@, rhs.coefs@),
            poly_wf(r.coefs@),
    {
        let n = if self.coefs.len() >= rhs.coefs.len() {
            self.coefs.len()
        } else {
            rhs.coefs.len()
        };
        let mut out: Vec<FieldElement> = Vec::new();
        let mut k: usize = 0;
        while k < n
            invariant
                k <= n,
                n == max_len(self.coefs@, rhs.coefs@),
                poly_wf(self.coefs@),
                poly_wf(rhs.coefs@),
                out@.len() == k,
                forall|i: int| 0 <= i < k ==> out@[i] == padd(self.coefs@, rhs.coefs@)[i],
            decreases n - k,
        {
            let av = if k < self.coefs.len() {
                self.coefs[k]
            } else {
                FieldElement::zero()
            };
            let bv = if k < rhs.coefs.len() {
                rhs.coefs[k]
            } else {
                FieldElement::zero()
            };
            out.push(av.add(bv));
            k = k + 1;
        }
        proof {
            assert(out@ =~= padd(self.coefs@, rhs.coefs@));
            assert forall|i: int| 0 <= i < out@.len()
                implies (#[trigger] out@[i]).value < P by {
                lemma_mod_bound(coef(self.coefs@, i) + coef(rhs.coefs@, i), P as int);
            }
        }
        Polynomial { coefs: out }
    }

    /// Coefficient-wise negation.
    pub fn neg(self) -> (r: Polynomial)
        requires
            poly_wf(self.coefs@),
        ensures
            r.coefs@ == pneg(self.coefs@),
            poly_wf(r.coefs@),
    {
        let mut out: Vec<FieldElement> = Vec::new();
        let mut k: usize = 0;
        while k < self.coefs.len()
            invariant
                k <= self.coefs@.len(),
                poly_wf(self.coefs@),
                out@.len() == k,
                forall|i: int| 0 <= i < k ==> out@[i] == pneg(self.coefs@)[i],
            decreases self.coefs@.len() - k,
        {
            out.push(self.coefs[k].neg());
            k = k + 1;
        }
        proof {
            assert(out@ =~= pneg(self.coefs@));
            assert forall|i: int| 0 <= i < out@.len()
                implies (#[trigger] out@[i]).value < P by {
                lemma_mod_bound(P - coef(self.coefs@, i), P as int);
            }
        }
        Polynomial { coefs: out }
    }

    /// Coefficient-wise difference.
    pub fn sub(self, rhs: Polynomial) -> (r: Polynomial)
        requires
            poly_wf(self.coefs@),
            poly_wf(rhs.coefs@),
        ensures
            r.coefs@ == psub(self.coefs@, rhs.coefs@),
            poly_wf(r.coefs@),
    {
        let n = if self.coefs.len() >= rhs.coefs.len() {
            self.coefs.len()
        } else {
            rhs.coefs.len()
        };
        let mut out: Vec<FieldElement> = Vec::new();
        let mut k: usize = 0;
        while k < n
            invariant
                k <= n,
                n == max_len(self.coefs@, rhs.coefs@),
                poly_wf(self.coefs@),
                poly_wf(rhs.coefs@),
                out@.len() == k,
                forall|i: int| 0 <= i < k ==> out@[i] == psub(self.coefs@, rhs.coefs@)[i],
            decreases n - k,
        {
            let av = if k < self.coefs.len() {
                self.coefs[k]
            } else {
                FieldElement::zero()
            };
            let bv = if k < rhs.coefs.len() {
                rhs.coefs[k]
            } else {
                FieldElement::zero()
            };
            out.push(av.sub(bv));
            k = k + 1;
        }
        proof {
            assert(out@ =~= psub(self.coefs@, rhs.coefs@));
            assert forall|i: int| 0 <= i < out@.len()
                implies (#[trigger] out@[i]).value < P by {
                lemma_mod_bound(coef(self.coefs@, i) - coef(rhs.coefs@, i), P as int);
            }
        }
        Polynomial { coefs: out }
    }
}

/// The polynomial with each coefficient of x^i multiplied by f^i: the
/// coefficients of p(f * X).
pub open spec fn pscale(a: Seq<FieldElement>, f: int) -> Seq<FieldElement> {
    Seq::new(a.len(), |i: int| fe(fmul(fpow(f, i as nat), coef(a, i))))
}

impl Polynomial {
    /// Coefficient-wise product (convolution).
    pub fn mul(self, rhs: Polynomial) -> (r: Polynomial)
        requires
            poly_wf(self.coefs@),
            poly_wf(rhs.coefs@),
            self.coefs@.len() + rhs.coefs@.len() <= usize::MAX,
        ensures
            r.coefs@ == pmul(self.coefs@, rhs.coefs@),
            poly_wf(r.coefs@),
    {
        if self.coefs.len() == 0 || rhs.coefs.len() == 0 {
            return Polynomial { coefs: Vec::new() };
        }
        let la = self.coefs.len();
        let lb = rhs.coefs.len();
        let n = la + lb - 1;
        let mut out: Vec<FieldElement> = Vec::new();
        let mut k: usize = 0;
        while k < n
            invariant
                k <= n,
                la == self.coefs@.len(),
                lb == rhs.coefs@.len(),
                la >= 1,
                lb >= 1,
                n == la + lb - 1,
                poly_wf(self.coefs@),
                poly_wf(rhs.coefs@),
                out@.len() == k,
                forall|t: int| 0 <= t < k
                    ==> out@[t] == fe(conv_at(self.coefs@, rhs.coefs@, t)),
            decreases n - k,
        {
            let mut acc = FieldElement::zero();
            let mut j = la;
            proof {
                assert(self.coefs@.skip(j as int) =~= Seq::<FieldElement>::empty());
            }
            while j > 0
                invariant
                    j <= la,
                    k < n,
                    la == self.coefs@.len(),
                    lb == rhs.coefs@.len(),
                    n == la + lb - 1,
                    poly_wf(self.coefs@),
                    poly_wf(rhs.coefs@),
                    acc.wf(),
                    acc.value == conv_at(self.coefs@.skip(j as int), rhs.coefs@, k - j),
                decreases j,
            {
                j = j - 1;
                let ghost acc0 = acc.value as int;
                if j <= k && k - j < lb {
                    let term = self.coefs[j].mul(rhs.coefs[k - j]);
                    acc = term.add(acc);
                } else {
                    proof {
                        let aj = self.coefs@[j as int].value as int;
                        assert(coef(rhs.coefs@, k - j) == 0);
                        assert(aj * 0 == 0);
                        assert(fmul(aj, 0) == 0int % (P as int));
                        lemma_small_mod(acc0 as nat, P as nat);
                        assert(fadd(fmul(aj, coef(rhs.coefs@, k - j)), acc0) == acc0);
                    }
                }
                proof {
                    assert(self.coefs@.skip(j as int).first() == self.coefs@[j as int]);
                    assert(self.coefs@.skip(j as int).drop_first() =~= self.coefs@.skip(j + 1));
                }
            }
            proof {
                assert(self.coefs@.skip(0) =~= self.coefs@);
            }
            out.push(acc);
            k = k + 1;
        }
        proof {
            assert(out@ =~= pmul(self.coefs@, rhs.coefs@));
            assert forall|i: int| 0 <= i < out@.len()
                implies (#[trigger] out@[i]).value < P by {
                lemma_mod_bound(
                    fmul(self.coefs@.first().value as int, coef(rhs.coefs@, i))
                        + conv_at(self.coefs@.drop_first(), rhs.coefs@, i - 1),
                    P as int,
                );
            }
        }
        Polynomial { coefs: out }
    }

    /// Schoolbook long division by leading-coefficient elimination.
    /// For a divisor of degree >= 0 the quotient and remainder satisfy
    /// quotient * divisor + remainder == dividend, with the remainder's
    /// degree strictly below the divisor's; a zero divisor gives two empty
    /// results (a defensive no-op, not an error).
    #[verifier::rlimit(100)]
    pub fn divide(&self, d: &Polynomial) -> (r: (Polynomial, Polynomial))
        requires
            poly_wf(self.coefs@),
            poly_wf(d.coefs@),
        ensures
            poly_wf(r.0.coefs@),
            poly_wf(r.1.coefs@),
            deg(d.coefs@) == -1 ==> r.0.coefs@.len() == 0 && r.1.coefs@.len() == 0,
            deg(d.coefs@) >= 0 && !invertible(lead(d.coefs@))
                ==> r.0.coefs@.len() == 0 && r.1.coefs@.len() == 0,
            deg(d.coefs@) >= 0 && invertible(lead(d.coefs@)) ==> {
                &&& forall|k: int|
                    fadd(#[trigger] conv_at(r.0.coefs@, d.coefs@, k), coef(r.1.coefs@, k))
                        == coef(self.coefs@, k)
                &&& deg(r.1.coefs@) < deg(d.coefs@)
            },
    {
        let dd_i = d.degree();
        if dd_i == -1 {
            return (Polynomial { coefs: Vec::new() }, Polynomial { coefs: Vec::new() });
        }
        let dlen = d.coefs.len();
        proof {
            lemma_deg_props(d.coefs@);
        }
        let dd = dd_i as usize;
        let lcd = d.leading_coefficient();
        proof {
            assert(lcd.value != 0);
        }
        let ild = crate::algebra::inv(lcd.value);
        if ild == 0 {
            proof {
                if invertible(lead(d.coefs@)) {
                    lemma_finv_works(lead(d.coefs@));
                }
            }
            return (Polynomial { coefs: Vec::new() }, Polynomial { coefs: Vec::new() });
        }
        proof {
            lemma_finv_nonzero_works(lead(d.coefs@));
            lemma_finv_bound(lead(d.coefs@));
        }
        let ild_fe = FieldElement { value: ild };
        let sd = self.degree();
        let slen = self.coefs.len();
        proof {
            lemma_deg_props(self.coefs@);
        }
        if sd < dd_i {
            let quotient = Polynomial { coefs: Vec::new() };
            let remainder = self.clone();
            proof {
                assert forall|k: int|
                    fadd(#[trigger] conv_at(quotient.coefs@, d.coefs@, k),
                        coef(remainder.coefs@, k)) == coef(self.coefs@, k) by {
                    assert(conv_at(quotient.coefs@, d.coefs@, k) == 0);
                    if 0 <= k < self.coefs@.len() {
                        lemma_small_mod(self.coefs@[k].value as nat, P as nat);
                    } else {
                        assert(coef(self.coefs@, k) == 0);
                        assert(fadd(0, 0) == 0int % (P as int));
                    }
                }
            }
            return (quotient, remainder);
        }
        // sd >= dd_i >= 0 here
        let n = ((sd - dd_i) as usize) + 1;
        let mut quotient = vec_zeros(n);
        let mut remainder = self.clone();
        let mut rd = remainder.degree();
        proof {
            assert forall|k: int|
                fadd(#[trigger] conv_at(quotient@, d.coefs@, k), coef(remainder.coefs@, k))
                    == coef(self.coefs@, k) by {
                lemma_conv_zero(quotient@, d.coefs@, k);
                if 0 <= k < self.coefs@.len() {
                    lemma_small_mod(self.coefs@[k].value as nat, P as nat);
                } else {
                    assert(fadd(0, 0) == 0int % (P as int));
                }
            }
        }
        while rd >= dd_i
            invariant
                poly_wf(self.coefs@),
                poly_wf(d.coefs@),
                poly_wf(quotient@),
                poly_wf(remainder.coefs@),
                dd_i == deg(d.coefs@),
                0 <= dd_i,
                dd == dd_i,
                dd < d.coefs@.len(),
                sd == deg(self.coefs@),
                slen == self.coefs@.len(),
                rd == deg(remainder.coefs@),
                rd <= sd,
                remainder.coefs@.len() == self.coefs@.len(),
                n == sd - dd_i + 1,
                quotient@.len() == n,
                invertible(lead(d.coefs@)),
                ild == finv(lead(d.coefs@)),
                0 < ild < P,
                ild_fe.value == ild,
                forall|k: int|
                    fadd(#[trigger] conv_at(quotient@, d.coefs@, k), coef(remainder.coefs@, k))
                        == coef(self.coefs@, k),
                forall|j: int| 0 <= j <= rd - dd_i ==> (#[trigger] quotient@[j]).value == 0,
            decreases rd + 1,
        {
            let ghost q0 = quotient@;
            let ghost rem0 = remainder.coefs@;
            let ghost rd0 = rd;
            proof {
                lemma_deg_props(remainder.coefs@);
                lemma_deg_props(self.coefs@);
                assert(rd < remainder.coefs@.len());
                assert(0 <= rd - dd_i < self.coefs@.len());
            }
            let shift = (rd - dd_i) as usize;
            let lcr = remainder.leading_coefficient();
            let c = lcr.mul(ild_fe);
            quotient = vec_set(&quotient, shift, c);
            // subtract c * x^shift * d from the remainder
            let mut newrem: Vec<FieldElement> = Vec::new();
            let mut k: usize = 0;
            let rlen = remainder.coefs.len();
            while k < rlen
                invariant
                    k <= rlen,
                    rlen == rem0.len(),
                    remainder.coefs@ == rem0,
                    poly_wf(rem0),
                    poly_wf(d.coefs@),
                    dd < d.coefs@.len(),
                    dd == deg(d.coefs@),
                    shift + dd < rlen,
                    c.wf(),
                    newrem@.len() == k,
                    forall|t: int| 0 <= t < k
                        ==> (#[trigger] newrem@[t])
                            == fe(fsub(coef(rem0, t), fmul(c.value as int, coef(d.coefs@, t - shift)))),
                decreases rlen - k,
            {
                if k >= shift && k <= shift + dd {
                    newrem.push(remainder.coefs[k].sub(c.mul(d.coefs[k - shift])));
                } else {
                    let ghost t = k as int;
                    proof {
                        lemma_deg_props(d.coefs@);
                        assert(coef(d.coefs@, t - shift) == 0);
                        assert(c.value as int * 0 == 0);
                        assert(fmul(c.value as int, 0) == 0int % (P as int));
                        lemma_small_mod(rem0[t].value as nat, P as nat);
                        assert(fsub(coef(rem0, t), 0) == coef(rem0, t));
                    }
                    newrem.push(remainder.coefs[k]);
                }
                k = k + 1;
            }
            remainder = Polynomial { coefs: newrem };
            proof {
                let dv = d.coefs@;
                let sv = self.coefs@;
                let cv = c.value as int;
                let shi = shift as int;
                // uniform coefficient relation for the new remainder
                assert forall|t: int|
                    coef(remainder.coefs@, t)
                        == fsub(coef(rem0, t), fmul(cv, coef(dv, t - shi))) by {
                    if 0 <= t < rem0.len() {
                        lemma_mod_bound(coef(rem0, t) - fmul(cv, coef(dv, t - shi)), P as int);
                    } else {
                        lemma_deg_props(dv);
                        assert(coef(dv, t - shi) == 0);
                        assert(cv * 0 == 0);
                        assert(fmul(cv, 0) == 0int % (P as int));
                        assert(fsub(0, 0) == 0int % (P as int));
                    }
                }
                // quotient update adds the matching convolution term
                assert(coef(q0, shi) == 0);
                assert forall|t: int|
                    conv_at(quotient@, dv, t)
                        == fadd(conv_at(q0, dv, t), fmul(cv, coef(dv, t - shi))) by {
                    lemma_conv_update(q0, quotient@, dv, shi, cv, t);
                }
                // the division invariant is preserved
                assert forall|t: int|
                    fadd(#[trigger] conv_at(quotient@, dv, t), coef(remainder.coefs@, t))
                        == coef(sv, t) by {
                    let m = fmul(cv, coef(dv, t - shi));
                    lemma_fadd_fsub_cancel(conv_at(q0, dv, t), coef(rem0, t), m);
                }
                // the leading term cancels: every coefficient from rd0 up is zero
                lemma_deg_props(rem0);
                lemma_deg_props(dv);
                assert forall|t: int| t >= rd0 implies coef(remainder.coefs@, t) == 0 by {
                    if t > rd0 {
                        assert(coef(rem0, t) == 0);
                        assert(coef(dv, t - shi) == 0);
                        assert(cv * 0 == 0);
                        assert(fmul(cv, 0) == 0int % (P as int));
                        assert(fsub(0, 0) == 0int % (P as int));
                    } else {
                        // t == rd0: the subtracted coefficient equals the lead
                        let lr = lead(rem0);
                        let ld = lead(dv);
                        let il = finv(ld);
                        assert(coef(rem0, t) == lr);
                        assert(coef(dv, t - shi) == ld);
                        assert(cv == fmul(lr, il));
                        crate::algebra::lemma_fmul_associative(lr, il, ld);
                        crate::algebra::lemma_fmul_commutative(il, ld);
                        lemma_finv_works(ld);
                        assert(fmul(il, ld) == fmul(ld, il));
                        assert(fmul(ld, il) == 1);
                        assert(fmul(lr, 1) == lr % (P as int));
                        lemma_small_mod(lr as nat, P as nat);
                        assert(fmul(cv, ld) == lr);
                        lemma_fsub_self(lr);
                    }
                }
                lemma_deg_below(remainder.coefs@, rd0 as int);
                assert(deg(remainder.coefs@) < rd0);
                // untouched low slots of the quotient stay zero
                assert forall|j: int| 0 <= j <= deg(remainder.coefs@) - dd_i
                    implies (#[trigger] quotient@[j]).value == 0 by {
                    assert(j < shi);
                    assert(quotient@[j] == q0[j]);
                }
            }
            rd = remainder.degree();
            proof {
                lemma_deg_props(remainder.coefs@);
                assert(-1 <= rd < rd0);
            }
        }
        (Polynomial { coefs: quotient }, remainder)
    }

    /// The value at a point, by Horner's method.
    pub fn evaluate(&self, point: FieldElement) -> (r: FieldElement)
        requires
            poly_wf(self.coefs@),
            point.wf(),
        ensures
            r.wf(),
            r.value == eval(self.coefs@, point.value as int),
    {
        let mut value = FieldElement::zero();
        let mut i = self.coefs.len();
        proof {
            assert(self.coefs@.skip(i as int) =~= Seq::<FieldElement>::empty());
        }
        while i > 0
            invariant
                i <= self.coefs@.len(),
                poly_wf(self.coefs@),
                point.wf(),
                value.wf(),
                value.value == eval(self.coefs@.skip(i as int), point.value as int),
            decreases i,
        {
            i = i - 1;
            value = self.coefs[i].add(point.mul(value));
            proof {
                assert(self.coefs@.skip(i as int).first() == self.coefs@[i as int]);
                assert(self.coefs@.skip(i as int).drop_first() =~= self.coefs@.skip(i + 1));
            }
        }
        proof {
            assert(self.coefs@.skip(0) =~= self.coefs@);
        }
        value
    }

    /// The values over a whole domain, in order.
    pub fn evaluate_domain(&self, domain: &Vec<FieldElement>) -> (r: Vec<FieldElement>)
        requires
            poly_wf(self.coefs@),
            poly_wf(domain@),
        ensures
            r@.len() == domain@.len(),
            forall|i: int| 0 <= i < domain@.len()
                ==> (#[trigger] r@[i]).value == eval(self.coefs@, domain@[i].value as int),
            poly_wf(r@),
    {
        let mut values: Vec<FieldElement> = Vec::new();
        let mut i: usize = 0;
        while i < domain.len()
            invariant
                i <= domain@.len(),
                poly_wf(self.coefs@),
                poly_wf(domain@),
                values@.len() == i,
                forall|t: int| 0 <= t < i
                    ==> (#[trigger] values@[t]).value
                        == eval(self.coefs@, domain@[t].value as int),
                poly_wf(values@),
            decreases domain@.len() - i,
        {
            values.push(self.evaluate(domain[i]));
            i = i + 1;
        }
        values
    }

    /// The coefficients of p(factor * X).
    pub fn scale(&self, factor: FieldElement) -> (r: Polynomial)
        requires
            poly_wf(self.coefs@),
            factor.wf(),
        ensures
            r.coefs@ == pscale(self.coefs@, factor.value as int),
            poly_wf(r.coefs@),
    {
        let mut scaled: Vec<FieldElement> = Vec::new();
        let mut xi = FieldElement::one();
        let mut i: usize = 0;
        proof {
            vstd::arithmetic::power::lemma_pow0(factor.value as int);
            lemma_small_mod(1nat, P as nat);
        }
        while i < self.coefs.len()
            invariant
                i <= self.coefs@.len(),
                poly_wf(self.coefs@),
                factor.wf(),
                xi.wf(),
                xi.value == fpow(factor.value as int, i as nat),
                scaled@.len() == i,
                forall|t: int| 0 <= t < i ==> scaled@[t] == pscale(self.coefs@, factor.value as int)[t],
            decreases self.coefs@.len() - i,
        {
            scaled.push(xi.mul(self.coefs[i]));
            let ghost xi0 = xi.value as int;
            xi = xi.mul(factor);
            proof {
                let p = P as int;
                let f = factor.value as int;
                vstd::arithmetic::power::lemma_pow_adds(f, i as nat, 1);
                vstd::arithmetic::power::lemma_pow1(f);
                assert(pow(f, (i + 1) as nat) == pow(f, i as nat) * f);
                vstd::arithmetic::div_mod::lemma_mul_mod_noop_left(
                    pow(f, i as nat), f, p);
                vstd::arithmetic::mul::lemma_mul_is_commutative(pow(f, i as nat), f);
                assert(xi.value == fpow(f, (i + 1) as nat));
            }
            i = i + 1;
        }
        proof {
            assert(scaled@ =~= pscale(self.coefs@, factor.value as int));
        }
        Polynomial { coefs: scaled }
    }
}

impl PartialEq for Polynomial {
    /// Equality compares degree and coefficients up to the common degree,
    /// so that trailing zeros do not matter; two zero polynomials are equal.
    fn eq(&self, other: &Self) -> (r: bool) {
        let d1 = self.degree();
        let d2 = other.degree();
        proof {
            lemma_deg_props(self.coefs@);
            lemma_deg_props(other.coefs@);
        }
        if d1 != d2 {
            return false;
        }
        if d1 == -1 {
            return true;
        }
        let mut i: usize = 0;
        let len = self.coefs.len();
        proof {
            assert(0 <= d1 + 1 <= len);
        }
        let n = (d1 + 1) as usize;
        while i < n
            invariant
                i <= n,
                n == deg(self.coefs@) + 1,
                deg(self.coefs@) == deg(other.coefs@),
                deg(self.coefs@) < self.coefs@.len(),
                deg(other.coefs@) < other.coefs@.len(),
                forall|j: int| 0 <= j < i ==> coef(self.coefs@, j) == coef(other.coefs@, j),
            decreases n - i,
        {
            if self.coefs[i].value != other.coefs[i].value {
                proof {
                    assert(coef(self.coefs@, i as int) != coef(other.coefs@, i as int));
                    assert(!poly_equiv(self.coefs@, other.coefs@));
                }
                return false;
            }
            i = i + 1;
        }
        true
    }
}

impl vstd::std_specs::cmp::PartialEqSpecImpl for Polynomial {
    open spec fn obeys_eq_spec() -> bool {
        true
    }

    open spec fn eq_spec(&self, other: &Polynomial) -> bool {
        poly_equiv(self.coefs@, other.coefs@)
    }
}

} // verus!

verus! {

/// Evaluation results are reduced residues.
pub proof fn lemma_eval_bound(s: Seq<FieldElement>, x: int)
    ensures
        0 <= eval(s, x) < P,
{
    if s.len() == 0 {
    } else {
        lemma_mod_bound(
            s.first().value + fmul(x, eval(s.drop_first(), x)),
            P as int,
        );
    }
}

/// Two modular sums of sums collapse to one sum of four terms.
pub proof fn lemma_fadd4(a: int, b: int, c: int, d: int)
    ensures
        fadd(fadd(a, b), fadd(c, d)) == (a + b + c + d) % (P as int),
{
    lemma_add_mod_noop(a + b, c + d, P as int);
}

/// The spec-level pointwise sum keeps coefficients reduced.
pub proof fn lemma_padd_wf(a: Seq<FieldElement>, b: Seq<FieldElement>)
    ensures
        poly_wf(padd(a, b)),
{
    assert forall|i: int| 0 <= i < padd(a, b).len()
        implies (#[trigger] padd(a, b)[i]).value < P by {
        lemma_mod_bound(coef(a, i) + coef(b, i), P as int);
    }
}

/// The coefficient function of a pointwise sum, at every index.
pub proof fn lemma_padd_coef(a: Seq<FieldElement>, b: Seq<FieldElement>, k: int)
    ensures
        coef(padd(a, b), k) == fadd(coef(a, k), coef(b, k)),
{
    if 0 <= k < max_len(a, b) {
        lemma_mod_bound(coef(a, k) + coef(b, k), P as int);
    } else {
        assert(coef(a, k) == 0 && coef(b, k) == 0);
        assert(fadd(0, 0) == 0int % (P as int));
    }
}

/// Evaluation distributes over the pointwise sum.
pub proof fn lemma_eval_padd(a: Seq<FieldElement>, b: Seq<FieldElement>, x: int)
    requires
        poly_wf(a),
        poly_wf(b),
    ensures
        eval(padd(a, b), x) == fadd(eval(a, x), eval(b, x)),
    decreases a.len() + b.len(),
{
    let p = P as int;
    lemma_eval_bound(a, x);
    lemma_eval_bound(b, x);
    if a.len() == 0 && b.len() == 0 {
        assert(padd(a, b).len() == 0);
        assert(fadd(0, 0) == 0int % p);
    } else if a.len() == 0 {
        assert(padd(a, b) =~= b) by {
            assert forall|i: int| 0 <= i < b.len() implies padd(a, b)[i] == b[i] by {
                lemma_small_mod(b[i].value as nat, P as nat);
            }
        }
        lemma_small_mod(eval(b, x) as nat, P as nat);
    } else if b.len() == 0 {
        assert(padd(a, b) =~= a) by {
            assert forall|i: int| 0 <= i < a.len() implies padd(a, b)[i] == a[i] by {
                lemma_small_mod(a[i].value as nat, P as nat);
            }
        }
        lemma_small_mod(eval(a, x) as nat, P as nat);
    } else {
        let a1 = a.drop_first();
        let b1 = b.drop_first();
        assert(poly_wf(a1) && poly_wf(b1)) by {
            assert(forall|i: int| 0 <= i < a1.len() ==> a1[i] == a[i + 1]);
            assert(forall|i: int| 0 <= i < b1.len() ==> b1[i] == b[i + 1]);
        }
        lemma_eval_padd(a1, b1, x);
        assert(padd(a, b).drop_first() =~= padd(a1, b1)) by {
            assert forall|i: int| 0 <= i < padd(a, b).len() - 1
                implies padd(a, b).drop_first()[i] == padd(a1, b1)[i] by {
                assert(coef(a1, i) == coef(a, i + 1));
                assert(coef(b1, i) == coef(b, i + 1));
            }
        }
        let a0 = a.first().value as int;
        let b0 = b.first().value as int;
        let ea = eval(a1, x);
        let eb = eval(b1, x);
        lemma_eval_bound(a1, x);
        lemma_eval_bound(b1, x);
        // both sides equal (a0 + b0 + x*ea + x*eb) % P
        assert(eval(padd(a, b), x) == fadd(fadd(a0, b0), fmul(x, fadd(ea, eb))));
        lemma_fmul_distributive(x, ea, eb);
        assert(fmul(x, fadd(ea, eb)) == fadd(fmul(x, ea), fmul(x, eb)));
        lemma_fadd4(a0, b0, fmul(x, ea), fmul(x, eb));
        lemma_fadd4(a0, fmul(x, ea), b0, fmul(x, eb));
        assert(fadd(fadd(a0, fmul(x, ea)), fadd(b0, fmul(x, eb)))
            == (a0 + fmul(x, ea) + b0 + fmul(x, eb)) % p);
    }
}

/// A convolution at a negative index vanishes.
pub proof fn lemma_conv_neg(a: Seq<FieldElement>, b: Seq<FieldElement>, k: int)
    requires
        k < 0,
    ensures
        conv_at(a, b, k) == 0,
    decreases a.len(),
{
    if a.len() == 0 {
    } else {
        lemma_conv_neg(a.drop_first(), b, k - 1);
        assert(coef(b, k) == 0);
        assert(a.first().value * 0 == 0);
        assert(fmul(a.first().value as int, 0) == 0int % (P as int));
        assert(fadd(0, 0) == 0int % (P as int));
    }
}

/// A convolution past both lengths vanishes.
pub proof fn lemma_conv_high(a: Seq<FieldElement>, b: Seq<FieldElement>, k: int)
    requires
        k >= a.len() + b.len() - 1,
    ensures
        conv_at(a, b, k) == 0,
    decreases a.len(),
{
    if a.len() == 0 {
    } else {
        lemma_conv_high(a.drop_first(), b, k - 1);
        assert(coef(b, k) == 0);
        assert(a.first().value * 0 == 0);
        assert(fmul(a.first().value as int, 0) == 0int % (P as int));
        assert(fadd(0, 0) == 0int % (P as int));
    }
}

/// Scalar multiple of a coefficient sequence.
pub open spec fn smul(c: int, s: Seq<FieldElement>) -> Seq<FieldElement> {
    Seq::new(s.len(), |i: int| fe(fmul(c, coef(s, i))))
}

/// Evaluation of a scalar multiple.
pub proof fn lemma_eval_smul(c: int, s: Seq<FieldElement>, x: int)
    requires
        poly_wf(s),
    ensures
        eval(smul(c, s), x) == fmul(c, eval(s, x)),
    decreases s.len(),
{
    let p = P as int;
    if s.len() == 0 {
        assert(c * 0 == 0);
        assert(fmul(c, 0) == 0int % p);
    } else {
        let s1 = s.drop_first();
        assert(poly_wf(s1)) by {
            assert(forall|i: int| 0 <= i < s1.len() ==> s1[i] == s[i + 1]);
        }
        lemma_eval_smul(c, s1, x);
        assert(smul(c, s).drop_first() =~= smul(c, s1)) by {
            assert forall|i: int| 0 <= i < s.len() - 1
                implies smul(c, s).drop_first()[i] == smul(c, s1)[i] by {
                assert(coef(s1, i) == coef(s, i + 1));
            }
        }
        let s0 = s.first().value as int;
        let e1 = eval(s1, x);
        lemma_eval_bound(s1, x);
        assert(smul(c, s).first() == fe(fmul(c, s0)));
        lemma_mod_bound(c * s0, p);
        assert(eval(smul(c, s), x) == fadd(fmul(c, s0), fmul(x, fmul(c, e1))));
        // c * (s0 + x*e1) == c*s0 + x*(c*e1), all modulo P
        lemma_fmul_distributive(c, s0, fmul(x, e1));
        assert(fmul(c, fadd(s0, fmul(x, e1))) == fadd(fmul(c, s0), fmul(c, fmul(x, e1))));
        lemma_fmul_associative(c, x, e1);
        lemma_fmul_commutative(c, x);
        lemma_fmul_associative(x, c, e1);
        assert(fmul(c, fmul(x, e1)) == fmul(fmul(c, x), e1));
        assert(fmul(fmul(c, x), e1) == fmul(fmul(x, c), e1));
        assert(fmul(fmul(x, c), e1) == fmul(x, fmul(c, e1)));
    }
}

/// The product with a nonempty left factor decomposes into the scalar
/// multiple by its head plus the shifted product with its tail.
pub proof fn lemma_pmul_decompose(a: Seq<FieldElement>, b: Seq<FieldElement>)
    requires
        a.len() >= 1,
        b.len() >= 1,
    ensures
        pmul(a, b) == padd(smul(a.first().value as int, b),
            seq![fe(0)] + pmul(a.drop_first(), b)),
    decreases a.len(),
{
    let a1 = a.drop_first();
    let t = pmul(a1, b);
    let u = seq![fe(0)] + t;
    let v = smul(a.first().value as int, b);
    assert(pmul(a, b) =~= padd(v, u)) by {
        assert(pmul(a, b).len() == a.len() + b.len() - 1);
        assert(u.len() == if a1.len() == 0 { 1int } else { a.len() + b.len() - 1 });
        assert(padd(v, u).len() == a.len() + b.len() - 1);
        assert forall|k: int| 0 <= k < a.len() + b.len() - 1
            implies pmul(a, b)[k] == padd(v, u)[k] by {
            let a0 = a.first().value as int;
            assert(conv_at(a, b, k) == fadd(fmul(a0, coef(b, k)), conv_at(a1, b, k - 1)));
            // coef(v, k) == fmul(a0, coef(b, k)) at every index
            if k >= b.len() {
                assert(coef(b, k) == 0);
                assert(a0 * 0 == 0);
                assert(fmul(a0, 0) == 0int % (P as int));
            }
            // coef(u, k) == conv_at(a1, b, k - 1) at every index
            if k == 0 {
                lemma_conv_neg(a1, b, k - 1);
            } else if k - 1 >= t.len() {
                if a1.len() == 0 {
                    assert(conv_at(a1, b, k - 1) == 0);
                } else {
                    lemma_conv_high(a1, b, k - 1);
                }
                assert(coef(u, k) == 0);
            } else {
                assert(u[k] == t[k - 1]);
            }
            lemma_conv_bound(a1, b, k - 1);
            lemma_mod_bound(a0 * coef(b, k), P as int);
        }
    }
}

/// Evaluation distributes over the product.
pub proof fn lemma_eval_pmul(a: Seq<FieldElement>, b: Seq<FieldElement>, x: int)
    requires
        poly_wf(a),
        poly_wf(b),
    ensures
        eval(pmul(a, b), x) == fmul(eval(a, x), eval(b, x)),
    decreases a.len(),
{
    let p = P as int;
    lemma_eval_bound(a, x);
    lemma_eval_bound(b, x);
    if a.len() == 0 {
        assert(0 * eval(b, x) == 0);
        assert(fmul(0, eval(b, x)) == 0int % p);
    } else if b.len() == 0 {
        assert(pmul(a, b).len() == 0);
        assert(eval(a, x) * 0 == 0);
        assert(fmul(eval(a, x), 0) == 0int % p);
    } else {
        let a0 = a.first().value as int;
        let a1 = a.drop_first();
        assert(poly_wf(a1)) by {
            assert(forall|i: int| 0 <= i < a1.len() ==> a1[i] == a[i + 1]);
        }
        lemma_pmul_decompose(a, b);
        let t = pmul(a1, b);
        let u = seq![fe(0)] + t;
        let v = smul(a0, b);
        assert(poly_wf(v)) by {
            assert forall|i: int| 0 <= i < v.len()
                implies (#[trigger] v[i]).value < P by {
                lemma_mod_bound(a0 * coef(b, i), p);
            }
        }
        assert(poly_wf(t)) by {
            assert forall|i: int| 0 <= i < t.len()
                implies (#[trigger] t[i]).value < P by {
                lemma_conv_bound(a1, b, i);
            }
        }
        assert(poly_wf(u)) by {
            assert(u[0] == fe(0));
            assert(forall|i: int| 1 <= i < u.len() ==> u[i] == t[i - 1]);
        }
        lemma_eval_padd(v, u, x);
        lemma_eval_smul(a0, b, x);
        // eval(u, x) == fmul(x, eval(t, x))
        assert(u.first() == fe(0));
        assert(u.drop_first() =~= t);
        lemma_eval_bound(t, x);
        assert(eval(u, x) == fadd(0, fmul(x, eval(t, x))));
        lemma_mod_bound(x * eval(t, x), p);
        lemma_small_mod(fmul(x, eval(t, x)) as nat, P as nat);
        assert(eval(u, x) == fmul(x, eval(t, x)));
        lemma_eval_pmul(a1, b, x);
        // assemble: eval(a)*eval(b) == a0*eval(b) + x*(eval(a1)*eval(b))
        let ea1 = eval(a1, x);
        let eb = eval(b, x);
        lemma_eval_bound(a1, x);
        assert(eval(pmul(a, b), x) == fadd(fmul(a0, eb), fmul(x, fmul(ea1, eb))));
        lemma_fmul_associative(x, ea1, eb);
        assert(fmul(x, fmul(ea1, eb)) == fmul(fmul(x, ea1), eb));
        // (a0 + x*ea1) * eb == a0*eb + (x*ea1)*eb
        lemma_fmul_commutative(fadd(a0, fmul(x, ea1)), eb);
        lemma_fmul_distributive(eb, a0, fmul(x, ea1));
        assert(fmul(eb, fadd(a0, fmul(x, ea1)))
            == fadd(fmul(eb, a0), fmul(eb, fmul(x, ea1))));
        lemma_fmul_commutative(eb, a0);
        lemma_fmul_commutative(eb, fmul(x, ea1));
        assert(eval(a, x) == fadd(a0, fmul(x, ea1)));
    }
}

/// Polynomial ring law: multiplication distributes over addition,
/// coefficient by coefficient.
pub proof fn lemma_conv_distributive(
    a: Seq<FieldElement>,
    b: Seq<FieldElement>,
    c: Seq<FieldElement>,
    k: int,
)
    ensures
        conv_at(a, padd(b, c), k) == fadd(conv_at(a, b, k), conv_at(a, c, k)),
    decreases a.len(),
{
    let p = P as int;
    if a.len() == 0 {
        assert(fadd(0, 0) == 0int % p);
    } else {
        let a0 = a.first().value as int;
        lemma_conv_distributive(a.drop_first(), b, c, k - 1);
        lemma_padd_coef(b, c, k);
        lemma_fmul_distributive(a0, coef(b, k), coef(c, k));
        let m1 = fmul(a0, coef(b, k));
        let m2 = fmul(a0, coef(c, k));
        let t1 = conv_at(a.drop_first(), b, k - 1);
        let t2 = conv_at(a.drop_first(), c, k - 1);
        lemma_fadd4(m1, m2, t1, t2);
        lemma_fadd4(m1, t1, m2, t2);
        assert(fadd(fadd(m1, m2), fadd(t1, t2)) == (m1 + m2 + t1 + t2) % p);
        assert(fadd(fadd(m1, t1), fadd(m2, t2)) == (m1 + t1 + m2 + t2) % p);
    }
}

/// Polynomial ring law: a * (b + c) and a * b + a * c denote the same
/// polynomial.
pub proof fn lemma_pmul_distributive(
    a: Seq<FieldElement>,
    b: Seq<FieldElement>,
    c: Seq<FieldElement>,
)
    ensures
        cequiv(pmul(a, padd(b, c)), padd(pmul(a, b), pmul(a, c))),
        poly_equiv(pmul(a, padd(b, c)), padd(pmul(a, b), pmul(a, c))),
{
    let lhs = pmul(a, padd(b, c));
    let rhs = padd(pmul(a, b), pmul(a, c));
    assert forall|k: int| coef(lhs, k) == coef(rhs, k) by {
        lemma_conv_distributive(a, b, c, k);
        lemma_conv_bound(a, padd(b, c), k);
        lemma_conv_bound(a, b, k);
        lemma_conv_bound(a, c, k);
        lemma_padd_coef(pmul(a, b), pmul(a, c), k);
        // coefficients of each product agree with conv_at at every index
        if !(0 <= k < lhs.len()) {
            if k >= 0 && a.len() > 0 && padd(b, c).len() > 0 {
                lemma_conv_high(a, padd(b, c), k);
            } else if k < 0 {
                lemma_conv_neg(a, padd(b, c), k);
            } else {
                lemma_conv_zero_empty(a, padd(b, c), k);
            }
        }
        if !(0 <= k < pmul(a, b).len()) {
            if k >= 0 && a.len() > 0 && b.len() > 0 {
                lemma_conv_high(a, b, k);
            } else if k < 0 {
                lemma_conv_neg(a, b, k);
            } else {
                lemma_conv_zero_empty(a, b, k);
            }
        }
        if !(0 <= k < pmul(a, c).len()) {
            if k >= 0 && a.len() > 0 && c.len() > 0 {
                lemma_conv_high(a, c, k);
            } else if k < 0 {
                lemma_conv_neg(a, c, k);
            } else {
                lemma_conv_zero_empty(a, c, k);
            }
        }
    }
    lemma_cequiv_deg(lhs, rhs);
}

/// A convolution with an empty factor vanishes.
pub proof fn lemma_conv_zero_empty(a: Seq<FieldElement>, b: Seq<FieldElement>, k: int)
    requires
        a.len() == 0 || b.len() == 0,
    ensures
        conv_at(a, b, k) == 0,
    decreases a.len(),
{
    if a.len() == 0 {
    } else {
        lemma_conv_zero_empty(a.drop_first(), b, k - 1);
        assert(coef(b, k) == 0);
        assert(a.first().value * 0 == 0);
        assert(fmul(a.first().value as int, 0) == 0int % (P as int));
        assert(fadd(0, 0) == 0int % (P as int));
    }
}

} // verus!

verus! {

/// The monic polynomial vanishing exactly on the given points,
/// built factor by factor.
pub open spec fn zerofier_spec(xs: Seq<FieldElement>) -> Seq<FieldElement>
    decreases xs.len(),
{
    if xs.len() == 0 {
        seq![fe(1)]
    } else {
        pmul(zerofier_spec(xs.drop_last()), seq![fe(fneg(xs.last().value as int)), fe(1)])
    }
}

/// The top coefficient of a product is the product of the top entries.
pub proof fn lemma_conv_top(a: Seq<FieldElement>, b: Seq<FieldElement>)
    requires
        a.len() >= 1,
        b.len() >= 1,
    ensures
        conv_at(a, b, a.len() + b.len() - 2)
            == fmul(a.last().value as int, b.last().value as int),
    decreases a.len(),
{
    let p = P as int;
    let k = a.len() + b.len() - 2;
    if a.len() == 1 {
        assert(a.first() == a.last());
        assert(coef(b, k) == b.last().value);
        let m = fmul(a.last().value as int, b.last().value as int);
        lemma_mod_bound(a.last().value * b.last().value, p);
        lemma_small_mod(m as nat, P as nat);
        assert(a.drop_first().len() == 0);
        assert(conv_at(a.drop_first(), b, k - 1) == 0);
        assert(conv_at(a, b, k) == fadd(m, 0));
    } else {
        lemma_conv_top(a.drop_first(), b);
        assert(a.drop_first().last() == a.last());
        assert(coef(b, k) == 0);
        assert(a.first().value * 0 == 0);
        assert(fmul(a.first().value as int, 0) == 0int % p);
        let t = fmul(a.last().value as int, b.last().value as int);
        lemma_mod_bound(a.last().value * b.last().value, p);
        lemma_small_mod(t as nat, P as nat);
        assert(conv_at(a, b, k) == fadd(0, t));
    }
}

/// The zerofier is monic of degree `xs.len()` and vanishes on every point
/// of `xs`.
pub proof fn lemma_zerofier_props(xs: Seq<FieldElement>)
    requires
        poly_wf(xs),
    ensures
        zerofier_spec(xs).len() == xs.len() + 1,
        poly_wf(zerofier_spec(xs)),
        zerofier_spec(xs).last().value == 1,
        deg(zerofier_spec(xs)) == xs.len(),
        forall|i: int| 0 <= i < xs.len()
            ==> eval(zerofier_spec(xs), (#[trigger] xs[i]).value as int) == 0,
    decreases xs.len(),
{
    let p = P as int;
    if xs.len() == 0 {
        assert(zerofier_spec(xs) == seq![fe(1)]);
        assert(seq![fe(1)].last() == fe(1));
        assert(deg(seq![fe(1)]) == 0);
    } else {
        let xs1 = xs.drop_last();
        assert(poly_wf(xs1)) by {
            assert(forall|i: int| 0 <= i < xs1.len() ==> xs1[i] == xs[i]);
        }
        lemma_zerofier_props(xs1);
        let z1 = zerofier_spec(xs1);
        let xn = xs.last().value as int;
        let f = seq![fe(fneg(xn)), fe(1)];
        assert(poly_wf(f)) by {
            lemma_mod_bound(P - xn, p);
            assert(f[0] == fe(fneg(xn)) && f[1] == fe(1));
        }
        let z = zerofier_spec(xs);
        assert(z == pmul(z1, f));
        assert(z.len() == z1.len() + 1);
        // the top coefficient is the product of the monic tops
        lemma_conv_top(z1, f);
        assert(z1.last().value as int == coef(z1, z1.len() - 1));
        assert(f.last().value as int == 1);
        assert(1int * 1int == 1int);
        lemma_small_mod(1nat, P as nat);
        assert(fmul(1, 1) == 1);
        assert(z.last().value as int == conv_at(z1, f, z1.len() + f.len() - 2));
        assert(z.last().value == 1);
        assert(deg(z) == z.len() - 1);
        assert(poly_wf(z)) by {
            assert forall|i: int| 0 <= i < z.len()
                implies (#[trigger] z[i]).value < P by {
                lemma_conv_bound(z1, f, i);
            }
        }
        // evaluation at each domain point
        assert forall|i: int| 0 <= i < xs.len()
            implies eval(z, (#[trigger] xs[i]).value as int) == 0 by {
            let x = xs[i].value as int;
            lemma_eval_pmul(z1, f, x);
            // eval(f, x) == fadd(fneg(xn), x)
            assert(f.drop_first() =~= seq![fe(1)]);
            assert(seq![fe(1)].drop_first() =~= Seq::<FieldElement>::empty());
            assert(x * 0 == 0);
            lemma_small_mod(0nat, P as nat);
            assert(fmul(x, 0) == 0);
            lemma_small_mod(1nat, P as nat);
            assert(eval(Seq::<FieldElement>::empty(), x) == 0);
            assert(eval(seq![fe(1)], x) == fadd(1, 0));
            assert(fadd(1, 0) == 1);
            assert(x * 1 == x);
            lemma_small_mod(x as nat, P as nat);
            assert(fmul(x, 1) == x);
            assert(eval(f, x) == fadd(fneg(xn), x));
            if i < xs.len() - 1 {
                assert(xs1[i] == xs[i]);
                assert(eval(z1, x) == 0);
                assert(0 * eval(f, x) == 0);
                assert(fmul(0, eval(f, x)) == 0int % p);
            } else {
                // x == xn: the final factor vanishes
                assert(x == xn);
                lemma_add_mod_noop(P - xn, xn, p);
                lemma_small_mod(xn as nat, P as nat);
                vstd::arithmetic::div_mod::lemma_mod_self_0(p);
                assert(((P - xn) % p + xn % p) % p == (P - xn + xn) % p);
                assert(fadd(fneg(xn), x) == 0);
                assert(eval(z1, x) * 0 == 0);
                assert(fmul(eval(z1, x), 0) == 0int % p);
            }
        }
    }
}

/// A difference of two distinct reduced residues is a nonzero residue.
pub proof fn lemma_fsub_nonzero(a: int, b: int)
    requires
        0 <= a < P,
        0 <= b < P,
        a != b,
    ensures
        fsub(a, b) != 0,
        0 <= fsub(a, b) < P,
{
    let p = P as int;
    lemma_mod_bound(a - b, p);
    if a > b {
        lemma_small_mod((a - b) as nat, P as nat);
    } else {
        vstd::arithmetic::div_mod::lemma_mod_add_multiples_vanish(a - b, p);
        lemma_small_mod((a - b + P) as nat, P as nat);
    }
}

/// One Lagrange factor: (X - xj) / (xi - xj), as coefficients.
pub open spec fn lag_factor(xi: int, xj: int) -> Seq<FieldElement> {
    pmul(psub(seq![fe(0), fe(1)], seq![fe(xj)]), seq![fe(finv(fsub(xi, xj)))])
}

/// The partial product of Lagrange factors for base point i, over the
/// first j domain points (skipping j' == i), seeded with the value y.
pub open spec fn lag_prod(xs: Seq<FieldElement>, y: FieldElement, i: int, j: int) -> Seq<FieldElement>
    decreases j,
{
    if j <= 0 {
        seq![y]
    } else if j - 1 == i {
        lag_prod(xs, y, i, j - 1)
    } else {
        pmul(lag_prod(xs, y, i, j - 1),
            lag_factor(xs[i].value as int, xs[j - 1].value as int))
    }
}

/// The partial Lagrange interpolant: the sum of the first i basis products.
pub open spec fn lag_sum(xs: Seq<FieldElement>, ys: Seq<FieldElement>, i: int) -> Seq<FieldElement>
    decreases i,
{
    if i <= 0 {
        seq![fe(0)]
    } else {
        padd(lag_sum(xs, ys, i - 1), lag_prod(xs, ys[i - 1], i - 1, xs.len() as int))
    }
}

impl Polynomial {
    /// The monic polynomial vanishing exactly on the domain points.
    pub fn zerofier_domain(domain: &Vec<FieldElement>) -> (r: Polynomial)
        requires
            poly_wf(domain@),
            domain@.len() + 2 <= usize::MAX,
        ensures
            r.coefs@ == zerofier_spec(domain@),
            poly_wf(r.coefs@),
            r.coefs@.len() == domain@.len() + 1,
    {
        let mut acc_v: Vec<FieldElement> = Vec::new();
        acc_v.push(FieldElement::one());
        let mut acc = Polynomial { coefs: acc_v };
        let mut d: usize = 0;
        proof {
            assert(acc.coefs@ =~= seq![fe(1)]);
            assert(domain@.take(0) =~= Seq::<FieldElement>::empty());
        }
        while d < domain.len()
            invariant
                d <= domain@.len(),
                domain@.len() + 2 <= usize::MAX,
                poly_wf(domain@),
                acc.coefs@ == zerofier_spec(domain@.take(d as int)),
                poly_wf(acc.coefs@),
                acc.coefs@.len() == d + 1,
            decreases domain@.len() - d,
        {
            let mut fv: Vec<FieldElement> = Vec::new();
            fv.push(domain[d].neg());
            fv.push(FieldElement::one());
            let factor = Polynomial { coefs: fv };
            proof {
                assert(factor.coefs@ =~= seq![fe(fneg(domain@[d as int].value as int)), fe(1)]);
            }
            acc = acc.mul(factor);
            proof {
                assert(domain@.take(d + 1).drop_last() =~= domain@.take(d as int));
                assert(domain@.take(d + 1).last() == domain@[d as int]);
            }
            d = d + 1;
        }
        proof {
            assert(domain@.take(domain@.len() as int) =~= domain@);
            lemma_zerofier_props(domain@);
        }
        acc
    }

    /// Lagrange interpolation through the given points. The domain points
    /// must be pairwise distinct; the result passes through every
    /// (domain[i], values[i]) pair.
    pub fn interpolate_domain(domain: &Vec<FieldElement>, values: &Vec<FieldElement>) -> (r: Polynomial)
        requires
            domain@.len() == values@.len(),
            domain@.len() > 0,
            domain@.len() + 2 <= usize::MAX,
            poly_wf(domain@),
            poly_wf(values@),
            forall|i: int, j: int| 0 <= i < j < domain@.len()
                ==> (#[trigger] domain@[i]).value != (#[trigger] domain@[j]).value,
        ensures
            r.coefs@ == lag_sum(domain@, values@, domain@.len() as int),
            poly_wf(r.coefs@),
    {
        let n = domain.len();
        let mut acc_v: Vec<FieldElement> = Vec::new();
        acc_v.push(FieldElement::new(0));
        let mut acc = Polynomial { coefs: acc_v };
        proof {
            assert(acc.coefs@ =~= seq![fe(0)]);
        }
        let mut i: usize = 0;
        while i < n
            invariant
                i <= n,
                n == domain@.len(),
                domain@.len() == values@.len(),
                domain@.len() + 2 <= usize::MAX,
                poly_wf(domain@),
                poly_wf(values@),
                forall|a: int, b: int| 0 <= a < b < domain@.len()
                    ==> (#[trigger] domain@[a]).value != (#[trigger] domain@[b]).value,
                acc.coefs@ == lag_sum(domain@, values@, i as int),
                poly_wf(acc.coefs@),
                acc.coefs@.len() <= n + 1,
            decreases n - i,
        {
            let mut prod_v: Vec<FieldElement> = Vec::new();
            prod_v.push(values[i]);
            let mut prod = Polynomial { coefs: prod_v };
            proof {
                assert(prod.coefs@ =~= seq![values@[i as int]]);
            }
            let mut j: usize = 0;
            while j < n
                invariant
                    j <= n,
                    i < n,
                    n == domain@.len(),
                    domain@.len() == values@.len(),
                    domain@.len() + 2 <= usize::MAX,
                    poly_wf(domain@),
                    poly_wf(values@),
                    forall|a: int, b: int| 0 <= a < b < domain@.len()
                        ==> (#[trigger] domain@[a]).value != (#[trigger] domain@[b]).value,
                    prod.coefs@ == lag_prod(domain@, values@[i as int], i as int, j as int),
                    poly_wf(prod.coefs@),
                    prod.coefs@.len() >= 1,
                    prod.coefs@.len() <= j + 1,
                decreases n - j,
            {
                if j != i {
                    let mut xv: Vec<FieldElement> = Vec::new();
                    xv.push(FieldElement::zero());
                    xv.push(FieldElement::one());
                    let x_poly = Polynomial { coefs: xv };
                    let mut cv: Vec<FieldElement> = Vec::new();
                    cv.push(domain[j]);
                    let c_poly = Polynomial { coefs: cv };
                    proof {
                        assert(x_poly.coefs@ =~= seq![fe(0), fe(1)]);
                        assert(c_poly.coefs@ =~= seq![fe(domain@[j as int].value as int)]);
                    }
                    let diff = x_poly.sub(c_poly);
                    let d_elem = domain[i].sub(domain[j]);
                    proof {
                        if i < j {
                            assert(domain@[i as int].value != domain@[j as int].value);
                        } else {
                            assert(domain@[j as int].value != domain@[i as int].value);
                        }
                        lemma_fsub_nonzero(
                            domain@[i as int].value as int,
                            domain@[j as int].value as int,
                        );
                    }
                    let inv_elem = d_elem.inverse();
                    let mut iv: Vec<FieldElement> = Vec::new();
                    iv.push(inv_elem);
                    let i_poly = Polynomial { coefs: iv };
                    proof {
                        assert(i_poly.coefs@ =~= seq![fe(finv(fsub(
                            domain@[i as int].value as int,
                            domain@[j as int].value as int)))]);
                    }
                    let scaled = diff.mul(i_poly);
                    prod = prod.mul(scaled);
                }
                j = j + 1;
            }
            acc = acc.add(prod);
            proof {
                lemma_padd_wf(acc.coefs@, prod.coefs@);
            }
            i = i + 1;
        }
        acc
    }

    /// True iff the interpolant through the points has degree at most one.
    pub fn test_colinearity(domain: Vec<FieldElement>, values: Vec<FieldElement>) -> (r: bool)
        requires
            domain@.len() == values@.len(),
            domain@.len() > 0,
            domain@.len() + 2 <= usize::MAX,
            poly_wf(domain@),
            poly_wf(values@),
            forall|i: int, j: int| 0 <= i < j < domain@.len()
                ==> (#[trigger] domain@[i]).value != (#[trigger] domain@[j]).value,
        ensures
            r == (deg(lag_sum(domain@, values@, domain@.len() as int)) <= 1),
    {
        let polynomial = Polynomial::interpolate_domain(&domain, &values);
        polynomial.degree() <= 1
    }
}

} // verus!

verus! {

/// Products of well-formed polynomials are well-formed.
pub proof fn lemma_pmul_wf(a: Seq<FieldElement>, b: Seq<FieldElement>)
    ensures
        poly_wf(pmul(a, b)),
{
    assert forall|i: int| 0 <= i < pmul(a, b).len()
        implies (#[trigger] pmul(a, b)[i]).value < P by {
        lemma_conv_bound(a, b, i);
    }
}

/// One Lagrange factor is well-formed and evaluates, at x, to
/// (x - xj) / (xi - xj).
pub proof fn lemma_lag_factor_eval(xi: int, xj: int, x: int)
    requires
        0 <= xj < P,
        0 <= x < P,
    ensures
        poly_wf(lag_factor(xi, xj)),
        eval(lag_factor(xi, xj), x) == fmul(fsub(x, xj), finv(fsub(xi, xj))),
{
    let p = P as int;
    let lin = psub(seq![fe(0), fe(1)], seq![fe(xj)]);
    let iv = finv(fsub(xi, xj));
    lemma_finv_bound(fsub(xi, xj));
    let ivp = seq![fe(iv)];
    assert(poly_wf(lin)) by {
        lemma_mod_bound(0 - xj, p);
        lemma_mod_bound(1 - 0, p);
        assert(lin[0] == fe(fsub(0, xj)) && lin[1] == fe(fsub(1, 0)));
    }
    assert(poly_wf(ivp)) by {
        assert(ivp[0] == fe(iv));
    }
    lemma_pmul_wf(lin, ivp);
    lemma_eval_pmul(lin, ivp, x);
    // the linear part evaluates to (x - xj) mod P
    lemma_small_mod(0nat, P as nat);
    lemma_small_mod(1nat, P as nat);
    assert(fsub(1, 0) == 1);
    assert(lin.drop_first() =~= seq![fe(1)]);
    assert(seq![fe(1)].drop_first() =~= Seq::<FieldElement>::empty());
    assert(x * 0 == 0);
    assert(fmul(x, 0) == 0);
    assert(eval(Seq::<FieldElement>::empty(), x) == 0);
    assert(eval(seq![fe(1)], x) == fadd(1, 0));
    lemma_small_mod(1nat, P as nat);
    assert(fadd(1, 0) == 1);
    assert(x * 1 == x);
    lemma_small_mod(x as nat, P as nat);
    assert(fmul(x, 1) == x);
    let c0 = fsub(0, xj);
    lemma_mod_bound(0 - xj, p);
    assert(eval(lin, x) == fadd(c0, x));
    // fadd((0 - xj) % p, x) == (x - xj) % p
    lemma_add_mod_noop(0 - xj, x, p);
    lemma_small_mod(x as nat, P as nat);
    assert((c0 + x % p) % p == (0 - xj + x) % p);
    assert(eval(lin, x) == fsub(x, xj));
    // the constant part evaluates to the inverse factor
    assert(ivp.drop_first() =~= Seq::<FieldElement>::empty());
    assert(iv * 0 == 0);
    assert(fmul(x, 0) == 0);
    assert(eval(Seq::<FieldElement>::empty(), x) == 0);
    assert(eval(ivp, x) == fadd(iv, 0));
    lemma_small_mod(iv as nat, P as nat);
    assert(fadd(iv, 0) == iv);
}

/// Partial Lagrange basis products are well-formed.
pub proof fn lemma_lag_prod_wf(xs: Seq<FieldElement>, y: FieldElement, i: int, j: int)
    requires
        y.wf(),
    ensures
        poly_wf(lag_prod(xs, y, i, j)),
    decreases j,
{
    if j <= 0 {
        assert(lag_prod(xs, y, i, j) =~= seq![y]);
        assert(seq![y][0] == y);
    } else if j - 1 == i {
        lemma_lag_prod_wf(xs, y, i, j - 1);
    } else {
        lemma_pmul_wf(lag_prod(xs, y, i, j - 1),
            lag_factor(xs[i].value as int, xs[j - 1].value as int));
    }
}

/// At its own base point, a Lagrange basis product evaluates to its seed
/// value: every factor there is (xi - xj) / (xi - xj) == 1.
pub proof fn lemma_lag_prod_at_base(xs: Seq<FieldElement>, y: FieldElement, i: int, j: int)
    requires
        y.wf(),
        poly_wf(xs),
        0 <= i < xs.len(),
        j <= xs.len(),
        forall|a: int, b: int| 0 <= a < xs.len() && 0 <= b < xs.len() && a != b
            ==> invertible(fsub((#[trigger] xs[a]).value as int, (#[trigger] xs[b]).value as int)),
    ensures
        eval(lag_prod(xs, y, i, j), xs[i].value as int) == y.value,
    decreases j,
{
    let p = P as int;
    let x = xs[i].value as int;
    if j <= 0 {
        assert(lag_prod(xs, y, i, j) == seq![y]);
        assert(seq![y].drop_first() =~= Seq::<FieldElement>::empty());
        assert(x * 0 == 0);
        lemma_small_mod(0nat, P as nat);
        assert(fmul(x, 0) == 0);
        assert(eval(Seq::<FieldElement>::empty(), x) == 0);
        assert(eval(seq![y], x) == fadd(y.value as int, 0));
        lemma_small_mod(y.value as nat, P as nat);
    } else if j - 1 == i {
        lemma_lag_prod_at_base(xs, y, i, j - 1);
    } else {
        lemma_lag_prod_at_base(xs, y, i, j - 1);
        let prev = lag_prod(xs, y, i, j - 1);
        let xj = xs[j - 1].value as int;
        lemma_lag_prod_wf(xs, y, i, j - 1);
        lemma_lag_factor_eval(x, xj, x);
        lemma_eval_pmul(prev, lag_factor(x, xj), x);
        // the factor at the base point is exactly one
        assert(invertible(fsub(x, xj)));
        lemma_finv_works(fsub(x, xj));
        assert(fmul(fsub(x, xj), finv(fsub(x, xj))) == 1);
        assert(eval(lag_factor(x, xj), x) == 1);
        lemma_eval_bound(prev, x);
        assert(eval(prev, x) * 1 == eval(prev, x));
        lemma_small_mod(eval(prev, x) as nat, P as nat);
        assert(fmul(eval(prev, x), 1) == eval(prev, x));
    }
}

/// At any other already-processed point, a Lagrange basis product
/// evaluates to zero: the factor for that point vanishes there.
pub proof fn lemma_lag_prod_at_other(xs: Seq<FieldElement>, y: FieldElement, i: int, j: int, k: int)
    requires
        y.wf(),
        poly_wf(xs),
        0 <= i < xs.len(),
        0 <= k < xs.len(),
        k != i,
        k < j,
        j <= xs.len(),
        forall|a: int, b: int| 0 <= a < xs.len() && 0 <= b < xs.len() && a != b
            ==> invertible(fsub((#[trigger] xs[a]).value as int, (#[trigger] xs[b]).value as int)),
    ensures
        eval(lag_prod(xs, y, i, j), xs[k].value as int) == 0,
    decreases j,
{
    let p = P as int;
    let x = xs[k].value as int;
    if j - 1 == i {
        lemma_lag_prod_at_other(xs, y, i, j - 1, k);
    } else {
        let prev = lag_prod(xs, y, i, j - 1);
        let xj = xs[j - 1].value as int;
        let xi = xs[i].value as int;
        lemma_lag_prod_wf(xs, y, i, j - 1);
        lemma_lag_factor_eval(xi, xj, x);
        lemma_eval_pmul(prev, lag_factor(xi, xj), x);
        lemma_eval_bound(prev, x);
        lemma_small_mod(0nat, P as nat);
        if k == j - 1 {
            // this very factor vanishes at x == xj
            crate::algebra::lemma_fsub_self(x);
            assert(fsub(x, xj) == 0);
            lemma_finv_bound(fsub(xi, xj));
            assert(0 * finv(fsub(xi, xj)) == 0);
            assert(fmul(0, finv(fsub(xi, xj))) == 0);
            assert(eval(lag_factor(xi, xj), x) == 0);
            assert(eval(prev, x) * 0 == 0);
            assert(fmul(eval(prev, x), 0) == 0);
        } else {
            // an earlier factor already vanished
            lemma_lag_prod_at_other(xs, y, i, j - 1, k);
            assert(eval(prev, x) == 0);
            let ef = eval(lag_factor(xi, xj), x);
            assert(0 * ef == 0);
            assert(fmul(0, ef) == 0);
        }
    }
}

/// Partial Lagrange sums are well-formed.
pub proof fn lemma_lag_sum_wf(xs: Seq<FieldElement>, ys: Seq<FieldElement>, i: int)
    requires
        poly_wf(ys),
        i <= ys.len(),
    ensures
        poly_wf(lag_sum(xs, ys, i)),
    decreases i,
{
    if i <= 0 {
        assert(lag_sum(xs, ys, i) == seq![fe(0)]);
        assert(seq![fe(0)][0] == fe(0));
    } else {
        lemma_padd_wf(lag_sum(xs, ys, i - 1),
            lag_prod(xs, ys[i - 1], i - 1, xs.len() as int));
    }
}

/// The partial Lagrange sum evaluates, at the k-th domain point, to the
/// k-th value once that point's basis product has been added, and to zero
/// before.
pub proof fn lemma_lag_sum_at(xs: Seq<FieldElement>, ys: Seq<FieldElement>, i: int, k: int)
    requires
        poly_wf(xs),
        poly_wf(ys),
        xs.len() == ys.len(),
        0 <= k < xs.len(),
        0 <= i <= xs.len(),
        forall|a: int, b: int| 0 <= a < xs.len() && 0 <= b < xs.len() && a != b
            ==> invertible(fsub((#[trigger] xs[a]).value as int, (#[trigger] xs[b]).value as int)),
    ensures
        eval(lag_sum(xs, ys, i), xs[k].value as int)
            == if k < i { ys[k].value as int } else { 0 },
    decreases i,
{
    let p = P as int;
    let x = xs[k].value as int;
    lemma_small_mod(0nat, P as nat);
    if i <= 0 {
        assert(lag_sum(xs, ys, i) == seq![fe(0)]);
        assert(seq![fe(0)].drop_first() =~= Seq::<FieldElement>::empty());
        assert(x * 0 == 0);
        assert(fmul(x, 0) == 0);
        assert(eval(Seq::<FieldElement>::empty(), x) == 0);
        assert(eval(seq![fe(0)], x) == fadd(0, 0));
        assert(fadd(0, 0) == 0);
    } else {
        lemma_lag_sum_at(xs, ys, i - 1, k);
        let prev = lag_sum(xs, ys, i - 1);
        let prod = lag_prod(xs, ys[i - 1], i - 1, xs.len() as int);
        lemma_lag_sum_wf(xs, ys, i - 1);
        lemma_lag_prod_wf(xs, ys[i - 1], i - 1, xs.len() as int);
        lemma_eval_padd(prev, prod, x);
        if k == i - 1 {
            lemma_lag_prod_at_base(xs, ys[i - 1], i - 1, xs.len() as int);
            assert(eval(prev, x) == 0);
            assert(eval(prod, x) == ys[k].value);
            lemma_small_mod(ys[k].value as nat, P as nat);
            assert(fadd(0, ys[k].value as int) == ys[k].value as int);
        } else {
            lemma_lag_prod_at_other(xs, ys[i - 1], i - 1, xs.len() as int, k);
            assert(eval(prod, x) == 0);
            if k < i - 1 {
                lemma_small_mod(ys[k].value as nat, P as nat);
                assert(fadd(ys[k].value as int, 0) == ys[k].value as int);
            } else {
                assert(fadd(0, 0) == 0);
            }
        }
    }
}

/// Interpolation round trip: the Lagrange interpolant through distinct
/// domain points passes through every given value. The hypothesis asks for
/// each pairwise difference of domain points to be invertible, which for
/// the prime modulus is exactly distinctness.
pub proof fn lemma_interpolation_round_trip(xs: Seq<FieldElement>, ys: Seq<FieldElement>, k: int)
    requires
        poly_wf(xs),
        poly_wf(ys),
        xs.len() == ys.len(),
        xs.len() > 0,
        0 <= k < xs.len(),
        forall|a: int, b: int| 0 <= a < xs.len() && 0 <= b < xs.len() && a != b
            ==> invertible(fsub((#[trigger] xs[a]).value as int, (#[trigger] xs[b]).value as int)),
    ensures
        eval(lag_sum(xs, ys, xs.len() as int), xs[k].value as int) == ys[k].value,
{
    lemma_lag_sum_at(xs, ys, xs.len() as int, k);
}

} // verus!

verus! {

/// The length of a partial Lagrange basis product: one coefficient slot per
/// processed factor, plus the seed; the skipped base index saves one.
pub proof fn lemma_lag_prod_len(xs: Seq<FieldElement>, y: FieldElement, i: int, j: int)
    requires
        0 <= i,
        0 <= j,
    ensures
        lag_prod(xs, y, i, j).len() == if i < j { j } else { j + 1 },
    decreases j,
{
    if j == 0 {
    } else if j - 1 == i {
        lemma_lag_prod_len(xs, y, i, j - 1);
    } else {
        lemma_lag_prod_len(xs, y, i, j - 1);
        let f = lag_factor(xs[i].value as int, xs[j - 1].value as int);
        assert(f.len() == 2);
        assert(lag_prod(xs, y, i, j - 1).len() >= 1);
    }
}

/// The length of a partial Lagrange sum: the domain size, once any basis
/// product has been added.
pub proof fn lemma_lag_sum_len(xs: Seq<FieldElement>, ys: Seq<FieldElement>, i: int)
    requires
        xs.len() > 0,
        0 <= i <= xs.len(),
    ensures
        lag_sum(xs, ys, i).len() == if i == 0 { 1int } else { xs.len() as int },
    decreases i,
{
    if i == 0 {
        assert(lag_sum(xs, ys, 0) == seq![fe(0)]);
    } else {
        lemma_lag_sum_len(xs, ys, i - 1);
        lemma_lag_prod_len(xs, ys[i - 1], i - 1, xs.len() as int);
        assert(lag_prod(xs, ys[i - 1], i - 1, xs.len() as int).len() == xs.len());
    }
}

/// The interpolant through n points has degree at most n - 1.
pub proof fn lemma_interpolant_degree(xs: Seq<FieldElement>, ys: Seq<FieldElement>)
    requires
        xs.len() == ys.len(),
        xs.len() > 0,
    ensures
        deg(lag_sum(xs, ys, xs.len() as int)) <= xs.len() - 1,
{
    lemma_lag_sum_len(xs, ys, xs.len() as int);
    lemma_deg_props(lag_sum(xs, ys, xs.len() as int));
}

} // verus!
