//! Dense and sparse polynomials over the native field, with long division
//! and evaluation.
//!
//! A dense polynomial is a coefficient vector indexed by degree, kept in
//! canonical form (no trailing zero coefficient; the zero polynomial is the
//! empty vector). A sparse polynomial is a list of (degree, coefficient)
//! pairs with strictly increasing degrees and nonzero coefficients.
//!
//! The specification value of a polynomial at a point is the exact integer
//! sum of its terms; contracts equate values modulo the field prime.

use vstd::prelude::*;

use crate::fp::{fp_m, fp_add, fp_mul, fp_sub, fp_inverse, Fp};
use vstd::arithmetic::power::pow;

verus! {

/// The integer values of a coefficient vector.
pub open spec fn fpseq(s: Seq<Fp>) -> Seq<nat> {
    s.map_values(|c: Fp| c@)
}

/// Every element of the vector is canonical.
pub open spec fn fpseq_wf(s: Seq<Fp>) -> bool {
    forall|i: int| 0 <= i < s.len() ==> #[trigger] s[i].wf()
}

/// The exact integer value of the dense coefficient sequence `s` at `x`:
/// `s[0] + s[1]*x + s[2]*x^2 + ...`, with no modular reduction.
pub open spec fn pe(s: Seq<nat>, x: nat) -> int
    decreases s.len(),
{
    if s.len() == 0 {
        0
    } else {
        s[0] + x * pe(s.subrange(1, s.len() as int), x)
    }
}

/// Appending a coefficient adds one term to the value.
pub proof fn lemma_pe_push(s: Seq<nat>, c: nat, x: nat)
    ensures
        pe(s.push(c), x) == pe(s, x) + c * pow(x as int, s.len()),
    decreases s.len(),
{
    if s.len() == 0 {
        assert(s.push(c).subrange(1, 1) =~= Seq::<nat>::empty());
        assert(pe(Seq::<nat>::empty(), x) == 0);
        assert(pe(s.push(c), x) == c + x * pe(Seq::<nat>::empty(), x));
        vstd::arithmetic::power::lemma_pow0(x as int);
    } else {
        let t = s.subrange(1, s.len() as int);
        assert(s.push(c).subrange(1, (s.len() + 1) as int) =~= t.push(c));
        assert(pe(s.push(c), x) == s[0] + x * pe(t.push(c), x));
        assert(pe(s, x) == s[0] + x * pe(t, x));
        lemma_pe_push(t, c, x);
        assert(pow(x as int, s.len()) == pow(x as int, t.len()) * x) by {
            vstd::arithmetic::power::lemma_pow1(x as int);
            vstd::arithmetic::power::lemma_pow_adds(x as int, t.len(), 1);
        }
        assert(x as int * (pe(t, x) + c * pow(x as int, t.len())) == x as int * pe(t, x) + c * (
        pow(x as int, t.len()) * x)) by (nonlinear_arith);
    }
}

/// Replacing the coefficient of degree `k` shifts the value by the
/// difference times `x^k`.
pub proof fn lemma_pe_update(s: Seq<nat>, k: int, v: nat, x: nat)
    requires
        0 <= k < s.len(),
    ensures
        pe(s.update(k, v), x) == pe(s, x) + (v - s[k]) * pow(x as int, k as nat),
    decreases s.len(),
{
    let t = s.subrange(1, s.len() as int);
    if k == 0 {
        assert(s.update(0, v).subrange(1, s.len() as int) =~= t);
        vstd::arithmetic::power::lemma_pow0(x as int);
    } else {
        assert(s.update(k, v).subrange(1, s.len() as int) =~= t.update(k - 1, v));
        lemma_pe_update(t, k - 1, v, x);
        assert(pow(x as int, k as nat) == pow(x as int, (k - 1) as nat) * x) by {
            vstd::arithmetic::power::lemma_pow1(x as int);
            vstd::arithmetic::power::lemma_pow_adds(x as int, (k - 1) as nat, 1);
        }
        assert(x as int * (pe(t, x) + (v - s[k]) * pow(x as int, (k - 1) as nat)) == x as int
            * pe(t, x) + (v - s[k]) * (pow(x as int, (k - 1) as nat) * x))
            by (nonlinear_arith);
    }
}

/// Taking one more coefficient adds one term to the value.
pub proof fn lemma_pe_take_step(s: Seq<nat>, j: int, x: nat)
    requires
        0 <= j < s.len(),
    ensures
        pe(s.take(j + 1), x) == pe(s.take(j), x) + s[j] * pow(x as int, j as nat),
{
    assert(s.take(j + 1) =~= s.take(j).push(s[j]));
    lemma_pe_push(s.take(j), s[j], x);
}

/// Congruent factors give congruent products.
proof fn lemma_cong_mul(a: int, b: int, t: int, m: int)
    requires
        m > 0,
        a % m == b % m,
    ensures
        (a * t) % m == (b * t) % m,
{
    vstd::arithmetic::div_mod::lemma_mul_mod_noop_left(a, t, m);
    vstd::arithmetic::div_mod::lemma_mul_mod_noop_left(b, t, m);
}

/// Congruent addends give congruent sums.
proof fn lemma_cong_add(a: int, b: int, c: int, d: int, m: int)
    requires
        m > 0,
        a % m == b % m,
        c % m == d % m,
    ensures
        (a + c) % m == (b + d) % m,
{
    vstd::arithmetic::div_mod::lemma_add_mod_noop(a, c, m);
    vstd::arithmetic::div_mod::lemma_add_mod_noop(b, d, m);
}

/// A polynomial in dense coefficient form: the entry at index `i` is the
/// coefficient of `x^i`.
#[derive(Clone, Debug)]
pub struct DensePolynomial {
    /// The coefficients, lowest degree first.
    pub coeffs: Vec<Fp>,
}

impl View for DensePolynomial {
    type V = Seq<nat>;

    open spec fn view(&self) -> Seq<nat> {
        fpseq(self.coeffs@)
    }
}

impl DensePolynomial {
    /// Canonical form: every coefficient reduced, no trailing zero.
    pub open spec fn wf(&self) -> bool {
        &&& fpseq_wf(self.coeffs@)
        &&& self.coeffs@.len() > 0 ==> self@.last() != 0
    }

    /// The zero polynomial.
    pub fn zero() -> (r: DensePolynomial)
        ensures
            r.wf(),
            r@.len() == 0,
    {
        DensePolynomial { coeffs: Vec::new() }
    }

    /// Returns whether this is the zero polynomial.
    pub fn is_zero(&self) -> (r: bool)
        ensures
            r <==> self@.len() == 0,
    {
        self.coeffs.len() == 0
    }

    /// The degree; the zero polynomial reports degree zero.
    pub fn degree(&self) -> (r: usize)
        ensures
            r == self.degree_spec(),
    {
        if self.coeffs.len() == 0 {
            0
        } else {
            self.coeffs.len() - 1
        }
    }

    /// The degree as a specification value.
    pub open spec fn degree_spec(&self) -> nat {
        if self@.len() == 0 {
            0
        } else {
            (self@.len() - 1) as nat
        }
    }

    /// The highest-degree coefficient, if any.
    pub fn last(&self) -> (r: Option<&Fp>)
        ensures
            self@.len() == 0 <==> r is None,
            r matches Some(c) ==> c@ == self@.last() && self@.len() > 0,
    {
        if self.coeffs.len() == 0 {
            None
        } else {
            Some(&self.coeffs[self.coeffs.len() - 1])
        }
    }

    /// Builds a polynomial from a coefficient vector, trimming trailing
    /// zero coefficients into canonical form. The value at every point is
    /// unchanged by the trim.
    pub fn from_coefficients_vec(coeffs: Vec<Fp>) -> (r: DensePolynomial)
        requires
            fpseq_wf(coeffs@),
        ensures
            r.wf(),
            r@.len() <= coeffs@.len(),
            r@ == fpseq(coeffs@).take(r@.len() as int),
            forall|x: nat| #[trigger] pe(r@, x) == pe(fpseq(coeffs@), x),
            coeffs@.len() > 0 && fpseq(coeffs@).last() != 0 ==> r@ == fpseq(coeffs@),
    {
        let mut v = coeffs;
        let ghost orig = fpseq(v@);
        proof {
            assert(orig.take(orig.len() as int) =~= orig);
        }
        loop
            invariant
                fpseq_wf(v@),
                v@.len() <= orig.len(),
                fpseq(v@) == orig.take(v@.len() as int),
                forall|t: int| v@.len() <= t < orig.len() ==> orig[t] == 0,
                forall|x: nat| #[trigger] pe(fpseq(v@), x) == pe(orig, x),
            ensures
                fpseq_wf(v@),
                v@.len() <= orig.len(),
                fpseq(v@) == orig.take(v@.len() as int),
                forall|t: int| v@.len() <= t < orig.len() ==> orig[t] == 0,
                forall|x: nat| #[trigger] pe(fpseq(v@), x) == pe(orig, x),
                v@.len() > 0 ==> fpseq(v@).last() != 0,
            decreases v@.len(),
        {
            let n = v.len();
            if n == 0 {
                break ;
            }
            if !v[n - 1].is_zero() {
                proof {
                    assert(fpseq(v@).last() == v@.last()@);
                }
                break ;
            }
            let ghost prev = fpseq(v@);
            v.pop();
            proof {
                assert(fpseq(v@) =~= prev.take((prev.len() - 1) as int));
                assert(orig[v@.len() as int] == prev.last());
                assert(orig.take((prev.len() - 1) as int) =~= prev.take((prev.len() - 1) as int));
                assert forall|x: nat| #[trigger] pe(fpseq(v@), x) == pe(orig, x) by {
                    assert(prev =~= fpseq(v@).push(0));
                    lemma_pe_push(fpseq(v@), 0, x);
                    assert(pe(prev, x) == pe(orig, x));
                }
            }
        }
        proof {
            if orig.len() > 0 && orig.last() != 0 {
                assert(v@.len() == orig.len());
                assert(fpseq(v@) =~= orig);
            }
        }
        DensePolynomial { coeffs: v }
    }

    /// Evaluates the polynomial at `x` by Horner's rule.
    pub fn evaluate(&self, x: &Fp) -> (r: Fp)
        requires
            self.wf(),
            x.wf(),
        ensures
            r.wf(),
            r@ == pe(self@, x@) % (fp_m() as int),
    {
        let mut acc = Fp::zero();
        let n = self.coeffs.len();
        let mut i = n;
        proof {
            assert(self@.subrange(n as int, n as int) =~= Seq::<nat>::empty());
        }
        while i > 0
            invariant
                i <= n,
                n == self.coeffs@.len(),
                self.wf(),
                x.wf(),
                acc.wf(),
                acc@ == pe(self@.subrange(i as int, n as int), x@) % (fp_m() as int),
            decreases i,
        {
            i = i - 1;
            let c = self.coeffs[i];
            let prod = fp_mul(&acc, x);
            let next = fp_add(&prod, &c);
            proof {
                let md = fp_m() as int;
                let tail = self@.subrange(i + 1, n as int);
                let whole = self@.subrange(i as int, n as int);
                assert(whole.subrange(1, whole.len() as int) =~= tail);
                assert(whole[0] == self@[i as int]);
                assert(pe(whole, x@) == self@[i as int] + x@ * pe(tail, x@));
                // prod == (x * pe(tail)) % m
                lemma_cong_mul(acc@ as int, pe(tail, x@), x@ as int, md);
                vstd::arithmetic::div_mod::lemma_mod_twice(acc@ as int * x@, md);
                assert(prod@ == (pe(tail, x@) * x@) % md);
                // next == (pe(tail) * x + c) % m
                lemma_cong_add(prod@ as int, pe(tail, x@) * x@, c@ as int, c@ as int, md);
                vstd::arithmetic::div_mod::lemma_mod_twice((prod@ + c@) as int, md);
                assert(next@ == (pe(tail, x@) * x@ + c@) % md);
                assert(pe(tail, x@) * x@ == x@ * pe(tail, x@)) by (nonlinear_arith);
            }
            acc = next;
        }
        proof {
            assert(self@.subrange(0, n as int) =~= self@);
        }
        acc
    }
}

/// The exact integer value of the sparse term list `t` at `x`:
/// the sum of `c * x^d` over the stored `(d, c)` pairs.
pub open spec fn se(t: Seq<(nat, nat)>, x: nat) -> int
    decreases t.len(),
{
    if t.len() == 0 {
        0
    } else {
        t[0].1 * pow(x as int, t[0].0) + se(t.subrange(1, t.len() as int), x)
    }
}

/// Appending a term adds its value.
pub proof fn lemma_se_push(t: Seq<(nat, nat)>, d: nat, c: nat, x: nat)
    ensures
        se(t.push((d, c)), x) == se(t, x) + c * pow(x as int, d),
    decreases t.len(),
{
    if t.len() == 0 {
        assert(t.push((d, c)).subrange(1, 1) =~= Seq::<(nat, nat)>::empty());
        assert(se(Seq::<(nat, nat)>::empty(), x) == 0);
        assert(se(t.push((d, c)), x) == c * pow(x as int, d) + se(
            Seq::<(nat, nat)>::empty(),
            x,
        ));
    } else {
        let r = t.subrange(1, t.len() as int);
        assert(t.push((d, c)).subrange(1, (t.len() + 1) as int) =~= r.push((d, c)));
        assert(se(t.push((d, c)), x) == t[0].1 * pow(x as int, t[0].0) + se(r.push((d, c)), x));
        assert(se(t, x) == t[0].1 * pow(x as int, t[0].0) + se(r, x));
        lemma_se_push(r, d, c, x);
    }
}

/// Taking one more term adds its value.
pub proof fn lemma_se_take_step(t: Seq<(nat, nat)>, j: int, x: nat)
    requires
        0 <= j < t.len(),
    ensures
        se(t.take(j + 1), x) == se(t.take(j), x) + t[j].1 * pow(x as int, t[j].0),
{
    assert(t.take(j + 1) =~= t.take(j).push(t[j]));
    lemma_se_push(t.take(j), t[j].0, t[j].1, x);
}

/// Raises a field element to a power.
pub fn fp_pow(x: &Fp, e: usize) -> (r: Fp)
    requires
        x.wf(),
    ensures
        r.wf(),
        r@ == pow(x@ as int, e as nat) % (fp_m() as int),
{
    let mut acc = Fp::one();
    let mut i: usize = 0;
    proof {
        vstd::arithmetic::power::lemma_pow0(x@ as int);
    }
    while i < e
        invariant
            i <= e,
            x.wf(),
            acc.wf(),
            acc@ == pow(x@ as int, i as nat) % (fp_m() as int),
        decreases e - i,
    {
        let next = fp_mul(&acc, x);
        proof {
            let md = fp_m() as int;
            assert(pow(x@ as int, (i + 1) as nat) == pow(x@ as int, i as nat) * x@) by {
                vstd::arithmetic::power::lemma_pow1(x@ as int);
                vstd::arithmetic::power::lemma_pow_adds(x@ as int, i as nat, 1);
            }
            lemma_cong_mul(acc@ as int, pow(x@ as int, i as nat), x@ as int, md);
            vstd::arithmetic::div_mod::lemma_mod_twice(acc@ as int * x@, md);
        }
        acc = next;
        i = i + 1;
    }
    acc
}

/// The degrees of the term list strictly increase.
pub open spec fn degrees_increasing(t: Seq<(nat, nat)>) -> bool {
    forall|i: int| 0 <= i && i + 1 < t.len() ==> (#[trigger] t[i].0) < t[i + 1].0
}

/// In a strictly increasing term list, any earlier degree is below any
/// later one.
pub proof fn lemma_degrees_monotone(t: Seq<(nat, nat)>, i: int, k: int)
    requires
        degrees_increasing(t),
        0 <= i < k < t.len(),
    ensures
        t[i].0 < t[k].0,
    decreases k - i,
{
    if i + 1 < k {
        lemma_degrees_monotone(t, i + 1, k);
    }
}

/// The coefficient of degree `d` in a term list: the stored coefficient
/// where a term of that degree exists, zero elsewhere.
#[verifier::opaque]
pub open spec fn sparse_coeff(t: Seq<(nat, nat)>, d: int) -> nat
    decreases t.len(),
{
    if t.len() == 0 {
        0
    } else if t[0].0 == d {
        t[0].1
    } else {
        sparse_coeff(t.subrange(1, t.len() as int), d)
    }
}

/// The dense coefficient sequence of a term list: one entry per degree
/// up to the highest stored degree.
#[verifier::opaque]
pub open spec fn dense_of_sparse(t: Seq<(nat, nat)>) -> Seq<nat> {
    if t.len() == 0 {
        Seq::empty()
    } else {
        Seq::new(t.last().0 + 1, |d: int| sparse_coeff(t, d))
    }
}

/// A degree stored by no term has coefficient zero.
proof fn lemma_sparse_coeff_none(t: Seq<(nat, nat)>, p: int)
    requires
        forall|k: int| 0 <= k < t.len() ==> (#[trigger] t[k].0) != p,
    ensures
        sparse_coeff(t, p) == 0,
    decreases t.len(),
{
    reveal(sparse_coeff);
    if t.len() > 0 {
        let tail = t.subrange(1, t.len() as int);
        assert(forall|k: int| 0 <= k < tail.len() ==> (#[trigger] tail[k].0) != p);
        lemma_sparse_coeff_none(tail, p);
    }
}

/// A degree below every remaining term and above every earlier one has
/// coefficient zero.
proof fn lemma_sparse_coeff_absent(t: Seq<(nat, nat)>, p: int, j: int)
    requires
        degrees_increasing(t),
        0 <= j <= t.len(),
        forall|k: int| 0 <= k < j ==> (#[trigger] t[k].0) < p,
        j < t.len() ==> t[j].0 > p,
    ensures
        sparse_coeff(t, p) == 0,
{
    assert forall|k: int| 0 <= k < t.len() implies (#[trigger] t[k].0) != p by {
        if k >= j {
            if k > j {
                lemma_degrees_monotone(t, j, k);
            }
        }
    }
    lemma_sparse_coeff_none(t, p);
}

/// A stored degree's coefficient is the stored one.
proof fn lemma_sparse_coeff_at(t: Seq<(nat, nat)>, j: int)
    requires
        degrees_increasing(t),
        0 <= j < t.len(),
    ensures
        sparse_coeff(t, t[j].0 as int) == t[j].1,
    decreases j,
{
    reveal(sparse_coeff);
    if j > 0 {
        lemma_degrees_monotone(t, 0, j);
        let tail = t.subrange(1, t.len() as int);
        assert(degrees_increasing(tail)) by {
            assert(forall|i: int|
                0 <= i && i + 1 < tail.len() ==> (#[trigger] tail[i].0) < tail[i + 1].0);
        }
        lemma_sparse_coeff_at(tail, j - 1);
    }
}

/// The length and entries of the dense sequence of a term list.
proof fn lemma_dense_of_sparse_index(t: Seq<(nat, nat)>, p: int)
    requires
        t.len() > 0,
        0 <= p <= t.last().0,
    ensures
        dense_of_sparse(t).len() == t.last().0 + 1,
        dense_of_sparse(t)[p] == sparse_coeff(t, p),
{
    reveal(dense_of_sparse);
}

/// A polynomial stored as its nonzero terms: (degree, coefficient) pairs
/// with strictly increasing degrees.
#[derive(Clone, Debug)]
pub struct SparsePolynomial {
    /// The nonzero terms, in order of strictly increasing degree.
    pub terms: Vec<(usize, Fp)>,
}

impl View for SparsePolynomial {
    type V = Seq<(nat, nat)>;

    open spec fn view(&self) -> Seq<(nat, nat)> {
        self.terms@.map_values(|p: (usize, Fp)| (p.0 as nat, p.1@))
    }
}

impl SparsePolynomial {
    /// Terms are canonical, nonzero, and strictly increasing in degree.
    pub open spec fn wf(&self) -> bool {
        &&& forall|i: int|
            0 <= i < self.terms@.len() ==> (#[trigger] self.terms@[i].1).wf()
                && self.terms@[i].1@ != 0
        &&& forall|i: int|
            0 <= i && i + 1 < self.terms@.len() ==> (#[trigger] self.terms@[i].0)
                < self.terms@[i + 1].0
    }

    /// Builds a sparse polynomial after checking the term list:
    /// success exactly when every coefficient is nonzero and the degrees
    /// strictly increase.
    pub fn from_coefficients(terms: Vec<(usize, Fp)>) -> (r: Option<SparsePolynomial>)
        requires
            forall|i: int| 0 <= i < terms@.len() ==> (#[trigger] terms@[i].1).wf(),
        ensures
            r is Some <==> ((forall|i: int| 0 <= i < terms@.len() ==> (#[trigger] terms@[i].1)@
                != 0) && (forall|i: int|
                0 <= i && i + 1 < terms@.len() ==> (#[trigger] terms@[i].0) < terms@[i + 1].0)),
            r matches Some(p) ==> p.wf() && p.terms@ == terms@,
    {
        let n = terms.len();
        let mut i: usize = 0;
        while i < n
            invariant
                i <= n,
                n == terms@.len(),
                forall|j: int| 0 <= j < i ==> (#[trigger] terms@[j].1)@ != 0,
                forall|j: int|
                    0 <= j && j + 1 < i ==> (#[trigger] terms@[j].0) < terms@[j + 1].0,
            decreases n - i,
        {
            if terms[i].1.is_zero() {
                proof {
                    assert(terms@[i as int].1@ == 0);
                }
                return None;
            }
            if i > 0 && terms[i - 1].0 >= terms[i].0 {
                proof {
                    assert(terms@[i - 1].0 >= terms@[i as int].0);
                }
                return None;
            }
            i = i + 1;
        }
        Some(SparsePolynomial { terms })
    }

    /// Returns whether this is the zero polynomial.
    pub fn is_zero(&self) -> (r: bool)
        ensures
            r <==> self@.len() == 0,
    {
        self.terms.len() == 0
    }

    /// The degree: the highest stored degree, or zero for no terms.
    pub fn degree(&self) -> (r: usize)
        ensures
            r == self.degree_spec(),
    {
        if self.terms.len() == 0 {
            0
        } else {
            self.terms[self.terms.len() - 1].0
        }
    }

    /// The degree as a specification value.
    pub open spec fn degree_spec(&self) -> nat {
        if self@.len() == 0 {
            0
        } else {
            self@.last().0
        }
    }

    /// The stored terms as (degree, coefficient) pairs.
    pub fn coeffs(&self) -> (r: &Vec<(usize, Fp)>)
        ensures
            r@ == self.terms@,
    {
        &self.terms
    }

    /// Evaluates the polynomial at `x` by direct summation of its terms.
    pub fn evaluate(&self, x: &Fp) -> (r: Fp)
        requires
            self.wf(),
            x.wf(),
        ensures
            r.wf(),
            r@ == se(self@, x@) % (fp_m() as int),
    {
        let mut acc = Fp::zero();
        let n = self.terms.len();
        let mut j: usize = 0;
        proof {
            assert(self@.take(0) =~= Seq::<(nat, nat)>::empty());
        }
        while j < n
            invariant
                j <= n,
                n == self.terms@.len(),
                self.wf(),
                x.wf(),
                acc.wf(),
                acc@ == se(self@.take(j as int), x@) % (fp_m() as int),
            decreases n - j,
        {
            let (d, c) = self.terms[j];
            let xd = fp_pow(x, d);
            let term = fp_mul(&c, &xd);
            let next = fp_add(&acc, &term);
            proof {
                let md = fp_m() as int;
                let pw = pow(x@ as int, d as nat);
                lemma_se_take_step(self@, j as int, x@);
                assert(self@[j as int] == (d as nat, c@));
                // term == (c * pow(x, d)) % m
                vstd::arithmetic::div_mod::lemma_mul_mod_noop_right(c@ as int, pw, md);
                vstd::arithmetic::div_mod::lemma_mod_twice(c@ as int * (pw % md), md);
                assert(term@ == (c@ * pw) % md);
                // next == (se(take(j)) + c * pow(x, d)) % m
                lemma_cong_add(
                    acc@ as int,
                    se(self@.take(j as int), x@),
                    term@ as int,
                    c@ * pw,
                    md,
                );
                vstd::arithmetic::div_mod::lemma_mod_twice((acc@ + term@) as int, md);
            }
            acc = next;
            j = j + 1;
        }
        proof {
            assert(self@.take(n as int) =~= self@);
        }
        acc
    }

    /// The view inherits the strictly increasing degrees.
    pub proof fn lemma_view_sorted(&self)
        requires
            self.wf(),
        ensures
            degrees_increasing(self@),
    {
        assert forall|i: int| 0 <= i && i + 1 < self@.len() implies (#[trigger] self@[i].0)
            < self@[i + 1].0 by {
            assert(self.terms@[i].0 < self.terms@[i + 1].0);
        }
    }

    /// Expands the sparse representation into dense coefficient form:
    /// the entry at each stored degree is the stored coefficient, every
    /// other entry is zero, and the value at every point is preserved.
    #[verifier::rlimit(100)]
    pub fn to_dense(&self) -> (r: DensePolynomial)
        requires
            self.wf(),
        ensures
            r.wf(),
            r@ == dense_of_sparse(self@),
            forall|x: nat| #[trigger] pe(r@, x) == se(self@, x),
            r@.len() == 0 <==> self@.len() == 0,
            r.degree_spec() == self.degree_spec(),
    {
        proof {
            self.lemma_view_sorted();
        }
        let n = self.terms.len();
        if n == 0 {
            proof {
                reveal(dense_of_sparse);
                assert(Seq::<Fp>::empty().map_values(|c: Fp| c@) =~= Seq::<nat>::empty());
            }
            return DensePolynomial { coeffs: Vec::new() };
        }
        let last_deg = self.terms[n - 1].0;
        let mut v: Vec<Fp> = Vec::new();
        let mut j: usize = 0;
        let mut p: usize = 0;
        proof {
            lemma_dense_of_sparse_index(self@, 0);
            assert(self@.take(0) =~= Seq::<(nat, nat)>::empty());
            assert(fpseq(v@) =~= dense_of_sparse(self@).take(0));
        }
        loop
            invariant_except_break
                n == self.terms@.len(),
                n > 0,
                last_deg == self@.last().0,
                self.wf(),
                degrees_increasing(self@),
                dense_of_sparse(self@).len() == last_deg + 1,
                p <= last_deg,
                j <= n,
                fpseq_wf(v@),
                v@.len() == p,
                forall|k: int| 0 <= k < j ==> (#[trigger] self@[k].0) < p,
                j < n ==> self@[j as int].0 >= p,
                j == n ==> p > self@.last().0,
                fpseq(v@) == dense_of_sparse(self@).take(p as int),
                forall|x: nat| #[trigger] pe(fpseq(v@), x) == se(self@.take(j as int), x),
            ensures
                fpseq_wf(v@),
                v@.len() == last_deg + 1,
                j == n,
                fpseq(v@) == dense_of_sparse(self@).take(last_deg + 1),
                forall|x: nat| #[trigger] pe(fpseq(v@), x) == se(self@.take(j as int), x),
            decreases last_deg - p,
        {
            proof {
                if j == n {
                    assert(p > self@.last().0 && p <= last_deg);
                    assert(false);
                }
            }
            let ghost prev = fpseq(v@);
            let matched = self.terms[j].0 == p;
            if matched {
                let c = self.terms[j].1;
                v.push(c);
                proof {
                    assert(self@[j as int] == (p as nat, c@));
                    lemma_sparse_coeff_at(self@, j as int);
                    lemma_dense_of_sparse_index(self@, p as int);
                    assert(fpseq(v@) =~= prev.push(c@));
                    assert(fpseq(v@) =~= dense_of_sparse(self@).take(p + 1));
                    assert forall|x: nat| #[trigger] pe(fpseq(v@), x) == se(
                        self@.take(j + 1),
                        x,
                    ) by {
                        lemma_pe_push(prev, c@, x);
                        lemma_se_take_step(self@, j as int, x);
                    }
                    if j + 1 < n {
                        assert(self@[j as int].0 < self@[j + 1].0);
                    }
                }
                j = j + 1;
            } else {
                v.push(Fp::zero());
                proof {
                    assert(self@[j as int].0 > p);
                    lemma_sparse_coeff_absent(self@, p as int, j as int);
                    lemma_dense_of_sparse_index(self@, p as int);
                    assert(fpseq(v@) =~= prev.push(0));
                    assert(fpseq(v@) =~= dense_of_sparse(self@).take(p + 1));
                    assert forall|x: nat| #[trigger] pe(fpseq(v@), x) == se(
                        self@.take(j as int),
                        x,
                    ) by {
                        lemma_pe_push(prev, 0, x);
                    }
                }
            }
            if p == last_deg {
                proof {
                    // the final position always carries the last term
                    if !matched {
                        if (j as int) < n - 1 {
                            lemma_degrees_monotone(self@, j as int, n - 1);
                        }
                        assert(false);
                    }
                    if j < n {
                        lemma_degrees_monotone(self@, j - 1, n - 1);
                        assert(false);
                    }
                }
                break ;
            }
            p = p + 1;
        }
        proof {
            assert(self@.take(n as int) =~= self@);
            assert(fpseq(v@) =~= dense_of_sparse(self@));
            lemma_sparse_coeff_at(self@, n - 1);
            lemma_dense_of_sparse_index(self@, self@.last().0 as int);
            assert(fpseq(v@).last() == sparse_coeff(self@, self@.last().0 as int));
            assert(self@.last() == (self.terms@[n - 1].0 as nat, self.terms@[n - 1].1@));
        }
        DensePolynomial { coeffs: v }
    }
}

/// A subtraction through `fp_sub` of a reduced product shifts the value by
/// the negated unreduced product, modulo the prime.
proof fn lemma_delta_mod(old_v: nat, t: int, new_v: nat, m: int)
    requires
        m > 0,
        old_v < m,
        new_v == (old_v - (t % m)) % m,
    ensures
        (new_v - old_v) % m == (-t) % m,
{
    vstd::arithmetic::div_mod::lemma_small_mod(old_v, m as nat);
    vstd::arithmetic::div_mod::lemma_sub_mod_noop(old_v as int, t, m);
    assert(new_v == (old_v - t) % m);
    vstd::arithmetic::div_mod::lemma_sub_mod_noop(old_v - t, old_v as int, m);
}

/// A sequence of zero coefficients has value zero everywhere.
proof fn lemma_pe_zero(s: Seq<nat>, x: nat)
    requires
        forall|i: int| 0 <= i < s.len() ==> #[trigger] s[i] == 0,
    ensures
        pe(s, x) == 0,
    decreases s.len(),
{
    if s.len() > 0 {
        let t = s.subrange(1, s.len() as int);
        lemma_pe_zero(t, x);
    }
}

/// The top quotient coefficient of the division: the dividend's leading
/// coefficient times the inverse of the divisor's.
#[verifier::opaque]
pub open spec fn qtop(plead: nat, dinv: nat) -> nat {
    ((plead * dinv) % fp_m()) as nat
}

/// The top quotient coefficient is nonzero and multiplies back to the
/// dividend's leading coefficient.
proof fn lemma_top_coefficient(plead: nat, dinv: nat, dlead: nat)
    requires
        0 < plead < fp_m(),
        (dinv * dlead as int) % (fp_m() as int) == 1,
    ensures
        (qtop(plead, dinv) * dlead) % fp_m() == plead,
        qtop(plead, dinv) != 0,
{
    let md = fp_m() as int;
    let c0 = qtop(plead, dinv);
    reveal(qtop);
    lemma_cancel_inverse(plead as int, dinv as int, dlead as int, md);
    vstd::arithmetic::div_mod::lemma_small_mod(plead, fp_m());
    lemma_mod_eq_values(plead as int, (c0 * dlead) as int, md);
    assert(c0 != 0) by {
        if c0 == 0 {
            assert(c0 * dlead == 0) by (nonlinear_arith)
                requires
                    c0 == 0,
            ;
        }
    }
    vstd::arithmetic::div_mod::lemma_small_mod((c0 * dlead) as nat % fp_m(), fp_m());
}

/// Two values whose difference vanishes modulo the prime are equal when
/// the first is reduced and the second is a reduced product.
proof fn lemma_mod_eq_values(a: int, b: int, md: int)
    requires
        md > 0,
        0 <= a < md,
        b >= 0,
        (a - (b % md)) % md == 0int % md,
    ensures
        a == b % md,
{
    let br = b % md;
    if a > br {
        vstd::arithmetic::div_mod::lemma_small_mod((a - br) as nat, md as nat);
    }
    if a < br {
        vstd::arithmetic::div_mod::lemma_mod_add_multiples_vanish(a - br, md);
        vstd::arithmetic::div_mod::lemma_small_mod((a - br + md) as nat, md as nat);
    }
    vstd::arithmetic::div_mod::lemma_small_mod(0nat, md as nat);
}

/// Multiplying a value by the inverse of `dlead` and then by `dlead`
/// again gives back the value, modulo the prime.
proof fn lemma_cancel_inverse(rlast: int, dinv: int, dlead: int, md: int)
    requires
        md > 0,
        0 <= rlast < md,
        (dinv * dlead) % md == 1,
    ensures
        (rlast - ((rlast * dinv) % md) * dlead) % md == 0int % md,
{
    let c = (rlast * dinv) % md;
    vstd::arithmetic::div_mod::lemma_mul_mod_noop_left(rlast * dinv, dlead, md);
    assert(rlast * dinv * dlead == rlast * (dinv * dlead)) by (nonlinear_arith);
    vstd::arithmetic::div_mod::lemma_mul_mod_noop_right(rlast, dinv * dlead, md);
    vstd::arithmetic::div_mod::lemma_small_mod(rlast as nat, md as nat);
    assert((c * dlead) % md == rlast);
    vstd::arithmetic::div_mod::lemma_sub_mod_noop(rlast, c * dlead, md);
    assert((rlast - (c * dlead) % md) % md == (rlast - c * dlead) % md);
    assert((rlast - rlast) % md == 0int % md);
}

/// Either representation of a polynomial: a sparse term list or a dense
/// coefficient vector.
#[derive(Clone, Debug)]
pub enum DenseOrSparsePolynomial {
    /// A sparse polynomial.
    SPolynomial(SparsePolynomial),
    /// A dense polynomial.
    DPolynomial(DensePolynomial),
}

impl DenseOrSparsePolynomial {
    /// Both representations are canonical.
    pub open spec fn wf(&self) -> bool {
        match self {
            DenseOrSparsePolynomial::SPolynomial(p) => p.wf(),
            DenseOrSparsePolynomial::DPolynomial(p) => p.wf(),
        }
    }

    /// The canonical dense coefficient sequence of the polynomial: the
    /// coefficients themselves for the dense variant, the expansion of
    /// the term list for the sparse one.
    pub open spec fn dense_view(&self) -> Seq<nat> {
        match self {
            DenseOrSparsePolynomial::SPolynomial(p) => dense_of_sparse(p@),
            DenseOrSparsePolynomial::DPolynomial(p) => p@,
        }
    }

    /// The exact integer value of the polynomial at `x`.
    pub open spec fn val_at(&self, x: nat) -> int {
        match self {
            DenseOrSparsePolynomial::SPolynomial(p) => se(p@, x),
            DenseOrSparsePolynomial::DPolynomial(p) => pe(p@, x),
        }
    }

    /// Whether this is the zero polynomial.
    pub open spec fn is_zero_spec(&self) -> bool {
        match self {
            DenseOrSparsePolynomial::SPolynomial(p) => p@.len() == 0,
            DenseOrSparsePolynomial::DPolynomial(p) => p@.len() == 0,
        }
    }

    /// The degree; the zero polynomial reports degree zero.
    pub open spec fn degree_spec(&self) -> nat {
        match self {
            DenseOrSparsePolynomial::SPolynomial(p) => p.degree_spec(),
            DenseOrSparsePolynomial::DPolynomial(p) => p.degree_spec(),
        }
    }

    /// Checks if the polynomial is zero.
    pub fn is_zero(&self) -> (r: bool)
        ensures
            r <==> self.is_zero_spec(),
    {
        match self {
            DenseOrSparsePolynomial::SPolynomial(p) => p.is_zero(),
            DenseOrSparsePolynomial::DPolynomial(p) => p.is_zero(),
        }
    }

    /// Returns the degree of the polynomial.
    pub fn degree(&self) -> (r: usize)
        ensures
            r == self.degree_spec(),
    {
        match self {
            DenseOrSparsePolynomial::SPolynomial(p) => p.degree(),
            DenseOrSparsePolynomial::DPolynomial(p) => p.degree(),
        }
    }

    /// The leading coefficient as a specification value: the highest
    /// stored term's coefficient, or the last dense coefficient.
    pub open spec fn leading_spec(&self) -> nat {
        match self {
            DenseOrSparsePolynomial::SPolynomial(p) => p@.last().1,
            DenseOrSparsePolynomial::DPolynomial(p) => p@.last(),
        }
    }

    /// The coefficient of the highest-degree term, if the polynomial is
    /// nonzero.
    pub fn leading_coefficient(&self) -> (r: Option<&Fp>)
        ensures
            self.is_zero_spec() <==> r is None,
            r matches Some(c) ==> c@ == self.leading_spec(),
    {
        match self {
            DenseOrSparsePolynomial::SPolynomial(p) => {
                if p.terms.len() == 0 {
                    None
                } else {
                    proof {
                        assert(p@.last() == (p.terms@.last().0 as nat, p.terms@.last().1@));
                    }
                    Some(&p.terms[p.terms.len() - 1].1)
                }
            },
            DenseOrSparsePolynomial::DPolynomial(p) => p.last(),
        }
    }

    /// The dense polynomial inside, if this is the dense variant.
    pub fn as_dense(&self) -> (r: Option<&DensePolynomial>)
        ensures
            r matches Some(p) ==> self matches DenseOrSparsePolynomial::DPolynomial(d) && d == p,
            r is None <==> self is SPolynomial,
    {
        match self {
            DenseOrSparsePolynomial::DPolynomial(p) => Some(p),
            DenseOrSparsePolynomial::SPolynomial(_) => None,
        }
    }

    /// The dense polynomial inside, mutably, if this is the dense variant.
    pub fn as_dense_mut(&mut self) -> (r: Option<&mut DensePolynomial>)
        ensures
            (*old(self)) is DPolynomial <==> r is Some,
            r matches Some(p) ==> *p == (*old(self))->DPolynomial_0 && *final(self)
                == (DenseOrSparsePolynomial::DPolynomial(*final(p))),
            r is None ==> *final(self) == *old(self),
    {
        match self {
            DenseOrSparsePolynomial::DPolynomial(p) => Some(p),
            DenseOrSparsePolynomial::SPolynomial(_) => None,
        }
    }

    /// The sparse polynomial inside, if this is the sparse variant; the
    /// conversion of a dense polynomial to sparse form is refused.
    pub fn as_sparse(&self) -> (r: Option<&SparsePolynomial>)
        ensures
            r matches Some(p) ==> self matches DenseOrSparsePolynomial::SPolynomial(s) && s == p,
            r is None <==> self is DPolynomial,
    {
        match self {
            DenseOrSparsePolynomial::SPolynomial(p) => Some(p),
            DenseOrSparsePolynomial::DPolynomial(_) => None,
        }
    }

    /// Converts to a dense polynomial, expanding a sparse term list; the
    /// value at every point is preserved.
    pub fn into_dense(&self) -> (r: DensePolynomial)
        requires
            self.wf(),
        ensures
            r.wf(),
            forall|x: nat| #[trigger] pe(r@, x) == self.val_at(x),
            r@.len() == 0 <==> self.is_zero_spec(),
            r.degree_spec() == self.degree_spec(),
            r@ == self.dense_view(),
            self matches DenseOrSparsePolynomial::DPolynomial(p) ==> r@ == p@,
    {
        match self {
            DenseOrSparsePolynomial::SPolynomial(p) => p.to_dense(),
            DenseOrSparsePolynomial::DPolynomial(p) => {
                let mut v: Vec<Fp> = Vec::new();
                let n = p.coeffs.len();
                let mut i: usize = 0;
                while i < n
                    invariant
                        i <= n,
                        n == p.coeffs@.len(),
                        v@ == p.coeffs@.take(i as int),
                    decreases n - i,
                {
                    v.push(p.coeffs[i]);
                    proof {
                        assert(v@ =~= p.coeffs@.take(i + 1));
                    }
                    i = i + 1;
                }
                proof {
                    assert(p.coeffs@.take(n as int) =~= p.coeffs@);
                    assert(fpseq(v@) =~= fpseq(p.coeffs@));
                }
                DensePolynomial { coeffs: v }
            },
        }
    }

    /// Evaluates the polynomial at the given point.
    pub fn evaluate(&self, point: &Fp) -> (r: Fp)
        requires
            self.wf(),
            point.wf(),
        ensures
            r.wf(),
            r@ == self.val_at(point@) % (fp_m() as int),
    {
        match self {
            DenseOrSparsePolynomial::SPolynomial(p) => p.evaluate(point),
            DenseOrSparsePolynomial::DPolynomial(p) => p.evaluate(point),
        }
    }

    /// The coefficients as (degree, coefficient) pairs, lowest degree
    /// first; for the dense form every coefficient is listed.
    pub fn coeffs(&self) -> (r: Vec<(usize, Fp)>)
        ensures
            match self {
                DenseOrSparsePolynomial::SPolynomial(p) => r@ == p.terms@,
                DenseOrSparsePolynomial::DPolynomial(p) => r@.len() == p.coeffs@.len()
                    && forall|i: int|
                    0 <= i < r@.len() ==> #[trigger] r@[i] == (i as usize, p.coeffs@[i]),
            },
    {
        match self {
            DenseOrSparsePolynomial::SPolynomial(p) => {
                let mut v: Vec<(usize, Fp)> = Vec::new();
                let n = p.terms.len();
                let mut i: usize = 0;
                while i < n
                    invariant
                        i <= n,
                        n == p.terms@.len(),
                        v@ == p.terms@.take(i as int),
                    decreases n - i,
                {
                    let (d, c) = p.terms[i];
                    v.push((d, c));
                    proof {
                        assert(v@ =~= p.terms@.take(i + 1));
                    }
                    i = i + 1;
                }
                proof {
                    assert(p.terms@.take(n as int) =~= p.terms@);
                }
                v
            },
            DenseOrSparsePolynomial::DPolynomial(p) => {
                let mut v: Vec<(usize, Fp)> = Vec::new();
                let n = p.coeffs.len();
                let mut i: usize = 0;
                while i < n
                    invariant
                        i <= n,
                        n == p.coeffs@.len(),
                        v@.len() == i,
                        forall|k: int| 0 <= k < i ==> #[trigger] v@[k] == (k as usize, p.coeffs@[k]),
                    decreases n - i,
                {
                    v.push((i, p.coeffs[i]));
                    i = i + 1;
                }
                v
            },
        }
    }

    /// Divides `self` by `divisor`, returning the quotient and remainder
    /// of schoolbook polynomial long division. At every point of the field
    /// the identity `quotient * divisor + remainder == self` holds, and the
    /// remainder is zero or of degree strictly below the divisor's.
    #[verifier::rlimit(100)]
    pub fn divide_with_q_and_r(&self, divisor: &Self) -> (res: Option<
        (DensePolynomial, DensePolynomial),
    >)
        requires
            self.wf(),
            divisor.wf(),
            !divisor.is_zero_spec(),
        ensures
            res is Some,
            res matches Some((q, rem)) ==> {
                &&& (self.is_zero_spec() ==> q@.len() == 0 && rem@.len() == 0)
                &&& (!self.is_zero_spec() && self.degree_spec() < divisor.degree_spec()
                    ==> q@.len() == 0 && rem@ == self.dense_view())
                &&& (!self.is_zero_spec() && self.degree_spec() >= divisor.degree_spec() ==> {
                    &&& q@.len() == self.degree_spec() - divisor.degree_spec() + 1
                    &&& q@.last() != 0
                    &&& (q@.last() * divisor.dense_view().last()) % fp_m()
                        == self.dense_view().last()
                })
                &&& q.wf()
                &&& rem.wf()
                &&& forall|x: nat|
                    x < fp_m() ==> (pe(q@, x) * divisor.val_at(x) + #[trigger] pe(rem@, x)) % (
                    fp_m() as int) == self.val_at(x) % (fp_m() as int)
                &&& rem@.len() == 0 || rem.degree_spec() < divisor.degree_spec()
            },
    {
        let ghost md: int = fp_m() as int;
        if self.is_zero() {
            let q = DensePolynomial::zero();
            let rem = DensePolynomial::zero();
            proof {
                assert forall|x: nat| x < fp_m() implies (pe(q@, x) * divisor.val_at(x)
                    + #[trigger] pe(rem@, x)) % md == self.val_at(x) % md by {
                    assert(0 * divisor.val_at(x) == 0) by (nonlinear_arith);
                }
            }
            return Some((q, rem));
        }
        let dd = divisor.into_dense();
        let dn = dd.coeffs.len();
        let rem0 = self.into_dense();
        if rem0.coeffs.len() < dn {
            let q = DensePolynomial::zero();
            proof {
                assert forall|x: nat| x < fp_m() implies (pe(q@, x) * divisor.val_at(x)
                    + #[trigger] pe(rem0@, x)) % md == self.val_at(x) % md by {
                    assert(0 * divisor.val_at(x) == 0) by (nonlinear_arith);
                }
                assert(rem0.degree_spec() < divisor.degree_spec());
            }
            return Some((q, rem0));
        }
        let mut rem = rem0.coeffs;
        let n0 = rem.len() - dn + 1;
        let mut quotient: Vec<Fp> = Vec::new();
        let mut i: usize = 0;
        while i < n0
            invariant
                i <= n0,
                quotient@.len() == i,
                fpseq_wf(quotient@),
                forall|k: int| 0 <= k < i ==> fpseq(quotient@)[k] == 0,
            decreases n0 - i,
        {
            let ghost prev = fpseq(quotient@);
            quotient.push(Fp::zero());
            proof {
                assert(fpseq(quotient@) =~= prev.push(0));
            }
            i = i + 1;
        }
        let dlead = dd.coeffs[dn - 1];
        proof {
            assert(dd@.last() == fpseq(dd.coeffs@)[dn - 1]);
        }
        let dinv = fp_inverse(&dlead).unwrap();
        let ghost r0: int = rem@.len() as int;
        let ghost plead: nat = fpseq(rem@).last();
        let ghost c0: nat = qtop(plead, dinv@);
        proof {
            assert forall|x: nat| x < fp_m() implies (pe(fpseq(quotient@), x) * divisor.val_at(x)
                + #[trigger] pe(fpseq(rem@), x)) % md == self.val_at(x) % md by {
                lemma_pe_zero(fpseq(quotient@), x);
                assert(0 * divisor.val_at(x) == 0) by (nonlinear_arith);
            }
            assert(rem@[(rem@.len() - 1) as int].wf());
            lemma_top_coefficient(plead, dinv@, dlead@);
        }
        while rem.len() >= dn
            invariant
                dd.wf(),
                dn == dd.coeffs@.len(),
                dn >= 1,
                n0 >= 1,
                fpseq_wf(rem@),
                fpseq_wf(quotient@),
                quotient@.len() == n0,
                rem@.len() <= n0 + dn - 1,
                dinv.wf(),
                dlead@ == dd@[dn - 1],
                (dinv@ * dlead@ as int) % md == 1,
                md == fp_m() as int,
                r0 == n0 + dn - 1,
                rem@.len() == r0 ==> fpseq(rem@).last() == plead,
                rem@.len() < r0 ==> fpseq(quotient@)[n0 - 1] == qtop(plead, dinv@),
                forall|j: int|
                    0 <= j && j + dn <= rem@.len() ==> #[trigger] fpseq(quotient@)[j] == 0,
                forall|x: nat|
                    x < fp_m() ==> (pe(fpseq(quotient@), x) * divisor.val_at(x) + #[trigger] pe(
                        fpseq(rem@),
                        x,
                    )) % md == self.val_at(x) % md,
                forall|x: nat| #[trigger] pe(dd@, x) == divisor.val_at(x),
            decreases rem@.len(),
        {
            let len = rem.len();
            let cur = len - dn;
            let rlast = rem[len - 1];
            proof {
                assert(rem@[(len - 1) as int].wf());
            }
            let c = fp_mul(&rlast, &dinv);
            let ghost q_old = fpseq(quotient@);
            quotient.set(cur, c);
            proof {
                assert(fpseq(quotient@) =~= q_old.update(cur as int, c@));
                if rem@.len() == r0 {
                    assert(c@ == qtop(plead, dinv@)) by {
                        reveal(qtop);
                    }
                }
            }
            let ghost rem_start = fpseq(rem@);
            let mut j: usize = 0;
            while j < dn - 1
                invariant
                    j <= dn - 1,
                    dd.wf(),
                    dn == dd.coeffs@.len(),
                    dn >= 1,
                    c.wf(),
                    md == fp_m() as int,
                    cur + dn == rem@.len(),
                    len == rem@.len(),
                    fpseq_wf(rem@),
                    rem_start.len() == rem@.len(),
                    fpseq_wf(rem@),
                    forall|k: int|
                        cur + j <= k < rem@.len() ==> #[trigger] fpseq(rem@)[k] == rem_start[k],
                    forall|x: nat|
                        x < fp_m() ==> #[trigger] pe(fpseq(rem@), x) % md == (pe(rem_start, x)
                            - c@ * pow(x as int, cur as nat) * pe(dd@.take(j as int), x)) % md,
                decreases dn - 1 - j,
            {
                let dj = dd.coeffs[j];
                let prod = fp_mul(&c, &dj);
                let old_v = rem[cur + j];
                let new_v = fp_sub(&old_v, &prod);
                proof {
                    assert(rem@[(cur + j) as int].wf());
                }
                let ghost rem_old = fpseq(rem@);
                rem.set(cur + j, new_v);
                proof {
                    let idx = cur + j;
                    assert(fpseq(rem@) =~= rem_old.update(idx as int, new_v@));
                    assert forall|x: nat| x < fp_m() implies #[trigger] pe(fpseq(rem@), x) % md
                        == (pe(rem_start, x) - c@ * pow(x as int, cur as nat) * pe(
                        dd@.take(j + 1),
                        x,
                    )) % md by {
                        let xi = x as int;
                        let pc = pow(xi, cur as nat);
                        let pj = pow(xi, j as nat);
                        let pw = pow(xi, (cur + j) as nat);
                        let djv = dd@[j as int] as int;
                        lemma_pe_update(rem_old, idx as int, new_v@, x);
                        lemma_delta_mod(old_v@, c@ * djv, new_v@, md);
                        // the update shifts the value by -(c * dd[j]) * x^(cur+j)
                        lemma_cong_mul(new_v@ - old_v@, -(c@ * djv), pw, md);
                        assert(-(c@ * djv) * pw == -(c@ * djv * pw)) by (nonlinear_arith);
                        lemma_cong_add(
                            pe(rem_old, x),
                            pe(rem_old, x),
                            (new_v@ - old_v@) * pw,
                            -(c@ * djv) * pw,
                            md,
                        );
                        assert(pe(fpseq(rem@), x) % md == (pe(rem_old, x) - c@ * djv * pw)
                            % md);
                        // fold the new term into the subtracted prefix of the divisor
                        lemma_cong_add(
                            pe(rem_old, x),
                            pe(rem_start, x) - c@ * pc * pe(dd@.take(j as int), x),
                            -(c@ * djv * pw),
                            -(c@ * djv * pw),
                            md,
                        );
                        lemma_pe_take_step(dd@, j as int, x);
                        vstd::arithmetic::power::lemma_pow_adds(xi, cur as nat, j as nat);
                        assert(c@ * pc * pe(dd@.take(j as int), x) + c@ * djv * (pc * pj) == c@
                            * pc * (pe(dd@.take(j as int), x) + djv * pj)) by (nonlinear_arith);
                    }
                }
                j = j + 1;
            }
            let ghost rem_mid = fpseq(rem@);
            let _popped = rem.pop();
            proof {
                assert(rem_mid =~= fpseq(rem@).push(rem_mid[len - 1]));
                assert(rem_mid[len - 1] == rem_start[len - 1]);
                assert(rem_start[len - 1] == rlast@);
                lemma_cancel_inverse(rlast@ as int, dinv@ as int, dlead@ as int, md);
                assert forall|x: nat| x < fp_m() implies (pe(fpseq(quotient@), x)
                    * divisor.val_at(x) + #[trigger] pe(fpseq(rem@), x)) % md == self.val_at(x)
                    % md by {
                    let xi = x as int;
                    let pc = pow(xi, cur as nat);
                    let pd = pow(xi, (dn - 1) as nat);
                    let ptop = pow(xi, (len - 1) as nat);
                    let dv = divisor.val_at(x);
                    let tv = pe(dd@.take((dn - 1) as int), x);
                    let a0 = pe(rem_start, x);
                    // value of the remainder after dropping its top term
                    lemma_pe_push(fpseq(rem@), rem_mid[(len - 1) as int], x);
                    assert(pe(fpseq(rem@), x) == pe(rem_mid, x) - rlast@ * ptop);
                    // against the start of the iteration
                    assert(pe(rem_mid, x) % md == (a0 - c@ * pc * tv) % md);
                    lemma_cong_add(
                        pe(rem_mid, x),
                        a0 - c@ * pc * tv,
                        -(rlast@ * ptop),
                        -(rlast@ * ptop),
                        md,
                    );
                    // swap the dropped top term for c * dlead * x^(len-1),
                    // to which it is congruent
                    lemma_cong_mul(rlast@ - c@ * dlead@, 0, ptop, md);
                    assert(0 * ptop == 0) by (nonlinear_arith);
                    lemma_cong_add(
                        a0 - c@ * pc * tv - rlast@ * ptop,
                        a0 - c@ * pc * tv - rlast@ * ptop,
                        (rlast@ - c@ * dlead@) * ptop,
                        0,
                        md,
                    );
                    assert(a0 - c@ * pc * tv - rlast@ * ptop + (rlast@ - c@ * dlead@) * ptop
                        == a0 - c@ * pc * tv - (c@ * dlead@) * ptop) by (nonlinear_arith);
                    // hence the popped remainder subtracts the full shifted divisor
                    lemma_pe_take_step(dd@, (dn - 1) as int, x);
                    assert(dd@.take(dn as int) =~= dd@);
                    assert(pe(dd@, x) == tv + dlead@ * pd);
                    vstd::arithmetic::power::lemma_pow_adds(xi, cur as nat, (dn - 1) as nat);
                    assert(ptop == pc * pd);
                    assert(c@ * pc * tv + (c@ * dlead@) * (pc * pd) == c@ * pc * (tv + dlead@
                        * pd)) by (nonlinear_arith);
                    assert(pe(fpseq(rem@), x) % md == (a0 - c@ * pc * pe(dd@, x)) % md);
                    // fold the new quotient coefficient in
                    lemma_pe_update(q_old, cur as int, c@, x);
                    assert(pe(fpseq(quotient@), x) == pe(q_old, x) + c@ * pc);
                    assert((pe(q_old, x) + c@ * pc) * dv == pe(q_old, x) * dv + c@ * pc * dv)
                        by (nonlinear_arith);
                    lemma_cong_add(
                        pe(fpseq(quotient@), x) * dv,
                        pe(fpseq(quotient@), x) * dv,
                        pe(fpseq(rem@), x),
                        a0 - c@ * pc * pe(dd@, x),
                        md,
                    );
                    assert(pe(dd@, x) == dv);
                    assert(pe(q_old, x) * dv + c@ * pc * dv + (a0 - c@ * pc * dv) == pe(
                        q_old,
                        x,
                    ) * dv + a0) by (nonlinear_arith);
                    assert((pe(q_old, x) * dv + a0) % md == self.val_at(x) % md);
                }
            }
        }
        let q = DensePolynomial::from_coefficients_vec(quotient);
        let remainder = DensePolynomial::from_coefficients_vec(rem);
        proof {
            assert(remainder@.len() <= rem@.len());
            if remainder@.len() > 0 {
                assert(remainder.degree_spec() < dd.degree_spec());
            }
            // the loop ran at least once, so the top quotient
            // coefficient is pinned and nonzero: no trimming occurs
            assert(rem@.len() < r0);
            assert(fpseq(quotient@).last() == qtop(plead, dinv@));
            assert(q@ == fpseq(quotient@));
            assert(q@.last() == c0);
            assert forall|x: nat| x < fp_m() implies (pe(q@, x) * divisor.val_at(x)
                + #[trigger] pe(remainder@, x)) % md == self.val_at(x) % md by {
                assert(pe(q@, x) == pe(fpseq(quotient@), x));
                assert(pe(remainder@, x) == pe(fpseq(rem@), x));
            }
        }
        Some((q, remainder))
    }
}

} // verus!
