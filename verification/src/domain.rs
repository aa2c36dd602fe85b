//! Evaluation of polynomials over a multiplicative subgroup of the
//! field.
//!
//! A domain is described by its size and a root of unity of that order,
//! obtained from the field's two-adic structure. Evaluating a polynomial
//! over the domain produces its value at every domain element, the
//! algebraic content of the proving system's interpolation and
//! evaluation transforms.

use vstd::prelude::*;

use crate::fp::{fp_m, fp_mul, Fp};
use crate::polynomial::{fp_pow, DenseOrSparsePolynomial};
use snarkvm_curves::bls12_377::Fr;
use snarkvm_fields::FftField;
use snarkvm_fields::PrimeField;
use snarkvm_utilities::biginteger::BigInteger256;
use vstd::arithmetic::power::pow;

verus! {

/// Whether a multiplicative subgroup of this order exists in the
/// two-adic structure of the field: the order is a power of two, and at
/// most two to the field's two-adicity of 47.
pub open spec fn admissible_order(n: nat) -> bool {
    exists|k: nat| k <= 47 && n == vstd::arithmetic::power2::pow2(k)
}

/// Relies on `snarkvm_fields::FftField::get_root_of_unity`: `Some`
/// exactly when the order is a power of two of exponent at most the
/// field's two-adicity of 47, and then a nonzero element whose `n`-th
/// power is one.
#[verifier::external_body]
fn root_of_unity(n: usize) -> (r: Option<Fp>)
    ensures
        r is Some <==> admissible_order(n as nat),
        r matches Some(g) ==> g.wf() && g@ != 0 && pow(g@ as int, n as nat) % (fp_m() as int)
            == 1,
{
    Fr::get_root_of_unity(n).map(|g| {
        let s = g.to_bigint().0;
        Fp { w0: s[0], w1: s[1], w2: s[2], w3: s[3] }
    })
}

/// A multiplicative subgroup of the field: `size` powers of a generator
/// of that order.
#[derive(Clone, Debug)]
pub struct EvaluationDomain {
    /// The number of elements.
    pub size: usize,
    /// The subgroup generator.
    pub group_gen: Fp,
}

impl EvaluationDomain {
    /// The generator is canonical, nonzero, and of the domain's order.
    pub open spec fn wf(&self) -> bool {
        self.group_gen.wf() && self.group_gen@ != 0 && pow(
            self.group_gen@ as int,
            self.size as nat,
        ) % (fp_m() as int) == 1
    }

    /// The value of the domain element at index `i`.
    pub open spec fn element_spec(&self, i: nat) -> nat {
        (pow(self.group_gen@ as int, i) % (fp_m() as int)) as nat
    }

    /// Builds the domain of the given size, succeeding exactly when the
    /// field's two-adic subgroup structure offers a root of unity of
    /// that order: a power-of-two size of exponent at most 47.
    pub fn new(size: usize) -> (r: Option<EvaluationDomain>)
        ensures
            r is Some <==> admissible_order(size as nat),
            r matches Some(d) ==> d.wf() && d.size == size,
    {
        match root_of_unity(size) {
            Some(group_gen) => Some(EvaluationDomain { size, group_gen }),
            None => None,
        }
    }

    /// The domain element at index `i`.
    pub fn element(&self, i: usize) -> (r: Fp)
        requires
            self.wf(),
        ensures
            r.wf(),
            r@ == self.element_spec(i as nat),
    {
        fp_pow(&self.group_gen, i)
    }

    /// All domain elements, in order of the generator's powers.
    pub fn elements(&self) -> (r: Vec<Fp>)
        requires
            self.wf(),
        ensures
            r@.len() == self.size,
            forall|i: int|
                0 <= i < self.size ==> (#[trigger] r@[i]).wf() && r@[i]@ == self.element_spec(
                    i as nat,
                ),
    {
        let mut out: Vec<Fp> = Vec::new();
        let mut acc = Fp::one();
        let mut i: usize = 0;
        proof {
            vstd::arithmetic::power::lemma_pow0(self.group_gen@ as int);
            vstd::arithmetic::div_mod::lemma_small_mod(1nat, fp_m());
        }
        while i < self.size
            invariant
                i <= self.size,
                self.wf(),
                acc.wf(),
                acc@ == (pow(self.group_gen@ as int, i as nat) % (fp_m() as int)) as nat,
                out@.len() == i,
                forall|t: int|
                    0 <= t < i ==> (#[trigger] out@[t]).wf() && out@[t]@ == self.element_spec(
                        t as nat,
                    ),
            decreases self.size - i,
        {
            out.push(acc);
            let next = fp_mul(&acc, &self.group_gen);
            proof {
                let md = fp_m() as int;
                let g = self.group_gen@ as int;
                assert(pow(g, (i + 1) as nat) == pow(g, i as nat) * g) by {
                    vstd::arithmetic::power::lemma_pow1(g);
                    vstd::arithmetic::power::lemma_pow_adds(g, i as nat, 1);
                }
                vstd::arithmetic::div_mod::lemma_mul_mod_noop_left(pow(g, i as nat), g, md);
                vstd::arithmetic::div_mod::lemma_mod_twice(acc@ * g, md);
            }
            acc = next;
            i = i + 1;
        }
        out
    }
}

/// The evaluations of a polynomial over every element of a domain.
#[derive(Clone, Debug)]
pub struct Evaluations {
    /// The value at each domain element, in domain order.
    pub evaluations: Vec<Fp>,
    /// The domain evaluated over.
    pub domain: EvaluationDomain,
}

impl DenseOrSparsePolynomial {
    /// Evaluates the polynomial at every element of the domain: the
    /// entry at index `i` is the polynomial's value at the `i`-th power
    /// of the domain generator. Evaluating the polynomial directly at a
    /// domain element therefore agrees with the tabulated value at that
    /// element's index.
    pub fn evaluate_over_domain(&self, domain: EvaluationDomain) -> (r: Evaluations)
        requires
            self.wf(),
            domain.wf(),
        ensures
            r.domain == domain,
            r.evaluations@.len() == domain.size,
            forall|i: int|
                0 <= i < domain.size ==> (#[trigger] r.evaluations@[i])@ == self.val_at(
                    domain.element_spec(i as nat),
                ) % (fp_m() as int),
    {
        let points = domain.elements();
        let mut evals: Vec<Fp> = Vec::new();
        let n = points.len();
        let mut i: usize = 0;
        while i < n
            invariant
                i <= n,
                n == points@.len(),
                n == domain.size,
                self.wf(),
                domain.wf(),
                forall|t: int|
                    0 <= t < n ==> (#[trigger] points@[t]).wf() && points@[t]@
                        == domain.element_spec(t as nat),
                evals@.len() == i,
                forall|t: int|
                    0 <= t < i ==> (#[trigger] evals@[t])@ == self.val_at(
                        domain.element_spec(t as nat),
                    ) % (fp_m() as int),
            decreases n - i,
        {
            proof {
                assert(points@[i as int].wf());
            }
            let value = self.evaluate(&points[i]);
            evals.push(value);
            i = i + 1;
        }
        Evaluations { evaluations: evals, domain }
    }
}

} // verus!
