//! The field-element circuit gadget.
//!
//! A circuit field element is a linear combination over allocated
//! variables together with its native value under the current witness.
//! Linear operations (addition, subtraction, scaling) rewrite the
//! combination and cost nothing; multiplicative operations on
//! non-constant operands allocate a private witness and emit one gate.

use vstd::prelude::*;

use crate::binary::{bit, bits_val, fp_bits_le};
use crate::environment::{lc_val, Environment, LinearCombination};
use crate::fp::{fp_inverse, fp_m, fp_mul, fp_sub, Fp};
use crate::mode::Mode;
use crate::types::boolean::{duplicate_lc, Boolean};
use vstd::arithmetic::power2::pow2;

verus! {

/// A field element in the circuit.
#[derive(Debug)]
pub struct Field {
    /// The linear combination carrying the value.
    pub lc: LinearCombination,
    /// The native value under the current witness.
    pub value: Fp,
}

impl Field {
    /// The combination is canonical and evaluates to the stored value.
    pub open spec fn wf(&self) -> bool {
        self.lc.wf() && self.value.wf() && lc_val(self.lc) == self.value@
    }

    /// Whether the element is a constant of the circuit.
    pub open spec fn is_constant_spec(&self) -> bool {
        self.lc.is_constant_spec()
    }

    /// Whether the element is a constant of the circuit.
    pub fn is_constant(&self) -> (r: bool)
        ensures
            r <==> self.is_constant_spec(),
    {
        self.lc.is_constant()
    }

    /// The native value under the current witness.
    pub fn eject_value(&self) -> (r: Fp)
        ensures
            r == self.value,
    {
        self.value
    }

    /// An identical copy of the gadget.
    pub fn duplicate(&self) -> (r: Field)
        ensures
            r.lc.constant == self.lc.constant,
            r.lc.terms@ == self.lc.terms@,
            r.value == self.value,
            self.wf() ==> r.wf(),
            r.is_constant_spec() == self.is_constant_spec(),
    {
        Field { lc: duplicate_lc(&self.lc), value: self.value }
    }

    /// Allocates a new field element of the given mode; one allocation,
    /// no gate.
    pub fn new(env: &mut Environment, mode: Mode, value: Fp) -> (r: Field)
        requires
            old(env).wf(),
            value.wf(),
        ensures
            r.wf(),
            r.value == value,
            r.is_constant_spec() <==> mode is Constant,
            final (env).wf(),
            final (env).halted == old(env).halted,
            final (env).scopes@ == old(env).scopes@,
            final (env).vars@ == old(env).vars@.push(mode),
            final (env).constraints@ == old(env).constraints@,
    {
        let var = env.new_variable(mode, value);
        if matches!(mode, Mode::Constant) {
            Field { lc: LinearCombination::from_constant(value), value }
        } else {
            Field { lc: LinearCombination::from_variable(var), value }
        }
    }

    /// The constant zero; free of allocations and gates.
    pub fn zero() -> (r: Field)
        ensures
            r.wf(),
            r.value@ == 0,
            r.is_constant_spec(),
    {
        Field { lc: LinearCombination::from_constant(Fp::zero()), value: Fp::zero() }
    }

    /// The constant one; free of allocations and gates.
    pub fn one() -> (r: Field)
        ensures
            r.wf(),
            r.value@ == 1,
            r.is_constant_spec(),
    {
        Field { lc: LinearCombination::from_constant(Fp::one()), value: Fp::one() }
    }

    /// A field element carrying a boolean's bit; free of allocations and
    /// gates.
    pub fn from_boolean(b: &Boolean) -> (r: Field)
        requires
            b.wf(),
        ensures
            r.wf(),
            r.value@ == bit(b.value),
            r.is_constant_spec() == b.is_constant_spec(),
    {
        let value = if b.value {
            Fp::one()
        } else {
            Fp::zero()
        };
        Field { lc: duplicate_lc(&b.lc), value }
    }

    /// The sum; linear, so free of allocations and gates.
    pub fn add(&self, other: &Field) -> (r: Field)
        requires
            self.wf(),
            other.wf(),
        ensures
            r.wf(),
            r.value@ == (self.value@ + other.value@) % fp_m(),
            r.is_constant_spec() == (self.is_constant_spec() && other.is_constant_spec()),
    {
        let lc = self.lc.add(&other.lc);
        let value = crate::fp::fp_add(&self.value, &other.value);
        Field { lc, value }
    }

    /// The difference; linear, so free of allocations and gates.
    pub fn sub(&self, other: &Field) -> (r: Field)
        requires
            self.wf(),
            other.wf(),
        ensures
            r.wf(),
            r.value@ == (self.value@ - other.value@) % (fp_m() as int),
            r.is_constant_spec() == (self.is_constant_spec() && other.is_constant_spec()),
    {
        let lc = self.lc.sub(&other.lc);
        let value = fp_sub(&self.value, &other.value);
        Field { lc, value }
    }

    /// Twice the value; linear, so free of allocations and gates.
    pub fn double(&self) -> (r: Field)
        requires
            self.wf(),
        ensures
            r.wf(),
            r.value@ == (self.value@ + self.value@) % fp_m(),
            r.is_constant_spec() == self.is_constant_spec(),
    {
        self.add(self)
    }

    /// The product. With a constant operand the combination is scaled at
    /// no cost; otherwise one private witness and one gate `a * b = w`
    /// are emitted.
    pub fn mul(&self, env: &mut Environment, other: &Field) -> (r: Field)
        requires
            self.wf(),
            other.wf(),
            old(env).wf(),
        ensures
            r.wf(),
            r.value@ == (self.value@ * other.value@) % fp_m(),
            final (env).wf(),
            final (env).halted == old(env).halted,
            final (env).scopes@ == old(env).scopes@,
            self.is_constant_spec() || other.is_constant_spec() ==> final (env).vars@ == old(
                env,
            ).vars@ && final (env).constraints@ == old(env).constraints@,
            r.is_constant_spec() == (self.is_constant_spec() && other.is_constant_spec()),
            !(self.is_constant_spec() || other.is_constant_spec()) ==> {
                &&& final (env).vars@ == old(env).vars@.push(Mode::Private)
                &&& final (env).constraints@.len() == old(env).constraints@.len() + 1
                &&& (final (env).all_gates_hold() <==> old(env).all_gates_hold())
            },
    {
        let value = fp_mul(&self.value, &other.value);
        if self.is_constant() {
            let lc = other.lc.scale(&self.value);
            proof {
                lemma_mul_values_commute(self.value@, other.value@);
            }
            Field { lc, value }
        } else if other.is_constant() {
            let lc = self.lc.scale(&other.value);
            proof {
                lemma_mul_values_commute(other.value@, self.value@);
            }
            Field { lc, value }
        } else {
            let w = env.new_variable(Mode::Private, value);
            let w_lc = LinearCombination::from_variable(w);
            let r = Field { lc: duplicate_lc(&w_lc), value };
            proof {
                let md = fp_m() as int;
                assert((lc_val(self.lc) * lc_val(other.lc)) % md == lc_val(w_lc));
            }
            env.enforce(duplicate_lc(&self.lc), duplicate_lc(&other.lc), w_lc);
            r
        }
    }
}

impl Field {
    /// The multiplicative inverse. A zero value is fatal and halts the
    /// session at every mode. A constant inverse costs one constant
    /// allocation and no gate; otherwise one private witness and the
    /// gate `self * w = 1` are emitted.
    pub fn inv(&self, env: &mut Environment) -> (r: Field)
        requires
            self.wf(),
            old(env).wf(),
        ensures
            final (env).wf(),
            final (env).scopes@ == old(env).scopes@,
            self.value@ == 0 ==> final (env).halted && final (env).vars@ == old(env).vars@
                && final (env).constraints@ == old(env).constraints@,
            self.value@ != 0 ==> {
                &&& final (env).halted == old(env).halted
                &&& r.wf()
                &&& (r.value@ * self.value@) % fp_m() == 1
                &&& r.is_constant_spec() == self.is_constant_spec()
                &&& final (env).vars@ == old(env).vars@.push(
                    if self.is_constant_spec() {
                        Mode::Constant
                    } else {
                        Mode::Private
                    },
                )
                &&& (self.is_constant_spec() ==> final (env).constraints@ == old(
                    env,
                ).constraints@)
                &&& (!self.is_constant_spec() ==> final (env).constraints@.len() == old(
                    env,
                ).constraints@.len() + 1 && (final (env).all_gates_hold() <==> old(
                    env,
                ).all_gates_hold()))
            },
    {
        match fp_inverse(&self.value) {
            None => {
                env.halt("Failed to compute the inverse of a zero field element");
                Field::zero()
            },
            Some(inverse) => {
                if self.is_constant() {
                    let var = env.new_variable(Mode::Constant, inverse);
                    Field { lc: LinearCombination::from_constant(inverse), value: inverse }
                } else {
                    let w = env.new_variable(Mode::Private, inverse);
                    let w_lc = LinearCombination::from_variable(w);
                    let one = LinearCombination::from_constant(Fp::one());
                    let r = Field { lc: duplicate_lc(&w_lc), value: inverse };
                    proof {
                        let md = fp_m() as int;
                        assert((lc_val(self.lc) * lc_val(w_lc)) % md == lc_val(one)) by {
                            assert(self.value@ * inverse@ == inverse@ * self.value@)
                                by (nonlinear_arith);
                        }
                    }
                    env.enforce(duplicate_lc(&self.lc), w_lc, one);
                    r
                }
            },
        }
    }

    /// The quotient `self / other`, computed as `self * other^(-1)`. A
    /// zero divisor is fatal and halts the session at every mode.
    pub fn div(&self, env: &mut Environment, other: &Field) -> (r: Field)
        requires
            self.wf(),
            other.wf(),
            old(env).wf(),
        ensures
            final (env).wf(),
            final (env).scopes@ == old(env).scopes@,
            other.value@ == 0 ==> final (env).halted,
            other.value@ != 0 ==> {
                &&& final (env).halted == old(env).halted
                &&& r.wf()
                &&& (r.value@ * other.value@) % fp_m() == self.value@
                &&& (!(self.is_constant_spec() && other.is_constant_spec()) ==> (final (
                env).all_gates_hold() <==> old(env).all_gates_hold()))
                &&& (self.is_constant_spec() && other.is_constant_spec() ==> final (
                env).all_gates_hold() == old(env).all_gates_hold())
                &&& (other.is_constant_spec() ==> final (env).vars@ == old(env).vars@.push(
                    Mode::Constant,
                ) && final (env).constraints@ == old(env).constraints@)
                &&& (!other.is_constant_spec() && self.is_constant_spec() ==> final (env).vars@
                    == old(env).vars@.push(Mode::Private) && final (env).constraints@.len()
                    == old(env).constraints@.len() + 1)
                &&& (!other.is_constant_spec() && !self.is_constant_spec() ==> final (
                env).vars@ == old(env).vars@.push(Mode::Private).push(Mode::Private) && final (
                env).constraints@.len() == old(env).constraints@.len() + 2)
            },
    {
        let inverse = other.inv(env);
        if other.value.is_zero() {
            return Field::zero();
        }
        let r = self.mul(env, &inverse);
        proof {
            lemma_division_product(self.value@, other.value@, inverse.value@);
        }
        r
    }

    /// Whether two field elements differ, as a boolean gadget. For
    /// constant operands the answer is a constant; otherwise the gadget
    /// allocates the indicator and a multiplier witness and emits the two
    /// gates `(a - b) * multiplier = is_neq` and
    /// `(a - b) * (1 - is_neq) = 0`, which together force the indicator
    /// to be correct under every satisfying assignment.
    pub fn is_not_equal(&self, env: &mut Environment, other: &Field) -> (r: Boolean)
        requires
            self.wf(),
            other.wf(),
            old(env).wf(),
        ensures
            r.wf(),
            r.value == (self.value@ != other.value@),
            final (env).wf(),
            final (env).halted == old(env).halted,
            final (env).scopes@ == old(env).scopes@,
            self.is_constant_spec() && other.is_constant_spec() ==> {
                &&& final (env).vars@ == old(env).vars@.push(Mode::Constant)
                &&& final (env).constraints@ == old(env).constraints@
            },
            !(self.is_constant_spec() && other.is_constant_spec()) ==> {
                &&& final (env).vars@ == old(env).vars@.push(Mode::Private).push(Mode::Private)
                &&& final (env).constraints@.len() == old(env).constraints@.len() + 3
                &&& (final (env).all_gates_hold() <==> old(env).all_gates_hold())
                &&& inequality_gates(
                    final (env).constraints@[final (env).constraints@.len() - 2],
                    final (env).constraints@[final (env).constraints@.len() - 1],
                    self.value@,
                    other.value@,
                    r.value,
                )
            },
    {
        let not_equal = !self.value.eq_value(&other.value);
        if self.is_constant() && other.is_constant() {
            Boolean::new(env, Mode::Constant, not_equal)
        } else {
            let is_neq = Boolean::new(env, Mode::Private, not_equal);
            let delta_value = fp_sub(&self.value, &other.value);
            let multiplier_value = if not_equal {
                proof {
                    lemma_nonzero_delta(self.value@, other.value@);
                }
                fp_inverse(&delta_value).unwrap()
            } else {
                Fp::one()
            };
            let multiplier = env.new_variable(Mode::Private, multiplier_value);
            let multiplier_lc = LinearCombination::from_variable(multiplier);
            let delta = self.lc.sub(&other.lc);
            let delta2 = self.lc.sub(&other.lc);
            let one = LinearCombination::from_constant(Fp::one());
            let is_eq_lc = one.sub(&is_neq.lc);
            let zero = LinearCombination::from_constant(Fp::zero());
            proof {
                let md = fp_m() as int;
                assert(lc_val(delta) == delta_value@);
                if not_equal {
                    lemma_nonzero_delta(self.value@, other.value@);
                    // gate 1: delta * multiplier = 1
                    assert((lc_val(delta) * lc_val(multiplier_lc)) % md == 1) by {
                        assert(delta_value@ * multiplier_value@ == multiplier_value@
                            * delta_value@) by (nonlinear_arith);
                    }
                    // gate 2: delta * (1 - 1) = 0
                    assert(lc_val(is_eq_lc) == 0);
                    assert((lc_val(delta2) * 0) % md == 0) by {
                        assert(lc_val(delta2) * 0 == 0) by (nonlinear_arith);
                        vstd::arithmetic::div_mod::lemma_small_mod(0nat, fp_m());
                    }
                } else {
                    assert(lc_val(delta) == 0) by {
                        vstd::arithmetic::div_mod::lemma_small_mod(0nat, fp_m());
                    }
                    assert((0 * lc_val(multiplier_lc)) % md == 0) by {
                        assert(0 * lc_val(multiplier_lc) == 0) by (nonlinear_arith);
                        vstd::arithmetic::div_mod::lemma_small_mod(0nat, fp_m());
                    }
                    assert((0 * lc_val(is_eq_lc)) % md == 0) by {
                        assert(0 * lc_val(is_eq_lc) == 0) by (nonlinear_arith);
                        vstd::arithmetic::div_mod::lemma_small_mod(0nat, fp_m());
                    }
                }
                vstd::arithmetic::div_mod::lemma_small_mod(bit(is_neq.value), fp_m());
            }
            env.enforce(delta, multiplier_lc, duplicate_lc(&is_neq.lc));
            env.enforce(delta2, is_eq_lc, zero);
            is_neq
        }
    }

    /// Whether two field elements are equal: the complement of
    /// `is_not_equal`, at the same cost.
    pub fn is_equal(&self, env: &mut Environment, other: &Field) -> (r: Boolean)
        requires
            self.wf(),
            other.wf(),
            old(env).wf(),
        ensures
            r.wf(),
            r.value == (self.value@ == other.value@),
            final (env).wf(),
            final (env).halted == old(env).halted,
            final (env).scopes@ == old(env).scopes@,
            self.is_constant_spec() && other.is_constant_spec() ==> {
                &&& final (env).vars@ == old(env).vars@.push(Mode::Constant)
                &&& final (env).constraints@ == old(env).constraints@
            },
            !(self.is_constant_spec() && other.is_constant_spec()) ==> {
                &&& final (env).vars@ == old(env).vars@.push(Mode::Private).push(Mode::Private)
                &&& final (env).constraints@.len() == old(env).constraints@.len() + 3
                &&& (final (env).all_gates_hold() <==> old(env).all_gates_hold())
            },
    {
        let is_neq = self.is_not_equal(env, other);
        is_neq.not()
    }

    /// Whether the element is one.
    pub fn is_one(&self, env: &mut Environment) -> (r: Boolean)
        requires
            self.wf(),
            old(env).wf(),
        ensures
            r.wf(),
            r.value == (self.value@ == 1),
            final (env).wf(),
            final (env).halted == old(env).halted,
            final (env).scopes@ == old(env).scopes@,
            final (env).all_gates_hold() ==> old(env).all_gates_hold(),
            old(env).all_gates_hold() ==> final (env).all_gates_hold(),
    {
        let one = Field::one();
        self.is_equal(env, &one)
    }

    /// Whether the element is zero.
    pub fn is_zero(&self, env: &mut Environment) -> (r: Boolean)
        requires
            self.wf(),
            old(env).wf(),
        ensures
            r.wf(),
            r.value == (self.value@ == 0),
            final (env).wf(),
            final (env).halted == old(env).halted,
            final (env).scopes@ == old(env).scopes@,
            final (env).all_gates_hold() ==> old(env).all_gates_hold(),
            old(env).all_gates_hold() ==> final (env).all_gates_hold(),
    {
        let zero = Field::zero();
        self.is_equal(env, &zero)
    }

    /// Returns `first` if `condition` is true, otherwise `second`. A
    /// constant condition is resolved natively at no cost; otherwise one
    /// witness and one gate `c * (a - b) = w - b` are emitted.
    pub fn ternary(env: &mut Environment, condition: &Boolean, first: &Field, second: &Field)
        -> (r: Field)
        requires
            condition.wf(),
            first.wf(),
            second.wf(),
            old(env).wf(),
        ensures
            r.wf(),
            r.value == (if condition.value {
                first.value
            } else {
                second.value
            }),
            final (env).wf(),
            final (env).halted == old(env).halted,
            final (env).scopes@ == old(env).scopes@,
            condition.is_constant_spec() ==> final (env).vars@ == old(env).vars@
                && final (env).constraints@ == old(env).constraints@,
            !condition.is_constant_spec() ==> {
                &&& final (env).vars@ == old(env).vars@.push(Mode::Private)
                &&& final (env).constraints@.len() == old(env).constraints@.len() + 1
                &&& (final (env).all_gates_hold() <==> old(env).all_gates_hold())
            },
    {
        if condition.is_constant() {
            if condition.value {
                first.duplicate()
            } else {
                second.duplicate()
            }
        } else {
            let value = if condition.value {
                first.value
            } else {
                second.value
            };
            let w = env.new_variable(Mode::Private, value);
            let w_lc = LinearCombination::from_variable(w);
            let r = Field { lc: duplicate_lc(&w_lc), value };
            let a_minus_b = first.lc.sub(&second.lc);
            let w_minus_b = w_lc.sub(&second.lc);
            proof {
                let md = fp_m() as int;
                let d = lc_val(a_minus_b);
                assert((lc_val(condition.lc) * d) % md == lc_val(w_minus_b)) by {
                    if condition.value {
                        assert(1 * d == d) by (nonlinear_arith);
                        vstd::arithmetic::div_mod::lemma_small_mod(d as nat, fp_m());
                    } else {
                        assert(0 * d == 0) by (nonlinear_arith);
                        vstd::arithmetic::div_mod::lemma_small_mod(0nat, fp_m());
                    }
                }
            }
            env.enforce(duplicate_lc(&condition.lc), a_minus_b, w_minus_b);
            r
        }
    }
}

impl Field {
    /// The lower `k` bits of the element in little-endian order. The
    /// extracted bits are witnessed and the weighted sum of the bits is
    /// enforced to equal the element, which simultaneously proves the
    /// bits correct and all higher bits zero: the system is satisfiable
    /// exactly when the value fits in `k` bits. Requesting more bits
    /// than the field's 253-bit capacity is fatal.
    #[verifier::rlimit(100)]
    pub fn to_lower_bits_le(&self, env: &mut Environment, k: usize) -> (r: Vec<Boolean>)
        requires
            self.wf(),
            old(env).wf(),
        ensures
            final (env).wf(),
            final (env).scopes@ == old(env).scopes@,
            k > 253 ==> final (env).halted && final (env).vars@ == old(env).vars@
                && final (env).constraints@ == old(env).constraints@ && r@.len() == 0,
            k <= 253 ==> {
                &&& r@.len() == k
                &&& crate::types::boolean::bools_wf(r@)
                &&& bits_val(crate::types::boolean::bools_of(r@)) == self.value@ % pow2(
                    k as nat,
                )
                &&& final (env).vars@.len() == old(env).vars@.len() + k
                &&& final (env).vars@ == old(env).vars@ + Seq::new(
                    k as nat,
                    |i: int|
                        if self.is_constant_spec() {
                            Mode::Constant
                        } else {
                            Mode::Private
                        },
                )
                &&& (self.is_constant_spec() ==> {
                    &&& final (env).constraints@ == old(env).constraints@
                    &&& (final (env).halted <==> old(env).halted || self.value@ >= pow2(
                        k as nat,
                    ))
                    &&& forall|i: int| 0 <= i < k ==> (#[trigger] r@[i]).is_constant_spec()
                })
                &&& (!self.is_constant_spec() ==> {
                    &&& final (env).constraints@.len() == old(env).constraints@.len() + k + 1
                    &&& final (env).halted == old(env).halted
                    &&& (final (env).all_gates_hold() <==> old(env).all_gates_hold()
                        && self.value@ < pow2(k as nat))
                    &&& forall|i: int| 0 <= i < k ==> !(#[trigger] r@[i]).is_constant_spec()
                })
            },
    {
        if k > 253 {
            env.halt("Attempted to extract more bits than the base field holds");
            return Vec::new();
        }
        let mode = if self.is_constant() {
            Mode::Constant
        } else {
            Mode::Private
        };
        let ghost env0 = *env;
        let native_bits = fp_bits_le(&self.value);
        let mut bits: Vec<Boolean> = Vec::new();
        let mut acc = Field::zero();
        let mut coeff = Fp::one();
        let mut i: usize = 0;
        proof {
            vstd::arithmetic::power2::lemma2_to64();
            vstd::arithmetic::div_mod::lemma_small_mod(1nat, fp_m());
            assert(crate::types::boolean::bools_of(bits@) =~= native_bits@.take(0));
            assert(bits_val(native_bits@.take(0)) == 0);
        }
        while i < k
            invariant
                i <= k,
                k <= 253,
                self.wf(),
                env.wf(),
                native_bits@.len() == 256,
                bits_val(native_bits@) == self.value@,
                mode == (if self.is_constant_spec() {
                    Mode::Constant
                } else {
                    Mode::Private
                }),
                bits@.len() == i,
                crate::types::boolean::bools_wf(bits@),
                crate::types::boolean::bools_of(bits@) == native_bits@.take(i as int),
                acc.wf(),
                acc.value@ == bits_val(native_bits@.take(i as int)) % fp_m(),
                acc.is_constant_spec() == (self.is_constant_spec() || i == 0),
                coeff.wf(),
                coeff@ == pow2(i as nat) % fp_m(),
                env.halted == env0.halted,
                env.scopes@ == env0.scopes@,
                env.vars@.len() == env0.vars@.len() + i,
                env.vars@ == env0.vars@ + Seq::new(
                    i as nat,
                    |t: int| if self.is_constant_spec() {
                        Mode::Constant
                    } else {
                        Mode::Private
                    },
                ),
                self.is_constant_spec() ==> env.constraints@ == env0.constraints@ && (forall|
                    t: int,
                | 0 <= t < i ==> (#[trigger] bits@[t]).is_constant_spec()),
                !self.is_constant_spec() ==> (forall|t: int|
                    0 <= t < i ==> !(#[trigger] bits@[t]).is_constant_spec()),
                !self.is_constant_spec() ==> env.constraints@.len() == env0.constraints@.len()
                    + i && (env.all_gates_hold() <==> env0.all_gates_hold()),
            decreases k - i,
        {
            let b = Boolean::new(env, mode, native_bits[i]);
            proof {
                assert(env.vars@ =~= env0.vars@ + Seq::new(
                    (i + 1) as nat,
                    |t: int|
                        if self.is_constant_spec() {
                            Mode::Constant
                        } else {
                            Mode::Private
                        },
                ));
            }
            let ghost prev_bits = bits@;
            let coeff_field = Field { lc: LinearCombination::from_constant(coeff), value: coeff };
            let term = Field::from_boolean(&b).mul(env, &coeff_field);
            bits.push(b);
            let next_acc = acc.add(&term);
            let next_coeff = crate::fp::fp_add(&coeff, &coeff);
            proof {
                assert(crate::types::boolean::bools_of(bits@) =~= native_bits@.take(i + 1));
                crate::binary::lemma_bits_val_take_step(native_bits@, i as int);
                lemma_bit_sum_step(
                    bits_val(native_bits@.take(i as int)) as int,
                    bit(b.value) as int,
                    pow2(i as nat) as int,
                    acc.value@ as int,
                    term.value@ as int,
                    next_acc.value@ as int,
                );
                lemma_coeff_double(
                    pow2(i as nat) as int,
                    coeff@ as int,
                    next_coeff@ as int,
                );
                assert(pow2((i + 1) as nat) == 2 * pow2(i as nat)) by {
                    vstd::arithmetic::power2::lemma_pow2_adds(1, i as nat);
                    vstd::arithmetic::power2::lemma2_to64();
                }
            }
            acc = next_acc;
            coeff = next_coeff;
            i = i + 1;
        }
        proof {
            let md = fp_m() as int;
            crate::binary::lemma_bits_val_take_is_mod(native_bits@, k as int);
            // the reconstructed sum is the value reduced modulo two to
            // the k, which is itself canonical
            vstd::arithmetic::power2::lemma_pow2_pos(k as nat);
            vstd::arithmetic::div_mod::lemma_mod_decreases(self.value@, pow2(k as nat));
            vstd::arithmetic::div_mod::lemma_small_mod(self.value@ % pow2(k as nat), fp_m());
            assert(acc.value@ == self.value@ % pow2(k as nat));
            vstd::arithmetic::div_mod::lemma_small_mod(self.value@, fp_m());
            if self.value@ < pow2(k as nat) {
                vstd::arithmetic::div_mod::lemma_small_mod(self.value@, pow2(k as nat));
            } else {
                assert(self.value@ % pow2(k as nat) != self.value@) by {
                    vstd::arithmetic::power2::lemma_pow2_pos(k as nat);
                    vstd::arithmetic::div_mod::lemma_mod_division_less_than_divisor(
                        self.value@ as int,
                        pow2(k as nat) as int,
                    );
                }
            }
        }
        env.enforce_eq(duplicate_lc(&self.lc), duplicate_lc(&acc.lc));
        bits
    }

    /// The lower `k` bits of the element in big-endian order: the
    /// little-endian extraction, reversed, at the same cost.
    pub fn to_lower_bits_be(&self, env: &mut Environment, k: usize) -> (r: Vec<Boolean>)
        requires
            self.wf(),
            old(env).wf(),
        ensures
            final (env).wf(),
            final (env).scopes@ == old(env).scopes@,
            k > 253 ==> final (env).halted && r@.len() == 0,
            k <= 253 ==> {
                &&& r@.len() == k
                &&& crate::types::boolean::bools_wf(r@)
                &&& bits_val(crate::types::boolean::bools_of(r@).reverse()) == self.value@
                    % pow2(k as nat)
                &&& final (env).vars@.len() == old(env).vars@.len() + k
                &&& (!self.is_constant_spec() ==> final (env).halted == old(env).halted && (
                final (env).all_gates_hold() <==> old(env).all_gates_hold() && self.value@
                    < pow2(k as nat)))
                &&& (self.is_constant_spec() ==> (final (env).halted <==> old(env).halted
                    || self.value@ >= pow2(k as nat)))
            },
    {
        let bits_le = self.to_lower_bits_le(env, k);
        if k > 253 {
            return bits_le;
        }
        let mut bits_be: Vec<Boolean> = Vec::new();
        let n = bits_le.len();
        let mut i: usize = 0;
        while i < n
            invariant
                i <= n,
                n == bits_le@.len(),
                crate::types::boolean::bools_wf(bits_le@),
                bits_be@.len() == i,
                crate::types::boolean::bools_wf(bits_be@),
                forall|t: int|
                    0 <= t < i ==> (#[trigger] bits_be@[t]).value == bits_le@[n - 1 - t].value,
            decreases n - i,
        {
            let b = bits_le[n - 1 - i].duplicate();
            proof {
                assert(bits_le@[n - 1 - i as int].wf());
            }
            bits_be.push(b);
            i = i + 1;
        }
        proof {
            assert(crate::types::boolean::bools_of(bits_be@).reverse()
                =~= crate::types::boolean::bools_of(bits_le@));
        }
        bits_be
    }
}

/// One step of the weighted bit accumulation: adding the reduced term
/// keeps the running sum congruent to the bit prefix value.
pub proof fn lemma_bit_sum_step(x: int, bv: int, p: int, accv: int, termv: int, nextv: int)
    requires
        accv == x % (fp_m() as int),
        termv == (bv * (p % (fp_m() as int))) % (fp_m() as int),
        nextv == (accv + termv) % (fp_m() as int),
    ensures
        nextv == (x + bv * p) % (fp_m() as int),
{
    let md = fp_m() as int;
    vstd::arithmetic::div_mod::lemma_mul_mod_noop_right(bv, p, md);
    vstd::arithmetic::div_mod::lemma_add_mod_noop(x, bv * p, md);
}

/// Doubling a reduced power of two gives the next reduced power of two.
pub proof fn lemma_coeff_double(p: int, coeffv: int, nextv: int)
    requires
        coeffv == p % (fp_m() as int),
        nextv == (coeffv + coeffv) % (fp_m() as int),
    ensures
        nextv == (2 * p) % (fp_m() as int),
{
    let md = fp_m() as int;
    vstd::arithmetic::div_mod::lemma_add_mod_noop(p, p, md);
}

/// The two gates of the inequality gadget: over the difference
/// `delta = a - b`, the first gate is
/// `delta * multiplier = is_neq` with the multiplier witnessed as the
/// inverse of the difference when the values differ and as one when
/// they agree, and the second is `delta * (1 - is_neq) = 0`.
pub open spec fn inequality_gates(
    g1: crate::environment::Constraint,
    g2: crate::environment::Constraint,
    a: nat,
    b: nat,
    is_neq: bool,
) -> bool {
    let md = fp_m() as int;
    let delta = (a - b) % md;
    &&& lc_val(g1.a) == delta
    &&& (a != b ==> (lc_val(g1.b) * delta) % md == 1)
    &&& (a == b ==> lc_val(g1.b) == 1)
    &&& lc_val(g1.c) == bit(is_neq)
    &&& lc_val(g2.a) == delta
    &&& lc_val(g2.b) == (1 - bit(is_neq)) % md
    &&& lc_val(g2.c) == 0
}

/// Delta of two distinct canonical values is nonzero modulo the prime.
proof fn lemma_nonzero_delta(a: nat, b: nat)
    requires
        a < fp_m(),
        b < fp_m(),
        a != b,
    ensures
        (a - b) % (fp_m() as int) != 0,
{
    let md = fp_m() as int;
    if a > b {
        vstd::arithmetic::div_mod::lemma_small_mod((a - b) as nat, fp_m());
    } else {
        vstd::arithmetic::div_mod::lemma_mod_add_multiples_vanish(a - b, md);
        vstd::arithmetic::div_mod::lemma_small_mod((a - b + md) as nat, fp_m());
    }
}

/// A quotient witness times the divisor gives back the dividend.
proof fn lemma_division_product(a: nat, b: nat, binv: nat)
    requires
        a < fp_m(),
        (binv * b) % fp_m() == 1,
    ensures
        ((((a * binv) % fp_m()) * b) as int) % (fp_m() as int) == a,
{
    let md = fp_m() as int;
    vstd::arithmetic::div_mod::lemma_mul_mod_noop_left((a * binv) as int, b as int, md);
    assert(a * binv * b == a * (binv * b)) by (nonlinear_arith);
    vstd::arithmetic::div_mod::lemma_mul_mod_noop_right(a as int, (binv * b) as int, md);
    assert(a * 1 == a) by (nonlinear_arith);
    vstd::arithmetic::div_mod::lemma_small_mod(a, fp_m());
}

/// Scaling by a constant computes the same product as multiplying the
/// values.
proof fn lemma_mul_values_commute(a: nat, b: nat)
    ensures
        ((a * b) as int) % (fp_m() as int) == ((b * a) as int) % (fp_m() as int),
{
    assert(a * b == b * a) by (nonlinear_arith);
}

} // verus!
