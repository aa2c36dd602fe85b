//! The boolean circuit gadget.
//!
//! A boolean is a linear combination whose value is zero or one, together
//! with its native value under the current witness. A non-constant boolean
//! carries one allocated variable and one gate `(1 - b) * b = 0` forcing
//! the value into range.

use vstd::prelude::*;

use crate::binary::bit;
use crate::environment::{lc_val, Environment, LinearCombination};
use crate::fp::{fp_m, Fp};
use crate::mode::Mode;

verus! {

/// The native values of a sequence of boolean gadgets.
pub open spec fn bools_of(s: Seq<Boolean>) -> Seq<bool> {
    s.map_values(|b: Boolean| b.value)
}

/// Every boolean in the sequence is well formed.
pub open spec fn bools_wf(s: Seq<Boolean>) -> bool {
    forall|i: int| 0 <= i < s.len() ==> (#[trigger] s[i]).wf()
}

/// A boolean value in the circuit.
#[derive(Debug)]
pub struct Boolean {
    /// The linear combination carrying the value.
    pub lc: LinearCombination,
    /// The native value under the current witness.
    pub value: bool,
}

impl Boolean {
    /// The combination is canonical and evaluates to the stored bit.
    pub open spec fn wf(&self) -> bool {
        self.lc.wf() && lc_val(self.lc) == bit(self.value)
    }

    /// Whether the boolean is a constant of the circuit.
    pub open spec fn is_constant_spec(&self) -> bool {
        self.lc.is_constant_spec()
    }

    /// Whether the boolean is a constant of the circuit.
    pub fn is_constant(&self) -> (r: bool)
        ensures
            r <==> self.is_constant_spec(),
    {
        self.lc.is_constant()
    }

    /// The native value under the current witness.
    pub fn eject_value(&self) -> (r: bool)
        ensures
            r == self.value,
    {
        self.value
    }

    /// An identical copy of the gadget.
    pub fn duplicate(&self) -> (r: Boolean)
        ensures
            r.lc.constant == self.lc.constant,
            r.lc.terms@ == self.lc.terms@,
            r.value == self.value,
            self.wf() ==> r.wf(),
            r.is_constant_spec() == self.is_constant_spec(),
    {
        let lc = duplicate_lc(&self.lc);
        Boolean { lc, value: self.value }
    }

    /// A constant boolean that allocates nothing: the fold identity for
    /// chains of boolean operations.
    pub fn constant(value: bool) -> (r: Boolean)
        ensures
            r.wf(),
            r.value == value,
            r.is_constant_spec(),
    {
        let c = if value {
            Fp::one()
        } else {
            Fp::zero()
        };
        Boolean { lc: LinearCombination::from_constant(c), value }
    }

    /// Allocates a new boolean of the given mode. A non-constant boolean
    /// costs one variable and one gate; a constant costs one constant
    /// allocation and no gate.
    pub fn new(env: &mut Environment, mode: Mode, value: bool) -> (r: Boolean)
        requires
            old(env).wf(),
        ensures
            r.wf(),
            r.value == value,
            final (env).wf(),
            final (env).halted == old(env).halted,
            final (env).scopes@ == old(env).scopes@,
            final (env).vars@ == old(env).vars@.push(mode),
            r.is_constant_spec() <==> mode is Constant,
            mode is Constant ==> final (env).constraints@ == old(env).constraints@,
            !(mode is Constant) ==> final (env).constraints@.len() == old(
                env,
            ).constraints@.len() + 1 && (final (env).all_gates_hold() <==> old(
                env,
            ).all_gates_hold()),
    {
        let fp_value = if value {
            Fp::one()
        } else {
            Fp::zero()
        };
        let var = env.new_variable(mode, fp_value);
        if matches!(mode, Mode::Constant) {
            Boolean { lc: LinearCombination::from_constant(fp_value), value }
        } else {
            let lc = LinearCombination::from_variable(var);
            let one = LinearCombination::from_constant(Fp::one());
            let not_lc = one.sub(&lc);
            let zero = LinearCombination::from_constant(Fp::zero());
            let r = Boolean { lc: duplicate_lc(&lc), value };
            proof {
                let md = fp_m() as int;
                // the range gate holds for a zero-or-one value
                assert(lc_val(not_lc) == (1 - bit(value)) % md);
                vstd::arithmetic::div_mod::lemma_small_mod((1 - bit(value)) as nat, fp_m());
                assert((lc_val(not_lc) * lc_val(lc)) % md == 0) by {
                    assert(lc_val(not_lc) * lc_val(lc) == 0) by (nonlinear_arith)
                        requires
                            lc_val(not_lc) == 1 - bit(value) && lc_val(lc) == bit(value),
                    ;
                }
            }
            env.enforce(not_lc, lc, zero);
            r
        }
    }

    /// The negation; free of variables and gates.
    pub fn not(&self) -> (r: Boolean)
        requires
            self.wf(),
        ensures
            r.wf(),
            r.value == !self.value,
            r.is_constant_spec() == self.is_constant_spec(),
    {
        let one = LinearCombination::from_constant(Fp::one());
        let lc = one.sub(&self.lc);
        proof {
            vstd::arithmetic::div_mod::lemma_small_mod((1 - bit(self.value)) as nat, fp_m());
        }
        Boolean { lc, value: !self.value }
    }
}

impl Boolean {
    /// The conjunction. With a constant operand the result is resolved
    /// natively at no cost; otherwise one witness and one gate
    /// `a * b = w` are emitted.
    pub fn and(&self, env: &mut Environment, other: &Boolean) -> (r: Boolean)
        requires
            self.wf(),
            other.wf(),
            old(env).wf(),
        ensures
            r.wf(),
            r.value == (self.value && other.value),
            !(self.is_constant_spec() || other.is_constant_spec()) ==> !r.is_constant_spec(),
            final (env).wf(),
            final (env).halted == old(env).halted,
            final (env).scopes@ == old(env).scopes@,
            self.is_constant_spec() || other.is_constant_spec() ==> final (env).vars@ == old(
                env,
            ).vars@ && final (env).constraints@ == old(env).constraints@,
            !(self.is_constant_spec() || other.is_constant_spec()) ==> {
                &&& final (env).vars@ == old(env).vars@.push(Mode::Private)
                &&& final (env).constraints@.len() == old(env).constraints@.len() + 1
                &&& (final (env).all_gates_hold() <==> old(env).all_gates_hold())
            },
    {
        if self.is_constant() {
            if self.value {
                other.duplicate()
            } else {
                Boolean::constant(false)
            }
        } else if other.is_constant() {
            if other.value {
                self.duplicate()
            } else {
                Boolean::constant(false)
            }
        } else {
            let w = env.new_variable(Mode::Private, if self.value && other.value {
                Fp::one()
            } else {
                Fp::zero()
            });
            let w_lc = LinearCombination::from_variable(w);
            let r = Boolean { lc: duplicate_lc(&w_lc), value: self.value && other.value };
            proof {
                let md = fp_m() as int;
                assert((lc_val(self.lc) * lc_val(other.lc)) % md == lc_val(w_lc)) by {
                    assert(lc_val(self.lc) * lc_val(other.lc) == bit(self.value && other.value))
                        by (nonlinear_arith)
                        requires
                            lc_val(self.lc) == bit(self.value) && lc_val(other.lc) == bit(
                                other.value,
                            ),
                    ;
                    vstd::arithmetic::div_mod::lemma_small_mod(
                        bit(self.value && other.value),
                        fp_m(),
                    );
                }
            }
            env.enforce(duplicate_lc(&self.lc), duplicate_lc(&other.lc), w_lc);
            r
        }
    }

    /// The disjunction. With a constant operand the result is resolved
    /// natively at no cost; otherwise one witness and one gate
    /// `(1 - a) * (1 - b) = 1 - w` are emitted.
    pub fn or(&self, env: &mut Environment, other: &Boolean) -> (r: Boolean)
        requires
            self.wf(),
            other.wf(),
            old(env).wf(),
        ensures
            r.wf(),
            r.value == (self.value || other.value),
            !(self.is_constant_spec() || other.is_constant_spec()) ==> !r.is_constant_spec(),
            self.is_constant_spec() && !self.value ==> r.is_constant_spec()
                == other.is_constant_spec(),
            final (env).wf(),
            final (env).halted == old(env).halted,
            final (env).scopes@ == old(env).scopes@,
            self.is_constant_spec() || other.is_constant_spec() ==> final (env).vars@ == old(
                env,
            ).vars@ && final (env).constraints@ == old(env).constraints@,
            !(self.is_constant_spec() || other.is_constant_spec()) ==> {
                &&& final (env).vars@ == old(env).vars@.push(Mode::Private)
                &&& final (env).constraints@.len() == old(env).constraints@.len() + 1
                &&& (final (env).all_gates_hold() <==> old(env).all_gates_hold())
            },
    {
        if self.is_constant() {
            if self.value {
                Boolean::constant(true)
            } else {
                other.duplicate()
            }
        } else if other.is_constant() {
            if other.value {
                Boolean::constant(true)
            } else {
                self.duplicate()
            }
        } else {
            let value = self.value || other.value;
            let w = env.new_variable(Mode::Private, if value {
                Fp::one()
            } else {
                Fp::zero()
            });
            let w_lc = LinearCombination::from_variable(w);
            let r = Boolean { lc: duplicate_lc(&w_lc), value };
            let one_a = LinearCombination::from_constant(Fp::one());
            let one_b = LinearCombination::from_constant(Fp::one());
            let one_c = LinearCombination::from_constant(Fp::one());
            let not_a = one_a.sub(&self.lc);
            let not_b = one_b.sub(&other.lc);
            let not_w = one_c.sub(&w_lc);
            proof {
                let md = fp_m() as int;
                vstd::arithmetic::div_mod::lemma_small_mod((1 - bit(self.value)) as nat, fp_m());
                vstd::arithmetic::div_mod::lemma_small_mod((1 - bit(other.value)) as nat, fp_m());
                vstd::arithmetic::div_mod::lemma_small_mod((1 - bit(value)) as nat, fp_m());
                assert((lc_val(not_a) * lc_val(not_b)) % md == lc_val(not_w)) by {
                    assert(lc_val(not_a) * lc_val(not_b) == 1 - bit(value)) by (nonlinear_arith)
                        requires
                            lc_val(not_a) == 1 - bit(self.value) && lc_val(not_b) == 1 - bit(
                                other.value,
                            ) && value == (self.value || other.value),
                    ;
                    vstd::arithmetic::div_mod::lemma_small_mod((1 - bit(value)) as nat, fp_m());
                }
            }
            env.enforce(not_a, not_b, not_w);
            r
        }
    }

    /// The exclusive or. With a constant operand the result is resolved
    /// natively at no cost; otherwise one witness and one gate
    /// `2a * b = a + b - w` are emitted.
    pub fn xor(&self, env: &mut Environment, other: &Boolean) -> (r: Boolean)
        requires
            self.wf(),
            other.wf(),
            old(env).wf(),
        ensures
            r.wf(),
            r.value == (self.value != other.value),
            !(self.is_constant_spec() && other.is_constant_spec()) ==> !r.is_constant_spec(),
            final (env).wf(),
            final (env).halted == old(env).halted,
            final (env).scopes@ == old(env).scopes@,
            self.is_constant_spec() || other.is_constant_spec() ==> final (env).vars@ == old(
                env,
            ).vars@ && final (env).constraints@ == old(env).constraints@,
            !(self.is_constant_spec() || other.is_constant_spec()) ==> {
                &&& final (env).vars@ == old(env).vars@.push(Mode::Private)
                &&& final (env).constraints@.len() == old(env).constraints@.len() + 1
                &&& (final (env).all_gates_hold() <==> old(env).all_gates_hold())
            },
    {
        if self.is_constant() {
            if self.value {
                other.not()
            } else {
                other.duplicate()
            }
        } else if other.is_constant() {
            if other.value {
                self.not()
            } else {
                self.duplicate()
            }
        } else {
            let value = self.value != other.value;
            let w = env.new_variable(Mode::Private, if value {
                Fp::one()
            } else {
                Fp::zero()
            });
            let w_lc = LinearCombination::from_variable(w);
            let r = Boolean { lc: duplicate_lc(&w_lc), value };
            let a2 = self.lc.add(&self.lc);
            let a_plus_b = self.lc.add(&other.lc);
            let rhs = a_plus_b.sub(&w_lc);
            proof {
                let md = fp_m() as int;
                let ba = bit(self.value) as int;
                let bb = bit(other.value) as int;
                let bw = bit(value) as int;
                vstd::arithmetic::div_mod::lemma_small_mod((ba + ba) as nat, fp_m());
                vstd::arithmetic::div_mod::lemma_small_mod((ba + bb) as nat, fp_m());
                vstd::arithmetic::div_mod::lemma_small_mod((ba + bb - bw) as nat, fp_m());
                assert((lc_val(a2) * lc_val(other.lc)) % md == lc_val(rhs)) by {
                    assert((ba + ba) * bb == ba + bb - bw) by (nonlinear_arith)
                        requires
                            ba == bit(self.value) && bb == bit(other.value) && bw == bit(value)
                                && value == (self.value != other.value),
                    ;
                    vstd::arithmetic::div_mod::lemma_small_mod(((ba + ba) * bb) as nat, fp_m());
                }
            }
            env.enforce(a2, duplicate_lc(&other.lc), rhs);
            r
        }
    }

    /// Whether two booleans are equal; the complement of `xor`.
    pub fn is_equal(&self, env: &mut Environment, other: &Boolean) -> (r: Boolean)
        requires
            self.wf(),
            other.wf(),
            old(env).wf(),
        ensures
            r.wf(),
            r.value == (self.value == other.value),
            !(self.is_constant_spec() && other.is_constant_spec()) ==> !r.is_constant_spec(),
            final (env).wf(),
            final (env).halted == old(env).halted,
            final (env).scopes@ == old(env).scopes@,
            self.is_constant_spec() || other.is_constant_spec() ==> final (env).vars@ == old(
                env,
            ).vars@ && final (env).constraints@ == old(env).constraints@,
            !(self.is_constant_spec() || other.is_constant_spec()) ==> {
                &&& final (env).vars@ == old(env).vars@.push(Mode::Private)
                &&& final (env).constraints@.len() == old(env).constraints@.len() + 1
                &&& (final (env).all_gates_hold() <==> old(env).all_gates_hold())
            },
    {
        let neq = self.xor(env, other);
        neq.not()
    }

    /// Whether two booleans differ; the same gadget as `xor`.
    pub fn is_not_equal(&self, env: &mut Environment, other: &Boolean) -> (r: Boolean)
        requires
            self.wf(),
            other.wf(),
            old(env).wf(),
        ensures
            r.wf(),
            r.value == (self.value != other.value),
            !(self.is_constant_spec() && other.is_constant_spec()) ==> !r.is_constant_spec(),
            final (env).wf(),
            final (env).halted == old(env).halted,
            final (env).scopes@ == old(env).scopes@,
            self.is_constant_spec() || other.is_constant_spec() ==> final (env).vars@ == old(
                env,
            ).vars@ && final (env).constraints@ == old(env).constraints@,
            !(self.is_constant_spec() || other.is_constant_spec()) ==> {
                &&& final (env).vars@ == old(env).vars@.push(Mode::Private)
                &&& final (env).constraints@.len() == old(env).constraints@.len() + 1
                &&& (final (env).all_gates_hold() <==> old(env).all_gates_hold())
            },
    {
        self.xor(env, other)
    }

    /// Returns `first` if `condition` is true, otherwise `second`. A
    /// constant condition is resolved natively at no cost; otherwise one
    /// witness and one gate `c * (a - b) = w - b` are emitted.
    pub fn ternary(env: &mut Environment, condition: &Boolean, first: &Boolean, second: &Boolean)
        -> (r: Boolean)
        requires
            condition.wf(),
            first.wf(),
            second.wf(),
            old(env).wf(),
        ensures
            r.wf(),
            r.value == (if condition.value {
                first.value
            } else {
                second.value
            }),
            condition.is_constant_spec() ==> r.is_constant_spec() == (if condition.value {
                first.is_constant_spec()
            } else {
                second.is_constant_spec()
            }),
            !condition.is_constant_spec() ==> !r.is_constant_spec(),
            final (env).wf(),
            final (env).halted == old(env).halted,
            final (env).scopes@ == old(env).scopes@,
            condition.is_constant_spec() ==> final (env).vars@ == old(env).vars@
                && final (env).constraints@ == old(env).constraints@,
            !condition.is_constant_spec() ==> {
                &&& final (env).vars@ == old(env).vars@.push(Mode::Private)
                &&& final (env).constraints@.len() == old(env).constraints@.len() + 1
                &&& (final (env).all_gates_hold() <==> old(env).all_gates_hold())
            },
    {
        if condition.is_constant() {
            if condition.value {
                first.duplicate()
            } else {
                second.duplicate()
            }
        } else {
            let value = if condition.value {
                first.value
            } else {
                second.value
            };
            let w = env.new_variable(Mode::Private, if value {
                Fp::one()
            } else {
                Fp::zero()
            });
            let w_lc = LinearCombination::from_variable(w);
            let r = Boolean { lc: duplicate_lc(&w_lc), value };
            let a_minus_b = first.lc.sub(&second.lc);
            let w_minus_b = w_lc.sub(&second.lc);
            proof {
                let md = fp_m() as int;
                let bc = bit(condition.value) as int;
                let d = lc_val(a_minus_b);
                assert((lc_val(condition.lc) * d) % md == lc_val(w_minus_b)) by {
                    if condition.value {
                        assert(1 * d == d) by (nonlinear_arith);
                        vstd::arithmetic::div_mod::lemma_small_mod(d as nat, fp_m());
                    } else {
                        assert(0 * d == 0) by (nonlinear_arith);
                        vstd::arithmetic::div_mod::lemma_small_mod(0nat, fp_m());
                        assert((bit(second.value) - bit(second.value)) as int % md == 0);
                    }
                }
            }
            env.enforce(duplicate_lc(&condition.lc), a_minus_b, w_minus_b);
            r
        }
    }
}

/// An identical copy of a linear combination.
pub fn duplicate_lc(lc: &LinearCombination) -> (r: LinearCombination)
    ensures
        r.constant == lc.constant,
        r.terms@ == lc.terms@,
{
    let mut terms: Vec<(Fp, crate::environment::Variable)> = Vec::new();
    let n = lc.terms.len();
    let mut i: usize = 0;
    while i < n
        invariant
            i <= n,
            n == lc.terms@.len(),
            terms@ == lc.terms@.take(i as int),
        decreases n - i,
    {
        let (c, v) = lc.terms[i];
        terms.push((c, v));
        proof {
            assert(terms@ =~= lc.terms@.take(i + 1));
        }
        i = i + 1;
    }
    proof {
        assert(lc.terms@.take(n as int) =~= lc.terms@);
    }
    LinearCombination { constant: lc.constant, terms }
}

} // verus!
